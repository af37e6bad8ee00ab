//! River networks: nodes joined by their outputs, and paths through them.
use vstd::prelude::*;
use crate::attrs::{AttrMap, Attribute, Val, upsert};
use crate::node::{NodeInner, NodeV};
use crate::functions::{Propagation, PropV, Condition, CondV, check_spec, check_strict_spec};
use crate::text::{owned, push_str, str_eq, debug_str, debug_quoted};

verus! {

/// A path between two nodes, given by their names.
#[derive(Debug)]
pub struct StrPath {
    pub start: String,
    pub end: String,
    pub attributes: Option<AttrMap>,
}

/// The mathematical form of a path.
pub struct StrPathV {
    pub start: Seq<char>,
    pub end: Seq<char>,
    pub attributes: Option<Seq<(Seq<char>, Val)>>,
}

impl View for StrPath {
    type V = StrPathV;

    open spec fn view(&self) -> StrPathV {
        StrPathV {
            start: self.start@,
            end: self.end@,
            attributes: match self.attributes {
                Some(a) => Some(a@),
                None => None,
            },
        }
    }
}

impl StrPath {
    /// A path from `start` to `end` without attributes.
    pub fn new(start: String, end: String) -> (p: Self)
        ensures
            p@ == (StrPathV { start: start@, end: end@, attributes: None }),
    {
        StrPath { start, end, attributes: None }
    }
}

/// A river network: nodes (each stored under an id) in an order, with
/// the network's own attributes. Each node flows into at most one node,
/// its output; the outlet is the node everything flows to.
#[derive(Debug)]
pub struct Network {
    store: Vec<NodeInner>,
    nodes: Vec<usize>,
    attributes: AttrMap,
    outlet: Option<usize>,
    ordered: bool,
}

pub struct NetworkV {
    /// the nodes, by id
    pub store: Seq<NodeV>,
    /// the ids of the nodes, in the network's order
    pub nodes: Seq<usize>,
    pub attrs: Seq<(Seq<char>, Val)>,
    /// the id of the outlet
    pub outlet: Option<usize>,
    /// whether `nodes` follows the topology
    pub ordered: bool,
}

pub open spec fn store_view(s: Seq<NodeInner>) -> Seq<NodeV> {
    s.map_values(|n: NodeInner| n@)
}

impl View for Network {
    type V = NetworkV;

    closed spec fn view(&self) -> NetworkV {
        NetworkV {
            store: store_view(self.store@),
            nodes: self.nodes@,
            attrs: self.attributes@,
            outlet: self.outlet,
            ordered: self.ordered,
        }
    }
}

/// No id occurs twice.
pub open spec fn distinct(s: Seq<usize>) -> bool {
    forall|i: int, j: int| 0 <= i < j < s.len() ==> s[i] != s[j]
}

/// The links of node `n` point at nodes of `st`.
pub open spec fn links_in(st: Seq<NodeV>, n: NodeV) -> bool {
    &&& forall|k: int| 0 <= k < n.inputs.len() ==> n.inputs[k] < st.len()
    &&& n.output matches Some(o) ==> o < st.len()
}

/// The network is well formed: the order lists each id once, each node's
/// index is its place in the order, links point at nodes of the network,
/// and names are unique.
pub open spec fn net_wf(v: NetworkV) -> bool {
    let st = v.store;
    &&& st.len() == v.nodes.len()
    &&& forall|i: int| 0 <= i < v.nodes.len() ==> v.nodes[i] < st.len()
    &&& distinct(v.nodes)
    &&& forall|i: int| 0 <= i < v.nodes.len() ==> #[trigger] st[v.nodes[i] as int].index == i
    &&& forall|j: int| 0 <= j < st.len() ==> links_in(st, #[trigger] st[j])
    &&& forall|a: int, b: int| 0 <= a < b < st.len() ==> st[a].name != st[b].name
    &&& v.outlet matches Some(o) ==> o < st.len()
}

/// The id of the node named `name`, if any.
pub open spec fn id_of(st: Seq<NodeV>, name: Seq<char>) -> Option<usize> {
    if exists|j: int| 0 <= j < st.len() && #[trigger] st[j].name == name {
        Some((choose|j: int| 0 <= j < st.len() && #[trigger] st[j].name == name) as usize)
    } else {
        None
    }
}

/// The network with a new node named `name` at the end of the order.
pub open spec fn with_new_node(v: NetworkV, name: Seq<char>) -> NetworkV {
    NetworkV {
        store: v.store.push(NodeV {
            index: v.nodes.len() as usize,
            name: name,
            level: 0,
            order: 0,
            attrs: crate::node::initial_attrs(v.nodes.len() as usize, name),
            inputs: Seq::empty(),
            output: None,
            ts: Seq::empty(),
        }),
        nodes: v.nodes.push(v.store.len() as usize),
        ..v
    }
}

/// The network with node `a` flowing into node `b` (by id).
pub open spec fn with_link(v: NetworkV, a: usize, b: usize) -> NetworkV {
    let st1 = v.store.update(a as int, NodeV { output: Some(b), ..v.store[a as int] });
    NetworkV { store: st1.update(b as int, NodeV { inputs: st1[b as int].inputs.push(a), ..st1[b as int] }), ..v }
}

/// The network with a node named `name`, added where there is none.
pub open spec fn with_name(v: NetworkV, name: Seq<char>) -> NetworkV {
    if id_of(v.store, name) is Some { v } else { with_new_node(v, name) }
}

/// The network of the connections `paths`, before it is ordered: nodes in
/// the order their names first appear.
pub open spec fn linked(paths: Seq<StrPathV>) -> NetworkV
    decreases paths.len(),
{
    if paths.len() == 0 {
        NetworkV { store: Seq::empty(), nodes: Seq::empty(), attrs: Seq::empty(), outlet: None, ordered: false }
    } else {
        let p = paths.last();
        let v = with_name(with_name(linked(paths.drop_last()), p.start), p.end);
        with_link(v, id_of(v.store, p.start)->0, id_of(v.store, p.end)->0)
    }
}

pub open spec fn path_views(p: Seq<StrPath>) -> Seq<StrPathV> {
    p.map_values(|x: StrPath| x@)
}

impl Network {
    pub closed spec fn wf(&self) -> bool {
        net_wf(self@)
    }

    /// An empty network.
    pub fn new() -> (n: Self)
        ensures
            n.wf(),
            n@ == (NetworkV { store: Seq::empty(), nodes: Seq::empty(), attrs: Seq::empty(), outlet: None, ordered: false }),
    {
        let n = Network { store: Vec::new(), nodes: Vec::new(), attributes: AttrMap::new(), outlet: None, ordered: false };
        assert(store_view(n.store@) =~= Seq::<NodeV>::empty());
        assert(n.nodes@ =~= Seq::<usize>::empty());
        n
    }

    pub fn nodes_count(&self) -> (n: usize)
        requires
            self.wf(),
        ensures
            n == self@.nodes.len(),
    {
        self.nodes.len()
    }

    /// The node at place `ind` of the order.
    pub fn node(&self, ind: usize) -> (r: Option<&NodeInner>)
        requires
            self.wf(),
        ensures
            ind < self@.nodes.len() ==> (r matches Some(n) && n@ == self@.store[self@.nodes[ind as int] as int]),
            ind >= self@.nodes.len() ==> r is None,
    {
        if ind < self.nodes.len() {
            let id = self.nodes[ind];
            Some(&self.store[id])
        } else {
            None
        }
    }

    /// The id of the node named `name`.
    pub fn node_id(&self, name: &str) -> (r: Option<usize>)
        requires
            self.wf(),
        ensures
            r == id_of(self@.store, name@),
    {
        let mut j: usize = 0;
        while j < self.store.len()
            invariant
                self.wf(),
                j <= self.store.len(),
                forall|k: int| 0 <= k < j ==> #[trigger] self@.store[k].name != name@,
            decreases self.store.len() - j,
        {
            if str_eq(self.store[j].name(), name) {
                proof {
                    let w = choose|k: int| 0 <= k < self@.store.len() && #[trigger] self@.store[k].name == name@;
                    if w != j {
                        if w < j {
                            assert(self@.store[w].name != self@.store[j as int].name);
                        } else {
                            assert(self@.store[j as int].name != self@.store[w].name);
                        }
                    }
                }
                return Some(j);
            }
            j = j + 1;
        }
        None
    }

    /// The node named `name`.
    pub fn node_by_name(&self, name: &str) -> (r: Option<&NodeInner>)
        requires
            self.wf(),
        ensures
            match id_of(self@.store, name@) {
                Some(j) => r matches Some(n) && n@ == self@.store[j as int],
                None => r is None,
            },
    {
        match self.node_id(name) {
            Some(j) => Some(&self.store[j]),
            None => None,
        }
    }

    /// The node named `name`; the error says it is not there.
    pub fn try_node_by_name(&self, name: &str) -> (r: Result<&NodeInner, String>)
        requires
            self.wf(),
        ensures
            match id_of(self@.store, name@) {
                Some(j) => r matches Ok(n) && n@ == self@.store[j as int],
                None => r matches Err(m) && m@ == "Node "@ + name@ + " not found"@,
            },
    {
        match self.node_by_name(name) {
            Some(n) => Ok(n),
            None => {
                let mut m = owned("Node ");
                push_str(&mut m, name);
                push_str(&mut m, " not found");
                Err(m)
            },
        }
    }

    /// Adds a node named `name` at the end of the order; a network that
    /// has a node of that name already stays as it is.
    pub fn insert_node_by_name(&mut self, name: &str)
        requires
            old(self).wf(),
            old(self)@.nodes.len() < usize::MAX,
        ensures
            final(self).wf(),
            final(self)@ == with_name(old(self)@, name@),
    {
        if self.node_id(name).is_some() {
            return;
        }
        let n = self.nodes.len();
        let id = self.store.len();
        let node = NodeInner::new(n, name);
        let ghost st0 = store_view(self.store@);
        self.store.push(node);
        self.nodes.push(id);
        proof {
            assert(store_view(self.store@) =~= st0.push(node@));
            let v = self@;
            assert forall|i: int| 0 <= i < v.nodes.len() implies #[trigger] v.store[v.nodes[i] as int].index == i by {
                if i < n {
                    assert(old(self)@.store[old(self)@.nodes[i] as int].index == i);
                }
            }
            assert forall|j: int| 0 <= j < v.store.len() implies links_in(v.store, #[trigger] v.store[j]) by {
                if j < id {
                    assert(links_in(old(self)@.store, old(self)@.store[j]));
                }
            }
            assert forall|a: int, b: int| 0 <= a < b < v.store.len() implies v.store[a].name != v.store[b].name by {
                if b == id {
                    assert(old(self)@.store[a].name != name@);
                }
            }
            assert forall|i: int, j: int| 0 <= i < j < v.nodes.len() implies v.nodes[i] != v.nodes[j] by {
                if j == n {
                    assert(v.nodes[i] < id);
                }
            }
        }
    }
}

// ---------------------------------------------------------------------------
// Orders: how many nodes flow into each node.
// ---------------------------------------------------------------------------

pub open spec fn sat_add(a: u64, b: u64) -> u64 {
    if a + b > u64::MAX { u64::MAX } else { (a + b) as u64 }
}

/// The number of nodes that flow into node `n`, itself included, looking
/// `fuel` levels of inputs deep.
pub open spec fn sub_order(st: Seq<NodeV>, n: int, fuel: nat) -> u64
    decreases 2 * fuel + 1, 0int,
{
    if fuel == 0 || !(0 <= n < st.len()) {
        1
    } else {
        sat_add(1, sum_orders(st, st[n].inputs, (fuel - 1) as nat))
    }
}

/// The sum of `sub_order` over the nodes `ins`.
pub open spec fn sum_orders(st: Seq<NodeV>, ins: Seq<usize>, fuel: nat) -> u64
    decreases 2 * fuel + 2, ins.len(),
{
    if ins.len() == 0 {
        0
    } else {
        sat_add(sum_orders(st, ins.drop_last(), fuel), sub_order(st, ins.last() as int, fuel))
    }
}

/// All links of the nodes point at nodes of `st`.
pub open spec fn all_links_in(st: Seq<NodeV>) -> bool {
    forall|j: int| 0 <= j < st.len() ==> links_in(st, #[trigger] st[j])
}

fn sub_order_exec(store: &Vec<NodeInner>, n: usize, fuel: usize) -> (r: u64)
    requires
        n < store.len(),
        all_links_in(store_view(store@)),
    ensures
        r == sub_order(store_view(store@), n as int, fuel as nat),
        r >= 1,
    decreases 2 * fuel + 1, 0int,
{
    if fuel == 0 {
        return 1;
    }
    proof {
        assert(links_in(store_view(store@), store_view(store@)[n as int]));
    }
    let s = sum_orders_exec(store, store[n].inputs(), fuel - 1);
    1u64.saturating_add(s)
}

fn sum_orders_exec(store: &Vec<NodeInner>, ins: &Vec<usize>, fuel: usize) -> (r: u64)
    requires
        forall|k: int| 0 <= k < ins@.len() ==> ins@[k] < store.len(),
        all_links_in(store_view(store@)),
    ensures
        r == sum_orders(store_view(store@), ins@, fuel as nat),
    decreases 2 * fuel + 2, ins@.len(),
{
    let mut acc: u64 = 0;
    let mut k: usize = 0;
    assert(ins@.take(0) =~= Seq::<usize>::empty());
    while k < ins.len()
        invariant
            k <= ins.len(),
            forall|k: int| 0 <= k < ins@.len() ==> ins@[k] < store.len(),
            all_links_in(store_view(store@)),
            acc == sum_orders(store_view(store@), ins@.take(k as int), fuel as nat),
        decreases ins.len() - k,
    {
        let o = sub_order_exec(store, ins[k], fuel);
        proof {
            assert(ins@.take(k + 1).drop_last() =~= ins@.take(k as int));
        }
        acc = acc.saturating_add(o);
        k = k + 1;
    }
    assert(ins@.take(ins.len() as int) =~= ins@);
    acc
}

/// The store with every node's order set to the number of nodes upstream
/// of it (that flow into it, directly or through other nodes).
pub open spec fn with_orders(st: Seq<NodeV>) -> Seq<NodeV> {
    Seq::new(st.len(), |j: int| NodeV { order: (sub_order(st, j, st.len()) - 1) as u64, ..st[j] })
}

/// `rank` ranks the nodes of `st` below the number of nodes, every input
/// ranking below the node it flows into: the links form no cycle.
pub open spec fn ranked(st: Seq<NodeV>, rank: Seq<nat>) -> bool {
    &&& rank.len() == st.len()
    &&& all_links_in(st)
    &&& forall|j: int| 0 <= j < st.len() ==> #[trigger] rank[j] < st.len()
    &&& forall|j: int, k: int| 0 <= j < st.len() && 0 <= k < st[j].inputs.len()
        ==> rank[#[trigger] st[j].inputs[k] as int] < rank[j]
}

/// The sum, over the nodes `ins`, of their order in `o` plus one (the node
/// itself and those upstream of it).
pub open spec fn upstream_sum(o: Seq<NodeV>, ins: Seq<usize>) -> int
    decreases ins.len(),
{
    if ins.len() == 0 {
        0
    } else {
        upstream_sum(o, ins.drop_last()) + o[ins.last() as int].order + 1
    }
}

proof fn lemma_sub_order_fuel(st: Seq<NodeV>, rank: Seq<nat>, i: int, f1: nat, f2: nat)
    requires
        ranked(st, rank),
        0 <= i < st.len(),
        f1 > rank[i],
        f2 > rank[i],
    ensures
        sub_order(st, i, f1) == sub_order(st, i, f2),
    decreases rank[i] + 1, 0int,
{
    assert(links_in(st, st[i]));
    let ins = st[i].inputs;
    assert forall|k: int| 0 <= k < ins.len() implies ins[k] < st.len() && rank[ins[k] as int] < rank[i] by {
        assert(rank[st[i].inputs[k] as int] < rank[i]);
    }
    lemma_sum_orders_fuel(st, rank, ins, rank[i], (f1 - 1) as nat, (f2 - 1) as nat);
}

proof fn lemma_sum_orders_fuel(st: Seq<NodeV>, rank: Seq<nat>, ins: Seq<usize>, r: nat, f1: nat, f2: nat)
    requires
        ranked(st, rank),
        forall|k: int| 0 <= k < ins.len() ==> ins[k] < st.len() && rank[ins[k] as int] < r,
        f1 >= r,
        f2 >= r,
    ensures
        sum_orders(st, ins, f1) == sum_orders(st, ins, f2),
    decreases r, ins.len(),
{
    if ins.len() > 0 {
        lemma_sum_orders_fuel(st, rank, ins.drop_last(), r, f1, f2);
        assert(ins.last() == ins[ins.len() - 1]);
        lemma_sub_order_fuel(st, rank, ins.last() as int, f1, f2);
    }
}

proof fn lemma_sub_order_pos(st: Seq<NodeV>, i: int, f: nat)
    ensures
        sub_order(st, i, f) >= 1,
{
}

proof fn lemma_sum_orders_exact(st: Seq<NodeV>, rank: Seq<nat>, ins: Seq<usize>, f: nat)
    requires
        ranked(st, rank),
        forall|k: int| 0 <= k < ins.len() ==> ins[k] < st.len() && rank[ins[k] as int] < f,
        upstream_sum(with_orders(st), ins) <= u64::MAX,
    ensures
        sum_orders(st, ins, f) == upstream_sum(with_orders(st), ins),
    decreases ins.len(),
{
    if ins.len() > 0 {
        let o = with_orders(st);
        let d = ins.drop_last();
        let x = ins.last() as int;
        assert(ins.last() == ins[ins.len() - 1]);
        lemma_sum_orders_exact(st, rank, d, f);
        assert(rank[x] < st.len());
        lemma_sub_order_fuel(st, rank, x, f, st.len());
        lemma_sub_order_pos(st, x, st.len());
        assert(o[x].order == sub_order(st, x, st.len()) - 1);
    }
}

/// After `calc_order`, in a network without cycles, the order of each
/// node is the sum over its inputs of their orders plus one (each input
/// counts itself and all nodes upstream of it), however deep the network;
/// links are kept.
pub proof fn law_order_sums_inputs(st: Seq<NodeV>, rank: Seq<nat>)
    requires
        ranked(st, rank),
    ensures
        with_orders(st).len() == st.len(),
        forall|j: int| 0 <= j < st.len() ==> (#[trigger] with_orders(st)[j]).inputs == st[j].inputs,
        forall|j: int| 0 <= j < st.len() && upstream_sum(with_orders(st), st[j].inputs) < u64::MAX
            ==> (#[trigger] with_orders(st)[j]).order == upstream_sum(with_orders(st), st[j].inputs),
{
    let o = with_orders(st);
    let n = st.len();
    assert forall|j: int| 0 <= j < n && upstream_sum(o, st[j].inputs) < u64::MAX
        implies (#[trigger] o[j]).order == upstream_sum(o, st[j].inputs) by {
        let ins = st[j].inputs;
        assert(links_in(st, st[j]));
        assert(rank[j] < n);
        assert forall|k: int| 0 <= k < ins.len() implies ins[k] < st.len() && rank[ins[k] as int] < (n - 1) as nat by {
            assert(rank[st[j].inputs[k] as int] < rank[j]);
        }
        lemma_sum_orders_exact(st, rank, ins, (n - 1) as nat);
    }
}

impl Network {
    /// Sets the order of every node: the number of nodes upstream of it.
    pub fn calc_order(&mut self)
        requires
            old(self).wf(),
        ensures
            final(self).wf(),
            final(self)@ == (NetworkV { store: with_orders(old(self)@.store), ..old(self)@ }),
    {
        let ghost st0 = self@.store;
        let n = self.store.len();
        let mut orders: Vec<u64> = Vec::new();
        let mut j: usize = 0;
        while j < n
            invariant
                self.wf(),
                self@.store == st0,
                n == st0.len(),
                j <= n,
                orders@.len() == j,
                forall|k: int| 0 <= k < j ==> #[trigger] orders@[k] == sub_order(st0, k, n as nat) - 1,
            decreases n - j,
        {
            let o = sub_order_exec(&self.store, j, n);
            orders.push(o - 1);
            assert(store_view(self.store@) == st0);
            j = j + 1;
        }
        let mut j: usize = 0;
        while j < n
            invariant
                n == st0.len(),
                j <= n,
                orders@.len() == n,
                forall|k: int| 0 <= k < n ==> #[trigger] orders@[k] == sub_order(st0, k, n as nat) - 1,
                self.store@.len() == n,
                self@.nodes == old(self)@.nodes,
                self@.attrs == old(self)@.attrs,
                self@.outlet == old(self)@.outlet,
                self@.ordered == old(self)@.ordered,
                forall|k: int| 0 <= k < j ==> #[trigger] self.store@[k]@ == (NodeV { order: orders@[k], ..st0[k] }),
                forall|k: int| j <= k < n ==> #[trigger] self.store@[k]@ == st0[k],
            decreases n - j,
        {
            let ghost before = self.store@;
            self.store[j].set_order(orders[j]);
            proof {
                assert forall|k: int| 0 <= k < n && k != j implies #[trigger] self.store@[k] == before[k] by {}
            }
            j = j + 1;
        }
        proof {
            assert(self@.store =~= with_orders(st0)) by {
                assert forall|k: int| 0 <= k < n implies #[trigger] self@.store[k] == with_orders(st0)[k] by {
                    assert(self@.store[k] == self.store@[k]@);
                }
            }
            let v = self@;
            assert forall|i: int| 0 <= i < v.nodes.len() implies #[trigger] v.store[v.nodes[i] as int].index == i by {
                assert(old(self)@.store[old(self)@.nodes[i] as int].index == i);
            }
            assert forall|j: int| 0 <= j < v.store.len() implies links_in(v.store, #[trigger] v.store[j]) by {
                assert(links_in(st0, st0[j]));
            }
            assert forall|a: int, b: int| 0 <= a < b < v.store.len() implies v.store[a].name != v.store[b].name by {
                assert(st0[a].name != st0[b].name);
            }
        }
    }
}

// ---------------------------------------------------------------------------
// Ordering the network.
// ---------------------------------------------------------------------------

/// The order of node `i`.
pub open spec fn ord_of(st: Seq<NodeV>, i: usize) -> u64 {
    if i < st.len() { st[i as int].order } else { 0 }
}

/// `x` put into the list `s` (sorted by increasing order) after every
/// node whose order is not greater.
pub open spec fn ins_asc(st: Seq<NodeV>, x: usize, s: Seq<usize>) -> Seq<usize>
    decreases s.len(),
{
    if s.len() == 0 {
        seq![x]
    } else if ord_of(st, s.last()) <= ord_of(st, x) {
        s.push(x)
    } else {
        ins_asc(st, x, s.drop_last()).push(s.last())
    }
}

/// The nodes `s` sorted by increasing order; nodes of equal order keep
/// their places relative to each other.
pub open spec fn sort_asc(st: Seq<NodeV>, s: Seq<usize>) -> Seq<usize>
    decreases s.len(),
{
    if s.len() == 0 {
        s
    } else {
        ins_asc(st, s.last(), sort_asc(st, s.drop_last()))
    }
}

/// `x` put into the list `s` (sorted by decreasing order) after every
/// node whose order is not smaller.
pub open spec fn ins_desc(st: Seq<NodeV>, x: usize, s: Seq<usize>) -> Seq<usize>
    decreases s.len(),
{
    if s.len() == 0 {
        seq![x]
    } else if ord_of(st, s.last()) >= ord_of(st, x) {
        s.push(x)
    } else {
        ins_desc(st, x, s.drop_last()).push(s.last())
    }
}

/// The nodes `s` sorted by decreasing order, stably.
pub open spec fn sort_desc(st: Seq<NodeV>, s: Seq<usize>) -> Seq<usize>
    decreases s.len(),
{
    if s.len() == 0 {
        s
    } else {
        ins_desc(st, s.last(), sort_desc(st, s.drop_last()))
    }
}

fn insert_sorted(store: &Vec<NodeInner>, v: &mut Vec<usize>, x: usize, asc: bool)
    ensures
        final(v)@ == if asc { ins_asc(store_view(store@), x, old(v)@) } else { ins_desc(store_view(store@), x, old(v)@) },
{
    let ghost st = store_view(store@);
    let ghost s = v@;
    let ox = if x < store.len() { store[x].order() } else { 0 };
    let mut j = v.len();
    assert(s.take(j as int) =~= s);
    assert(s.skip(j as int) =~= Seq::<usize>::empty());
    loop
        invariant
            v@ == s,
            j <= s.len(),
            ox == ord_of(st, x),
            st == store_view(store@),
            asc ==> ins_asc(st, x, s) == ins_asc(st, x, s.take(j as int)) + s.skip(j as int),
            !asc ==> ins_desc(st, x, s) == ins_desc(st, x, s.take(j as int)) + s.skip(j as int),
        ensures
            j <= s.len(),
            asc ==> ins_asc(st, x, s) == ins_asc(st, x, s.take(j as int)) + s.skip(j as int),
            !asc ==> ins_desc(st, x, s) == ins_desc(st, x, s.take(j as int)) + s.skip(j as int),
            j == 0 || (asc && ord_of(st, s[j - 1]) <= ox) || (!asc && ord_of(st, s[j - 1]) >= ox),
        decreases j,
    {
        if j == 0 {
            break;
        }
        let y = v[j - 1];
        let oy = if y < store.len() { store[y].order() } else { 0 };
        let later = if asc { oy > ox } else { oy < ox };
        if !later {
            break;
        }
        proof {
            assert(s.take(j as int).drop_last() =~= s.take(j - 1));
            assert(s.take(j as int).last() == y);
            assert(seq![y] + s.skip(j as int) =~= s.skip(j - 1));
            assert(s.take(j - 1).push(y) + s.skip(j as int) =~= s.take(j - 1) + (seq![y] + s.skip(j as int)));
            if asc {
                assert(ins_asc(st, x, s.take(j - 1)).push(y) + s.skip(j as int) =~= ins_asc(st, x, s.take(j - 1)) + s.skip(j - 1));
            } else {
                assert(ins_desc(st, x, s.take(j - 1)).push(y) + s.skip(j as int) =~= ins_desc(st, x, s.take(j - 1)) + s.skip(j - 1));
            }
        }
        j = j - 1;
    }
    v.insert(j, x);
    proof {
        if j > 0 {
            assert(s.take(j as int).drop_last() =~= s.take(j - 1));
            assert(s.take(j as int).last() == s[j - 1]);
        }
        assert(v@ =~= s.take(j as int).push(x) + s.skip(j as int));
        if j == 0 {
            assert(s.take(0) =~= Seq::<usize>::empty());
        }
    }
}

/// The nodes of `v` sorted by order, increasing with `asc`, else decreasing.
fn sort_by_order(store: &Vec<NodeInner>, v: &Vec<usize>, asc: bool) -> (r: Vec<usize>)
    ensures
        r@ == if asc { sort_asc(store_view(store@), v@) } else { sort_desc(store_view(store@), v@) },
{
    let ghost st = store_view(store@);
    let mut r: Vec<usize> = Vec::new();
    let mut k: usize = 0;
    assert(v@.take(0) =~= Seq::<usize>::empty());
    while k < v.len()
        invariant
            k <= v.len(),
            st == store_view(store@),
            r@ == if asc { sort_asc(st, v@.take(k as int)) } else { sort_desc(st, v@.take(k as int)) },
        decreases v.len() - k,
    {
        proof {
            assert(v@.take(k + 1).drop_last() =~= v@.take(k as int));
            assert(v@.take(k + 1).last() == v@[k as int]);
        }
        insert_sorted(store, &mut r, v[k], asc);
        k = k + 1;
    }
    assert(v@.take(v.len() as int) =~= v@);
    r
}

/// The node reached from `n` by following outputs, at most `fuel` times.
pub open spec fn walk_out(st: Seq<NodeV>, n: usize, fuel: nat) -> usize
    decreases fuel,
{
    if fuel == 0 || n >= st.len() {
        n
    } else {
        match st[n as int].output {
            None => n,
            Some(o) => walk_out(st, o, (fuel - 1) as nat),
        }
    }
}

fn walk_out_exec(store: &Vec<NodeInner>, n: usize, fuel: usize) -> (r: usize)
    requires
        n < store.len(),
        all_links_in(store_view(store@)),
    ensures
        r == walk_out(store_view(store@), n, fuel as nat),
        r < store.len(),
{
    let ghost st = store_view(store@);
    let mut cur = n;
    let mut f = fuel;
    while f > 0
        invariant
            cur < store.len(),
            st == store_view(store@),
            all_links_in(st),
            walk_out(st, n, fuel as nat) == walk_out(st, cur, f as nat),
        decreases f,
    {
        proof {
            assert(links_in(st, st[cur as int]));
        }
        match store[cur].output() {
            None => return cur,
            Some(o) => {
                cur = o;
            },
        }
        f = f - 1;
    }
    cur
}

/// The nodes met by visiting `n` and then, in increasing order, the
/// nodes flowing into it, `fuel` levels deep.
pub open spec fn dfs(st: Seq<NodeV>, n: usize, fuel: nat) -> Seq<usize>
    decreases 2 * fuel + 1, 0int,
{
    if fuel == 0 || n >= st.len() {
        seq![n]
    } else {
        seq![n] + dfs_list(st, sort_asc(st, st[n as int].inputs), (fuel - 1) as nat)
    }
}

pub open spec fn dfs_list(st: Seq<NodeV>, ins: Seq<usize>, fuel: nat) -> Seq<usize>
    decreases 2 * fuel + 2, ins.len(),
{
    if ins.len() == 0 {
        Seq::empty()
    } else {
        dfs_list(st, ins.drop_last(), fuel) + dfs(st, ins.last(), fuel)
    }
}

proof fn lemma_sort_asc_in(st: Seq<NodeV>, s: Seq<usize>, bound: int)
    requires
        forall|k: int| 0 <= k < s.len() ==> s[k] < bound,
    ensures
        forall|k: int| 0 <= k < sort_asc(st, s).len() ==> sort_asc(st, s)[k] < bound,
        sort_asc(st, s).len() == s.len(),
    decreases s.len(),
{
    if s.len() > 0 {
        lemma_sort_asc_in(st, s.drop_last(), bound);
        lemma_ins_asc_in(st, s.last(), sort_asc(st, s.drop_last()), bound);
    }
}

proof fn lemma_ins_asc_in(st: Seq<NodeV>, x: usize, s: Seq<usize>, bound: int)
    requires
        forall|k: int| 0 <= k < s.len() ==> s[k] < bound,
        x < bound,
    ensures
        forall|k: int| 0 <= k < ins_asc(st, x, s).len() ==> ins_asc(st, x, s)[k] < bound,
        ins_asc(st, x, s).len() == s.len() + 1,
    decreases s.len(),
{
    if s.len() > 0 {
        lemma_ins_asc_in(st, x, s.drop_last(), bound);
    }
}

fn dfs_exec(store: &Vec<NodeInner>, n: usize, fuel: usize, out: &mut Vec<usize>)
    requires
        n < store.len(),
        all_links_in(store_view(store@)),
    ensures
        final(out)@ == old(out)@ + dfs(store_view(store@), n, fuel as nat),
    decreases 2 * fuel + 1, 0int,
{
    let ghost st = store_view(store@);
    let ghost o0 = out@;
    out.push(n);
    if fuel == 0 {
        return;
    }
    proof {
        assert(links_in(st, st[n as int]));
        lemma_sort_asc_in(st, st[n as int].inputs, st.len() as int);
    }
    let ins = sort_by_order(store, store[n].inputs(), true);
    dfs_list_exec(store, &ins, fuel - 1, out);
    assert(out@ =~= o0 + dfs(st, n, fuel as nat));
}

fn dfs_list_exec(store: &Vec<NodeInner>, ins: &Vec<usize>, fuel: usize, out: &mut Vec<usize>)
    requires
        forall|k: int| 0 <= k < ins@.len() ==> ins@[k] < store.len(),
        all_links_in(store_view(store@)),
    ensures
        final(out)@ == old(out)@ + dfs_list(store_view(store@), ins@, fuel as nat),
    decreases 2 * fuel + 2, ins@.len(),
{
    let ghost st = store_view(store@);
    let ghost o0 = out@;
    let mut k: usize = 0;
    assert(ins@.take(0) =~= Seq::<usize>::empty());
    assert(out@ =~= o0 + dfs_list(st, ins@.take(0), fuel as nat));
    while k < ins.len()
        invariant
            k <= ins.len(),
            st == store_view(store@),
            forall|k: int| 0 <= k < ins@.len() ==> ins@[k] < store.len(),
            all_links_in(st),
            out@ == o0 + dfs_list(st, ins@.take(k as int), fuel as nat),
        decreases ins.len() - k,
    {
        let ghost before = out@;
        dfs_exec(store, ins[k], fuel, out);
        proof {
            assert(ins@.take(k + 1).drop_last() =~= ins@.take(k as int));
            assert(ins@.take(k + 1).last() == ins@[k as int]);
            assert(out@ =~= o0 + dfs_list(st, ins@.take(k + 1), fuel as nat));
        }
        k = k + 1;
    }
    assert(ins@.take(ins.len() as int) =~= ins@);
}

/// `s` lists each of the ids below `n` exactly once.
pub open spec fn perm_of(s: Seq<usize>, n: int) -> bool {
    &&& s.len() == n
    &&& forall|k: int| 0 <= k < s.len() ==> s[k] < n
    &&& distinct(s)
}

fn is_perm(s: &Vec<usize>, n: usize) -> (b: bool)
    ensures
        b == perm_of(s@, n as int),
{
    if s.len() != n {
        return false;
    }
    let mut seen: Vec<bool> = Vec::new();
    let mut k: usize = 0;
    while k < n
        invariant
            k <= n,
            seen@.len() == k,
            forall|i: int| 0 <= i < k ==> !#[trigger] seen@[i],
        decreases n - k,
    {
        seen.push(false);
        k = k + 1;
    }
    let mut i: usize = 0;
    while i < s.len()
        invariant
            s@.len() == n,
            i <= n,
            seen@.len() == n,
            forall|a: int| 0 <= a < i ==> s@[a] < n,
            forall|a: int, b: int| 0 <= a < b < i ==> s@[a] != s@[b],
            forall|v: int| 0 <= v < n ==> (#[trigger] seen@[v] <==> exists|a: int| 0 <= a < i && s@[a] == v),
        decreases n - i,
    {
        let x = s[i];
        if x >= n {
            return false;
        }
        if seen[x] {
            return false;
        }
        seen.set(x, true);
        proof {
            assert forall|v: int| 0 <= v < n implies (#[trigger] seen@[v] <==> exists|a: int| 0 <= a < i + 1 && s@[a] == v) by {
                if v == x {
                    assert(s@[i as int] == v);
                } else {
                    if exists|a: int| 0 <= a < i + 1 && s@[a] == v {
                        let a = choose|a: int| 0 <= a < i + 1 && s@[a] == v;
                        assert(a < i);
                    }
                }
            }
            assert forall|a: int, b: int| 0 <= a < b < i + 1 implies s@[a] != s@[b] by {
                if b == i && s@[a] == s@[b] {
                    assert(seen@[x as int]);
                }
            }
        }
        i = i + 1;
    }
    true
}

/// The place of id `j` in the order `nodes`.
pub open spec fn place_of(nodes: Seq<usize>, j: int) -> int {
    choose|i: int| 0 <= i < nodes.len() && nodes[i] == j
}

/// The store with each node's index (and attribute `INDEX`) set to its
/// place in `nodes`.
pub open spec fn reindexed(st: Seq<NodeV>, nodes: Seq<usize>) -> Seq<NodeV> {
    Seq::new(st.len(), |j: int| {
        let i = place_of(nodes, j);
        NodeV { index: i as usize, attrs: upsert(st[j].attrs, "INDEX"@, Val::Integer(i as usize as i64)), ..st[j] }
    })
}

/// The network after `reorder`.
pub open spec fn reordered(v: NetworkV) -> NetworkV {
    let st1 = with_orders(v.store);
    let n = v.nodes.len();
    let outlet = if n == 0 { None } else { Some(walk_out(st1, v.nodes[0], n)) };
    let new = match outlet {
        Some(o) => dfs(st1, o, n),
        None => Seq::empty(),
    };
    if perm_of(new, n as int) {
        NetworkV { store: reindexed(st1, new), nodes: new, outlet: outlet, ordered: true, ..v }
    } else {
        NetworkV { store: st1, outlet: outlet, ordered: false, ..v }
    }
}

impl Network {
    /// Sets each node's index to its place in the order.
    fn reindex(&mut self)
        requires
            perm_of(old(self)@.nodes, old(self)@.store.len() as int),
            all_links_in(old(self)@.store),
            forall|a: int, b: int| 0 <= a < b < old(self)@.store.len() ==> old(self)@.store[a].name != old(self)@.store[b].name,
            old(self)@.outlet matches Some(o) ==> o < old(self)@.store.len(),
        ensures
            final(self).wf(),
            final(self)@ == (NetworkV { store: reindexed(old(self)@.store, old(self)@.nodes), ..old(self)@ }),
    {
        let ghost st0 = self@.store;
        let ghost nodes = self@.nodes;
        let n = self.nodes.len();
        let mut i: usize = 0;
        while i < n
            invariant
                n == nodes.len(),
                perm_of(nodes, n as int),
                st0.len() == n,
                self.store@.len() == n,
                self.nodes@ == nodes,
                self@.attrs == old(self)@.attrs,
                self@.outlet == old(self)@.outlet,
                self@.ordered == old(self)@.ordered,
                i <= n,
                forall|a: int| 0 <= a < i ==> #[trigger] self.store@[nodes[a] as int]@ == (NodeV {
                    index: a as usize,
                    attrs: upsert(st0[nodes[a] as int].attrs, "INDEX"@, Val::Integer(a as usize as i64)),
                    ..st0[nodes[a] as int]
                }),
                forall|j: int| 0 <= j < n && (forall|a: int| 0 <= a < i ==> nodes[a] != j) ==> #[trigger] self.store@[j]@ == st0[j],
            decreases n - i,
        {
            let id = self.nodes[i];
            let ghost before = self.store@;
            self.store[id].set_index(i);
            proof {
                assert forall|a: int| 0 <= a < i + 1 implies #[trigger] self.store@[nodes[a] as int]@ == (NodeV {
                    index: a as usize,
                    attrs: upsert(st0[nodes[a] as int].attrs, "INDEX"@, Val::Integer(a as usize as i64)),
                    ..st0[nodes[a] as int]
                }) by {
                    if a < i {
                        assert(nodes[a] != nodes[i as int]);
                    } else {
                        assert(before[id as int]@ == st0[id as int]) by {
                            assert forall|b: int| 0 <= b < i implies nodes[b] != id by {
                                assert(nodes[b] != nodes[i as int]);
                            }
                        }
                    }
                }
            }
            i = i + 1;
        }
        proof {
            assert(self@.store =~= reindexed(st0, nodes)) by {
                assert forall|j: int| 0 <= j < n implies #[trigger] self@.store[j] == reindexed(st0, nodes)[j] by {
                    lemma_perm_covers(nodes, n as int, j);
                    let a = place_of(nodes, j);
                    assert(self@.store[j] == self.store@[j]@);
                    assert(nodes[a] == j);
                }
            }
            let v = self@;
            assert forall|i: int| 0 <= i < v.nodes.len() implies #[trigger] v.store[v.nodes[i] as int].index == i by {
                let j = nodes[i] as int;
                lemma_perm_covers(nodes, n as int, j);
                let a = place_of(nodes, j);
                if a != i {
                    if a < i {
                        assert(nodes[a] != nodes[i]);
                    } else {
                        assert(nodes[i] != nodes[a]);
                    }
                }
            }
            assert forall|j: int| 0 <= j < v.store.len() implies links_in(v.store, #[trigger] v.store[j]) by {
                assert(links_in(st0, st0[j]));
            }
            assert forall|a: int, b: int| 0 <= a < b < v.store.len() implies v.store[a].name != v.store[b].name by {
                assert(st0[a].name != st0[b].name);
            }
        }
    }

    /// Orders the network from its outlet (the node reached by following
    /// outputs from the first node): each node comes before the nodes
    /// flowing into it, and those come in increasing order. Where that
    /// does not list every node once (the nodes are not all connected),
    /// the order stays and the network is marked unordered.
    pub fn reorder(&mut self)
        requires
            old(self).wf(),
        ensures
            final(self).wf(),
            final(self)@ == reordered(old(self)@),
    {
        self.calc_order();
        let n = self.nodes.len();
        let ghost st1 = self@.store;
        proof {
            assert(all_links_in(st1));
        }
        let outlet = if n == 0 {
            None
        } else {
            Some(walk_out_exec(&self.store, self.nodes[0], n))
        };
        self.outlet = outlet;
        let mut new_nodes: Vec<usize> = Vec::new();
        match outlet {
            Some(o) => {
                dfs_exec(&self.store, o, n, &mut new_nodes);
                assert(new_nodes@ =~= dfs(st1, o, n as nat));
            },
            None => {},
        }
        if !is_perm(&new_nodes, n) {
            self.ordered = false;
            return;
        }
        self.nodes = new_nodes;
        self.reindex();
        self.ordered = true;
    }
}

/// A permutation of the ids below `n` holds each of them.
proof fn lemma_perm_covers(nodes: Seq<usize>, n: int, j: int)
    requires
        perm_of(nodes, n),
        0 <= j < n,
    ensures
        exists|a: int| 0 <= a < n && nodes[a] == j,
{
    let si = nodes.map_values(|x: usize| x as int);
    assert(si.no_duplicates()) by {
        assert forall|a: int, b: int| 0 <= a < si.len() && 0 <= b < si.len() && a != b implies si[a] != si[b] by {
            if a < b {
                assert(nodes[a] != nodes[b]);
            } else {
                assert(nodes[b] != nodes[a]);
            }
        }
    }
    si.unique_seq_to_set();
    vstd::set_lib::lemma_int_range(0, n);
    let r = vstd::set_lib::set_int_range(0, n);
    assert(si.to_set().subset_of(r)) by {
        assert forall|x: int| si.to_set().contains(x) implies r.contains(x) by {
            let a = choose|a: int| 0 <= a < si.len() && si[a] == x;
            assert(nodes[a] < n);
        }
    }
    vstd::set_lib::lemma_len_subset(si.to_set(), r);
    vstd::set_lib::lemma_subset_equality(si.to_set(), r);
    assert(r.contains(j));
    assert(si.to_set().contains(j));
    let a = choose|a: int| 0 <= a < si.len() && si[a] == j;
    assert(nodes[a] == j);
}

// ---------------------------------------------------------------------------
// Levels of tributaries.
// ---------------------------------------------------------------------------

/// Setting levels from node `n` at `level`, `fuel` levels of inputs deep:
/// `n` gets `level` and its inputs sorted by decreasing order; the first
/// input continues at `level`, the others start one level higher.
pub open spec fn set_lv(st: Seq<NodeV>, n: usize, level: u64, fuel: nat) -> Seq<NodeV>
    decreases 2 * fuel + 1, 0int,
{
    if fuel == 0 || n >= st.len() {
        st
    } else {
        let sorted = sort_desc(st, st[n as int].inputs);
        let st1 = st.update(n as int, NodeV { level: level, inputs: sorted, ..st[n as int] });
        set_lv_list(st1, sorted, level, true, (fuel - 1) as nat)
    }
}

pub open spec fn set_lv_list(st: Seq<NodeV>, ins: Seq<usize>, level: u64, first: bool, fuel: nat) -> Seq<NodeV>
    decreases 2 * fuel + 2, ins.len(),
{
    if ins.len() == 0 {
        st
    } else {
        let st2 = set_lv(st, ins[0], if first { level } else { sat_add(level, 1) }, fuel);
        set_lv_list(st2, ins.drop_first(), level, false, fuel)
    }
}

proof fn lemma_ins_desc_same(st: Seq<NodeV>, x: usize, s: Seq<usize>, bound: int)
    requires
        forall|k: int| 0 <= k < s.len() ==> s[k] < bound,
        x < bound,
    ensures
        forall|k: int| 0 <= k < ins_desc(st, x, s).len() ==> ins_desc(st, x, s)[k] < bound,
        ins_desc(st, x, s).len() == s.len() + 1,
    decreases s.len(),
{
    if s.len() > 0 {
        lemma_ins_desc_same(st, x, s.drop_last(), bound);
    }
}

proof fn lemma_sort_desc_in(st: Seq<NodeV>, s: Seq<usize>, bound: int)
    requires
        forall|k: int| 0 <= k < s.len() ==> s[k] < bound,
    ensures
        forall|k: int| 0 <= k < sort_desc(st, s).len() ==> sort_desc(st, s)[k] < bound,
    decreases s.len(),
{
    if s.len() > 0 {
        lemma_sort_desc_in(st, s.drop_last(), bound);
        lemma_ins_desc_same(st, s.last(), sort_desc(st, s.drop_last()), bound);
    }
}

/// The nodes `q` come by decreasing order in `st`.
pub open spec fn by_decreasing_order(st: Seq<NodeV>, q: Seq<usize>) -> bool {
    forall|a: int, b: int| #![trigger q[a], q[b]] 0 <= a < b < q.len() ==> ord_of(st, q[a]) >= ord_of(st, q[b])
}

proof fn lemma_ins_desc_props(st: Seq<NodeV>, x: usize, s: Seq<usize>)
    requires
        by_decreasing_order(st, s),
    ensures
        ins_desc(st, x, s).len() == s.len() + 1,
        by_decreasing_order(st, ins_desc(st, x, s)),
        forall|a: int| 0 <= a < ins_desc(st, x, s).len() ==> #[trigger] ins_desc(st, x, s)[a] == x || s.contains(ins_desc(st, x, s)[a]),
        ins_desc(st, x, s).contains(x),
        forall|a: int| 0 <= a < s.len() ==> ins_desc(st, x, s).contains(#[trigger] s[a]),
    decreases s.len(),
{
    let q = ins_desc(st, x, s);
    if s.len() == 0 {
        assert(q == seq![x]);
        assert(q[0] == x);
    } else if ord_of(st, s.last()) >= ord_of(st, x) {
        assert(q == s.push(x));
        assert(q[s.len() as int] == x);
        assert forall|a: int| 0 <= a < s.len() implies q.contains(#[trigger] s[a]) by {
            assert(q[a] == s[a]);
        }
        assert forall|a: int, b: int| #![trigger q[a], q[b]] 0 <= a < b < q.len() implies ord_of(st, q[a]) >= ord_of(st, q[b]) by {
            if b == s.len() {
                if a < s.len() - 1 {
                    assert(ord_of(st, s[a]) >= ord_of(st, s[s.len() - 1]));
                }
            } else {
                assert(ord_of(st, s[a]) >= ord_of(st, s[b]));
            }
        }
        assert forall|a: int| 0 <= a < q.len() implies #[trigger] q[a] == x || s.contains(q[a]) by {
            if a < s.len() {
                assert(s[a] == q[a]);
            }
        }
    } else {
        let d = s.drop_last();
        assert forall|a: int, b: int| #![trigger d[a], d[b]] 0 <= a < b < d.len() implies ord_of(st, d[a]) >= ord_of(st, d[b]) by {
            assert(ord_of(st, s[a]) >= ord_of(st, s[b]));
        }
        lemma_ins_desc_props(st, x, d);
        let r = ins_desc(st, x, d);
        assert(q == r.push(s.last()));
        let mx = choose|m: int| 0 <= m < r.len() && r[m] == x;
        assert(q[mx] == x);
        assert forall|a: int| 0 <= a < s.len() implies q.contains(#[trigger] s[a]) by {
            if a == s.len() - 1 {
                assert(q[r.len() as int] == s[a]);
            } else {
                assert(d[a] == s[a]);
                let m = choose|m: int| 0 <= m < r.len() && r[m] == d[a];
                assert(q[m] == s[a]);
            }
        }
        assert forall|a: int| 0 <= a < r.len() implies ord_of(st, #[trigger] r[a]) >= ord_of(st, s.last()) by {
            if r[a] != x {
                let m = choose|m: int| 0 <= m < d.len() && d[m] == r[a];
                assert(ord_of(st, s[m]) >= ord_of(st, s[s.len() - 1]));
            }
        }
        assert forall|a: int, b: int| #![trigger q[a], q[b]] 0 <= a < b < q.len() implies ord_of(st, q[a]) >= ord_of(st, q[b]) by {
            if b == r.len() {
                assert(q[a] == r[a]);
            } else {
                assert(q[a] == r[a] && q[b] == r[b]);
            }
        }
        assert forall|a: int| 0 <= a < q.len() implies #[trigger] q[a] == x || s.contains(q[a]) by {
            if a < r.len() {
                assert(q[a] == r[a]);
                if r[a] != x {
                    let m = choose|m: int| 0 <= m < d.len() && d[m] == r[a];
                    assert(s[m] == r[a]);
                }
            } else {
                assert(s[s.len() - 1] == q[a]);
            }
        }
    }
}

/// Sorting by decreasing order keeps the length and the nodes, and puts
/// them by decreasing order.
proof fn lemma_sort_desc_props(st: Seq<NodeV>, s: Seq<usize>)
    ensures
        sort_desc(st, s).len() == s.len(),
        by_decreasing_order(st, sort_desc(st, s)),
        forall|a: int| 0 <= a < sort_desc(st, s).len() ==> s.contains(#[trigger] sort_desc(st, s)[a]),
        forall|a: int| 0 <= a < s.len() ==> sort_desc(st, s).contains(#[trigger] s[a]),
    decreases s.len(),
{
    if s.len() > 0 {
        let d = s.drop_last();
        lemma_sort_desc_props(st, d);
        lemma_ins_desc_props(st, s.last(), sort_desc(st, d));
        let q = sort_desc(st, s);
        assert forall|a: int| 0 <= a < s.len() implies q.contains(#[trigger] s[a]) by {
            if a < s.len() - 1 {
                assert(d[a] == s[a]);
                let m = choose|m: int| 0 <= m < sort_desc(st, d).len() && sort_desc(st, d)[m] == d[a];
                assert(q.contains(sort_desc(st, d)[m]));
            }
        }
        assert forall|a: int| 0 <= a < q.len() implies s.contains(#[trigger] q[a]) by {
            if q[a] == s.last() {
                assert(s[s.len() - 1] == q[a]);
            } else {
                let m = choose|m: int| 0 <= m < sort_desc(st, d).len() && sort_desc(st, d)[m] == q[a];
                assert(d.contains(sort_desc(st, d)[m]));
                let m2 = choose|m2: int| 0 <= m2 < d.len() && d[m2] == q[a];
                assert(s[m2] == q[a]);
            }
        }
    }
}

/// `b` has the length, the orders, the outputs and the ranking of `a`, each
/// node's inputs the same nodes as in `a` (distinct where they were), and
/// every node ranked at least `r` unchanged.
pub open spec fn kept_from(a: Seq<NodeV>, b: Seq<NodeV>, rank: Seq<nat>, r: int) -> bool {
    &&& b.len() == a.len()
    &&& ranked(b, rank)
    &&& forall|j: int| 0 <= j < a.len() ==> (#[trigger] b[j]).order == a[j].order
    &&& forall|j: int| 0 <= j < a.len() ==> (#[trigger] b[j]).output == a[j].output
    &&& forall|j: int, k: int| 0 <= j < a.len() && 0 <= k < b[j].inputs.len() ==> a[j].inputs.contains(#[trigger] b[j].inputs[k])
    &&& forall|j: int, k: int| 0 <= j < a.len() && 0 <= k < a[j].inputs.len() ==> b[j].inputs.contains(#[trigger] a[j].inputs[k])
    &&& forall|j: int| 0 <= j < a.len() && distinct(a[j].inputs) ==> distinct(#[trigger] b[j].inputs)
    &&& forall|j: int| 0 <= j < a.len() && rank[j] >= r ==> #[trigger] b[j] == a[j]
}

proof fn lemma_kept_refl(a: Seq<NodeV>, rank: Seq<nat>, r: int)
    requires
        ranked(a, rank),
    ensures
        kept_from(a, a, rank, r),
{
    assert forall|j: int, k: int| 0 <= j < a.len() && 0 <= k < a[j].inputs.len() implies a[j].inputs.contains(#[trigger] a[j].inputs[k]) by {}
}

proof fn lemma_kept_trans(a: Seq<NodeV>, b: Seq<NodeV>, c: Seq<NodeV>, rank: Seq<nat>, r1: int, r2: int)
    requires
        kept_from(a, b, rank, r1),
        kept_from(b, c, rank, r2),
        r1 <= r2,
    ensures
        kept_from(a, c, rank, r2),
{
    assert forall|j: int| 0 <= j < a.len() implies (#[trigger] c[j]).order == a[j].order && c[j].output == a[j].output by {
        assert(b[j].order == a[j].order);
        assert(c[j].order == b[j].order);
        assert(b[j].output == a[j].output);
    }
    assert forall|j: int, k: int| 0 <= j < a.len() && 0 <= k < c[j].inputs.len() implies a[j].inputs.contains(#[trigger] c[j].inputs[k]) by {
        assert(b[j].inputs.contains(c[j].inputs[k]));
        let m = choose|m: int| 0 <= m < b[j].inputs.len() && b[j].inputs[m] == c[j].inputs[k];
        assert(a[j].inputs.contains(b[j].inputs[m]));
    }
    assert forall|j: int, k: int| 0 <= j < a.len() && 0 <= k < a[j].inputs.len() implies c[j].inputs.contains(#[trigger] a[j].inputs[k]) by {
        assert(b[j].inputs.contains(a[j].inputs[k]));
        let m = choose|m: int| 0 <= m < b[j].inputs.len() && b[j].inputs[m] == a[j].inputs[k];
        assert(c[j].inputs.contains(b[j].inputs[m]));
    }
    assert forall|j: int| 0 <= j < a.len() && distinct(a[j].inputs) implies distinct(#[trigger] c[j].inputs) by {
        assert(distinct(b[j].inputs));
    }
    assert forall|j: int| 0 <= j < a.len() && rank[j] >= r2 implies #[trigger] c[j] == a[j] by {
        assert(b[j] == a[j]);
        assert(c[j] == b[j]);
    }
}

/// The first step of setting levels from `n`: `n` gets `level` and its
/// inputs sorted by decreasing order.
pub open spec fn lv_first_step(st: Seq<NodeV>, n: usize, level: u64) -> Seq<NodeV> {
    st.update(n as int, NodeV { level: level, inputs: sort_desc(st, st[n as int].inputs), ..st[n as int] })
}

proof fn lemma_lv_first_step(st: Seq<NodeV>, rank: Seq<nat>, n: usize, level: u64)
    requires
        ranked(st, rank),
        n < st.len(),
    ensures
        kept_from(st, lv_first_step(st, n, level), rank, (rank[n as int] + 1) as int),
        forall|k: int| 0 <= k < sort_desc(st, st[n as int].inputs).len() ==> #[trigger] sort_desc(st, st[n as int].inputs)[k] < st.len()
            && rank[sort_desc(st, st[n as int].inputs)[k] as int] < rank[n as int]
            && st[n as int].inputs.contains(sort_desc(st, st[n as int].inputs)[k]),
{
    let ins = st[n as int].inputs;
    let sorted = sort_desc(st, ins);
    let st1 = lv_first_step(st, n, level);
    assert(links_in(st, st[n as int]));
    lemma_sort_desc_props(st, ins);
    assert forall|k: int| 0 <= k < sorted.len() implies #[trigger] sorted[k] < st.len() && rank[sorted[k] as int] < rank[n as int]
        && ins.contains(sorted[k]) by {
        let m = choose|m: int| 0 <= m < ins.len() && ins[m] == sorted[k];
        assert(rank[st[n as int].inputs[m] as int] < rank[n as int]);
    }
    assert forall|j: int| 0 <= j < st1.len() implies links_in(st1, #[trigger] st1[j]) by {
        assert(links_in(st, st[j]));
        if j == n {
            assert forall|k: int| 0 <= k < st1[j].inputs.len() implies st1[j].inputs[k] < st1.len() by {
                assert(sorted[k] < st1.len());
            }
        }
    }
    assert forall|j: int, k: int| 0 <= j < st1.len() && 0 <= k < st1[j].inputs.len()
        implies rank[#[trigger] st1[j].inputs[k] as int] < rank[j] by {
        if j != n {
            assert(rank[st[j].inputs[k] as int] < rank[j]);
        } else {
            assert(sorted[k] == st1[j].inputs[k]);
        }
    }
    assert forall|j: int, k: int| 0 <= j < st.len() && 0 <= k < st1[j].inputs.len()
        implies st[j].inputs.contains(#[trigger] st1[j].inputs[k]) by {
        if j != n {
            assert(st[j].inputs[k] == st1[j].inputs[k]);
        } else {
            assert(sorted[k] == st1[j].inputs[k]);
        }
    }
    assert forall|j: int, k: int| 0 <= j < st.len() && 0 <= k < st[j].inputs.len()
        implies st1[j].inputs.contains(#[trigger] st[j].inputs[k]) by {
        if j != n {
            assert(st[j].inputs[k] == st1[j].inputs[k]);
        }
    }
    assert forall|j: int| 0 <= j < st.len() && distinct(st[j].inputs) implies distinct(#[trigger] st1[j].inputs) by {
        if j == n {
            lemma_sort_desc_distinct(st, ins);
        }
    }
}

proof fn lemma_set_lv_frame(st: Seq<NodeV>, rank: Seq<nat>, n: usize, level: u64, fuel: nat)
    requires
        ranked(st, rank),
        n < st.len(),
    ensures
        kept_from(st, set_lv(st, n, level, fuel), rank, (rank[n as int] + 1) as int),
    decreases 2 * fuel + 1, 0int,
{
    if fuel > 0 {
        let sorted = sort_desc(st, st[n as int].inputs);
        let st1 = lv_first_step(st, n, level);
        lemma_lv_first_step(st, rank, n, level);
        lemma_set_lv_list_frame(st1, rank, sorted, level, true, (fuel - 1) as nat, rank[n as int]);
        lemma_kept_trans(st, st1, set_lv(st, n, level, fuel), rank, (rank[n as int] + 1) as int, (rank[n as int] + 1) as int);
    } else {
        lemma_kept_refl(st, rank, (rank[n as int] + 1) as int);
    }
}

proof fn lemma_set_lv_list_frame(
    st: Seq<NodeV>,
    rank: Seq<nat>,
    ins: Seq<usize>,
    level: u64,
    first: bool,
    fuel: nat,
    r: nat,
)
    requires
        ranked(st, rank),
        forall|k: int| 0 <= k < ins.len() ==> ins[k] < st.len() && rank[ins[k] as int] < r,
    ensures
        kept_from(st, set_lv_list(st, ins, level, first, fuel), rank, r as int),
    decreases 2 * fuel + 2, ins.len(),
{
    if ins.len() > 0 {
        let lv = if first { level } else { sat_add(level, 1) };
        let st2 = set_lv(st, ins[0], lv, fuel);
        lemma_set_lv_frame(st, rank, ins[0], lv, fuel);
        let rest = ins.drop_first();
        assert forall|k: int| 0 <= k < rest.len() implies rest[k] < st2.len() && rank[rest[k] as int] < r by {
            assert(rest[k] == ins[k + 1]);
        }
        lemma_set_lv_list_frame(st2, rank, rest, level, false, fuel, r);
        lemma_kept_trans(st, st2, set_lv_list(st, ins, level, first, fuel), rank, (rank[ins[0] as int] + 1) as int, r as int);
    } else {
        lemma_kept_refl(st, rank, r as int);
    }
}

/// Following outputs from node `j` at most `f` times meets node `i`.
pub open spec fn walk_hits(st: Seq<NodeV>, j: int, i: int, f: nat) -> bool
    decreases f,
{
    if j == i {
        true
    } else if f == 0 || !(0 <= j < st.len()) {
        false
    } else {
        match st[j].output {
            Some(o) => walk_hits(st, o as int, i, (f - 1) as nat),
            None => false,
        }
    }
}

/// How many ranks node `i` stands above node `j` (0 where it does not).
pub open spec fn rank_gap(rank: Seq<nat>, j: int, i: int) -> nat {
    if rank[i] >= rank[j] { (rank[i] - rank[j]) as nat } else { 0 }
}

/// The links run one way: `rank` ranks the network, each node's output
/// ranks above it, and each input of a node has that node as its output.
pub open spec fn flows_ranked(st: Seq<NodeV>, rank: Seq<nat>) -> bool {
    &&& ranked(st, rank)
    &&& forall|j: int| 0 <= j < st.len() && (#[trigger] st[j]).output is Some
        ==> st[j].output->Some_0 < st.len() && rank[j] < rank[st[j].output->Some_0 as int]
    &&& forall|j: int, k: int| 0 <= j < st.len() && 0 <= k < st[j].inputs.len()
        ==> st[#[trigger] st[j].inputs[k] as int].output == Some(j as usize)
}

proof fn lemma_walk_mono(st: Seq<NodeV>, j: int, i: int, f: nat, f2: nat)
    requires
        walk_hits(st, j, i, f),
        f <= f2,
    ensures
        walk_hits(st, j, i, f2),
    decreases f,
{
    if j != i {
        let o = st[j].output->Some_0;
        lemma_walk_mono(st, o as int, i, (f - 1) as nat, (f2 - 1) as nat);
    }
}

proof fn lemma_walk_extend(st: Seq<NodeV>, j: int, c: int, i: usize, f: nat)
    requires
        walk_hits(st, j, c, f),
        0 <= c < st.len(),
        st[c].output == Some(i),
    ensures
        walk_hits(st, j, i as int, f + 1),
    decreases f,
{
    if j == c {
        if j != i {
            assert(walk_hits(st, i as int, i as int, f));
            assert(walk_hits(st, j, i as int, (f + 1) as nat) == walk_hits(st, i as int, i as int, f));
        }
    } else if j != i {
        let o = st[j].output->Some_0;
        lemma_walk_extend(st, o as int, c, i, (f - 1) as nat);
        assert(walk_hits(st, j, i as int, (f + 1) as nat) == walk_hits(st, o as int, i as int, f));
    }
}

proof fn lemma_walk_rank(st: Seq<NodeV>, rank: Seq<nat>, j: int, i: int, f: nat)
    requires
        flows_ranked(st, rank),
        walk_hits(st, j, i, f),
        0 <= j < st.len(),
    ensures
        0 <= i < st.len(),
        rank[j] <= rank[i],
        j != i ==> rank[j] < rank[i],
    decreases f,
{
    if j != i {
        let o = st[j].output->Some_0;
        assert(st[j].output is Some);
        lemma_walk_rank(st, rank, o as int, i, (f - 1) as nat);
    }
}

proof fn lemma_walk_same_outputs(a: Seq<NodeV>, b: Seq<NodeV>, j: int, i: int, f: nat)
    requires
        a.len() == b.len(),
        forall|x: int| 0 <= x < a.len() ==> (#[trigger] b[x]).output == a[x].output,
    ensures
        walk_hits(a, j, i, f) == walk_hits(b, j, i, f),
    decreases f,
{
    if j != i && f > 0 && 0 <= j < a.len() {
        assert(b[j].output == a[j].output);
        if a[j].output is Some {
            lemma_walk_same_outputs(a, b, a[j].output->Some_0 as int, i, (f - 1) as nat);
        }
    }
}

proof fn lemma_kept_flows(a: Seq<NodeV>, b: Seq<NodeV>, rank: Seq<nat>, r: int)
    requires
        flows_ranked(a, rank),
        kept_from(a, b, rank, r),
    ensures
        flows_ranked(b, rank),
{
    assert forall|j: int| 0 <= j < b.len() && (#[trigger] b[j]).output is Some
        implies b[j].output->Some_0 < b.len() && rank[j] < rank[b[j].output->Some_0 as int] by {
        assert(b[j].output == a[j].output);
        assert(a[j].output is Some);
    }
    assert forall|j: int, k: int| 0 <= j < b.len() && 0 <= k < b[j].inputs.len()
        implies b[#[trigger] b[j].inputs[k] as int].output == Some(j as usize) by {
        assert(a[j].inputs.contains(b[j].inputs[k]));
        let m = choose|m: int| 0 <= m < a[j].inputs.len() && a[j].inputs[m] == b[j].inputs[k];
        assert(a[a[j].inputs[m] as int].output == Some(j as usize));
        assert(links_in(a, a[j]));
        assert(b[a[j].inputs[m] as int].output == a[a[j].inputs[m] as int].output);
    }
}

/// Node `j` drains into none of the nodes `ins`.
pub open spec fn drains_into_none(st: Seq<NodeV>, rank: Seq<nat>, j: int, ins: Seq<usize>) -> bool {
    forall|k: int| 0 <= k < ins.len() ==> !walk_hits(st, j, #[trigger] ins[k] as int, rank_gap(rank, j, ins[k] as int))
}

proof fn lemma_set_lv_drain_frame(st: Seq<NodeV>, rank: Seq<nat>, i: usize, lv: u64, f: nat)
    requires
        flows_ranked(st, rank),
        i < st.len(),
    ensures
        forall|j: int| 0 <= j < st.len() && !walk_hits(st, j, i as int, rank_gap(rank, j, i as int))
            ==> #[trigger] set_lv(st, i, lv, f)[j] == st[j],
    decreases 2 * f + 1, 0int,
{
    if f > 0 {
        let ins = st[i as int].inputs;
        let sorted = sort_desc(st, ins);
        let st1 = lv_first_step(st, i, lv);
        lemma_lv_first_step(st, rank, i, lv);
        lemma_set_lv_frame(st, rank, i, lv, f);
        assert(links_in(st, st[i as int]));
        assert forall|k: int| 0 <= k < sorted.len() implies sorted[k] < st1.len() && st1[sorted[k] as int].output == Some(i) by {
            let m = choose|m: int| 0 <= m < ins.len() && ins[m] == sorted[k];
            assert(st[st[i as int].inputs[m] as int].output == Some(i));
        }
        lemma_kept_flows(st, st1, rank, (rank[i as int] + 1) as int);
        lemma_set_lv_list_drain_frame(st1, rank, sorted, lv, true, (f - 1) as nat);
        let res = set_lv(st, i, lv, f);
        assert forall|j: int| 0 <= j < st.len() && !walk_hits(st, j, i as int, rank_gap(rank, j, i as int))
            implies #[trigger] res[j] == st[j] by {
            assert(j != i);
            assert forall|k: int| 0 <= k < sorted.len() implies !walk_hits(st1, j, #[trigger] sorted[k] as int, rank_gap(rank, j, sorted[k] as int)) by {
                let c = sorted[k] as int;
                if walk_hits(st1, j, c, rank_gap(rank, j, c)) {
                    lemma_walk_same_outputs(st, st1, j, c, rank_gap(rank, j, c));
                    lemma_walk_rank(st, rank, j, c, rank_gap(rank, j, c));
                    assert(rank[c] < rank[i as int]);
                    lemma_walk_extend(st, j, c, i, rank_gap(rank, j, c));
                    lemma_walk_mono(st, j, i as int, rank_gap(rank, j, c) + 1, rank_gap(rank, j, i as int));
                }
            }
            assert(drains_into_none(st1, rank, j, sorted));
            assert(res == set_lv_list(st1, sorted, lv, true, (f - 1) as nat));
            assert(res[j] == st1[j]);
        }
    }
}

proof fn lemma_set_lv_list_drain_frame(st: Seq<NodeV>, rank: Seq<nat>, ins: Seq<usize>, lv: u64, first: bool, f: nat)
    requires
        flows_ranked(st, rank),
        forall|k: int| 0 <= k < ins.len() ==> ins[k] < st.len(),
    ensures
        forall|j: int| 0 <= j < st.len() && drains_into_none(st, rank, j, ins)
            ==> #[trigger] set_lv_list(st, ins, lv, first, f)[j] == st[j],
    decreases 2 * f + 2, ins.len(),
{
    if ins.len() > 0 {
        let lv0 = if first { lv } else { sat_add(lv, 1) };
        let st2 = set_lv(st, ins[0], lv0, f);
        lemma_set_lv_frame(st, rank, ins[0], lv0, f);
        lemma_kept_flows(st, st2, rank, (rank[ins[0] as int] + 1) as int);
        lemma_set_lv_drain_frame(st, rank, ins[0], lv0, f);
        let rest = ins.drop_first();
        lemma_set_lv_list_drain_frame(st2, rank, rest, lv, false, f);
        let res = set_lv_list(st, ins, lv, first, f);
        assert forall|j: int| 0 <= j < st.len() && drains_into_none(st, rank, j, ins)
            implies #[trigger] res[j] == st[j] by {
            assert(ins[0] == ins[0]);
            assert(!walk_hits(st, j, ins[0] as int, rank_gap(rank, j, ins[0] as int)));
            assert(st2[j] == st[j]);
            assert forall|k: int| 0 <= k < rest.len() implies !walk_hits(st2, j, #[trigger] rest[k] as int, rank_gap(rank, j, rest[k] as int)) by {
                assert(rest[k] == ins[k + 1]);
                lemma_walk_same_outputs(st, st2, j, rest[k] as int, rank_gap(rank, j, rest[k] as int));
            }
            assert(drains_into_none(st2, rank, j, rest));
            assert(res == set_lv_list(st2, rest, lv, false, f));
        }
    }
}

/// Setting levels from a node `n` of a network without cycles gives `n`
/// the level asked for and puts its inputs by decreasing order, the
/// largest first, keeping the same number of inputs, each one of them;
/// orders are unchanged.
pub proof fn law_levels_largest_input_first(st: Seq<NodeV>, rank: Seq<nat>, n: usize, level: u64, fuel: nat)
    requires
        ranked(st, rank),
        n < st.len(),
        fuel > 0,
    ensures
        ({
            let r = set_lv(st, n, level, fuel);
            &&& r.len() == st.len()
            &&& r[n as int].level == level
            &&& r[n as int].inputs.len() == st[n as int].inputs.len()
            &&& forall|a: int| 0 <= a < r[n as int].inputs.len() ==> st[n as int].inputs.contains(#[trigger] r[n as int].inputs[a])
            &&& forall|a: int, b: int| 0 <= a < b < r[n as int].inputs.len()
                ==> #[trigger] r[r[n as int].inputs[a] as int].order >= #[trigger] r[r[n as int].inputs[b] as int].order
            &&& forall|j: int| 0 <= j < st.len() ==> (#[trigger] r[j]).order == st[j].order
        }),
{
    let ins = st[n as int].inputs;
    let sorted = sort_desc(st, ins);
    let st1 = lv_first_step(st, n, level);
    lemma_lv_first_step(st, rank, n, level);
    lemma_set_lv_frame(st, rank, n, level, fuel);
    lemma_sort_desc_props(st, ins);
    lemma_set_lv_list_frame(st1, rank, sorted, level, true, (fuel - 1) as nat, rank[n as int]);
    let r = set_lv(st, n, level, fuel);
    assert(r[n as int] == st1[n as int]);
    assert forall|a: int, b: int| 0 <= a < b < r[n as int].inputs.len()
        implies #[trigger] r[r[n as int].inputs[a] as int].order >= #[trigger] r[r[n as int].inputs[b] as int].order by {
        assert(ord_of(st, sorted[a]) >= ord_of(st, sorted[b]));
    }
}

proof fn lemma_ins_desc_distinct(st: Seq<NodeV>, x: usize, s: Seq<usize>)
    requires
        by_decreasing_order(st, s),
        distinct(s),
        !s.contains(x),
    ensures
        distinct(ins_desc(st, x, s)),
    decreases s.len(),
{
    let q = ins_desc(st, x, s);
    if s.len() == 0 {
        assert(q == seq![x]);
    } else if ord_of(st, s.last()) >= ord_of(st, x) {
        assert(q == s.push(x));
        assert forall|a: int, b: int| 0 <= a < b < q.len() implies q[a] != q[b] by {
            if b == s.len() {
                assert(s[a] == q[a]);
            }
        }
    } else {
        let d = s.drop_last();
        assert forall|a: int, b: int| #![trigger d[a], d[b]] 0 <= a < b < d.len() implies ord_of(st, d[a]) >= ord_of(st, d[b]) by {
            assert(ord_of(st, s[a]) >= ord_of(st, s[b]));
        }
        assert(!d.contains(x)) by {
            if d.contains(x) {
                let m = choose|m: int| 0 <= m < d.len() && d[m] == x;
                assert(s[m] == x);
            }
        }
        lemma_ins_desc_distinct(st, x, d);
        lemma_ins_desc_props(st, x, d);
        let r = ins_desc(st, x, d);
        assert(q == r.push(s.last()));
        assert forall|a: int, b: int| 0 <= a < b < q.len() implies q[a] != q[b] by {
            if b == r.len() {
                assert(q[a] == r[a]);
                if r[a] == x {
                    assert(s[s.len() - 1] == q[b]);
                } else {
                    let m = choose|m: int| 0 <= m < d.len() && d[m] == r[a];
                    assert(s[m] == r[a]);
                    assert(s[s.len() - 1] == q[b]);
                }
            } else {
                assert(q[a] == r[a] && q[b] == r[b]);
            }
        }
    }
}

proof fn lemma_sort_desc_distinct(st: Seq<NodeV>, s: Seq<usize>)
    requires
        distinct(s),
    ensures
        distinct(sort_desc(st, s)),
    decreases s.len(),
{
    if s.len() > 0 {
        let d = s.drop_last();
        lemma_sort_desc_distinct(st, d);
        lemma_sort_desc_props(st, d);
        let sd = sort_desc(st, d);
        assert(!sd.contains(s.last())) by {
            if sd.contains(s.last()) {
                let m = choose|m: int| 0 <= m < sd.len() && sd[m] == s.last();
                assert(d.contains(sd[m]));
                let m2 = choose|m2: int| 0 <= m2 < d.len() && d[m2] == s.last();
                assert(s[m2] == s[s.len() - 1]);
            }
        }
        lemma_ins_desc_distinct(st, s.last(), sd);
    }
}

proof fn lemma_set_lv_list_levels(st: Seq<NodeV>, rank: Seq<nat>, ins: Seq<usize>, lv: u64, first: bool, f: nat, p: usize)
    requires
        flows_ranked(st, rank),
        distinct(ins),
        f > 0,
        forall|k: int| 0 <= k < ins.len() ==> ins[k] < st.len() && #[trigger] st[ins[k] as int].output == Some(p),
    ensures
        forall|k: int| 0 <= k < ins.len() ==> (#[trigger] set_lv_list(st, ins, lv, first, f)[ins[k] as int]).level
            == if k == 0 && first { lv } else { sat_add(lv, 1) },
    decreases ins.len(),
{
    if ins.len() > 0 {
        let lv0 = if first { lv } else { sat_add(lv, 1) };
        let x = ins[0];
        let st2 = set_lv(st, x, lv0, f);
        law_levels_largest_input_first(st, rank, x, lv0, f);
        lemma_set_lv_frame(st, rank, x, lv0, f);
        lemma_kept_flows(st, st2, rank, (rank[x as int] + 1) as int);
        let rest = ins.drop_first();
        assert forall|k: int| 0 <= k < rest.len() implies rest[k] < st2.len() && #[trigger] st2[rest[k] as int].output == Some(p) by {
            assert(rest[k] == ins[k + 1]);
            assert(st[ins[k + 1] as int].output == Some(p));
        }
        assert forall|a: int, b: int| 0 <= a < b < rest.len() implies rest[a] != rest[b] by {
            assert(rest[a] == ins[a + 1] && rest[b] == ins[b + 1]);
        }
        lemma_set_lv_list_levels(st2, rank, rest, lv, false, f, p);
        let res = set_lv_list(st, ins, lv, first, f);
        assert(res == set_lv_list(st2, rest, lv, false, f));
        assert(st2[x as int].output == Some(p));
        assert forall|k: int| 0 <= k < rest.len() implies !walk_hits(st2, x as int, #[trigger] rest[k] as int, rank_gap(rank, x as int, rest[k] as int)) by {
            let c = rest[k] as int;
            assert(rest[k] == ins[k + 1]);
            assert(x != ins[k + 1]);
            assert(st2[c].output == Some(p));
            if walk_hits(st2, x as int, c, rank_gap(rank, x as int, c)) {
                let g = rank_gap(rank, x as int, c);
                assert(walk_hits(st2, p as int, c, (g - 1) as nat));
                lemma_walk_rank(st2, rank, p as int, c, (g - 1) as nat);
                assert(st2[c].output is Some);
            }
        }
        assert forall|k: int| 0 <= k < rest.len() implies rest[k] < st2.len() by {
            assert(st2[rest[k] as int].output == Some(p));
        }
        lemma_set_lv_list_drain_frame(st2, rank, rest, lv, false, f);
        assert(drains_into_none(st2, rank, x as int, rest));
        assert forall|k: int| 0 <= k < ins.len() implies (#[trigger] res[ins[k] as int]).level
            == if k == 0 && first { lv } else { sat_add(lv, 1) } by {
            if k == 0 {
                assert(res[x as int] == st2[x as int]);
            } else {
                assert(ins[k] == rest[k - 1]);
                assert(res[rest[k - 1] as int].level == sat_add(lv, 1));
            }
        }
    }
}

/// Setting levels from node `n` of a network whose links run one way
/// (each input of a node has that node as its output, no input listed
/// twice): the first of `n`'s inputs, the one of largest order, continues
/// `n`'s level and each other input starts one level higher.
pub proof fn law_levels_main_stem(st: Seq<NodeV>, rank: Seq<nat>, n: usize, level: u64, fuel: nat)
    requires
        flows_ranked(st, rank),
        n < st.len(),
        distinct(st[n as int].inputs),
        fuel > 1,
    ensures
        ({
            let r = set_lv(st, n, level, fuel);
            forall|k: int| 0 <= k < r[n as int].inputs.len() ==> (#[trigger] r[r[n as int].inputs[k] as int]).level
                == if k == 0 { level } else { sat_add(level, 1) }
        }),
{
    let ins = st[n as int].inputs;
    let sorted = sort_desc(st, ins);
    let st1 = lv_first_step(st, n, level);
    lemma_lv_first_step(st, rank, n, level);
    lemma_sort_desc_distinct(st, ins);
    assert(links_in(st, st[n as int]));
    assert forall|k: int| 0 <= k < sorted.len() implies sorted[k] < st1.len() && rank[sorted[k] as int] < rank[n as int]
        && #[trigger] st1[sorted[k] as int].output == Some(n) by {
        let m = choose|m: int| 0 <= m < ins.len() && ins[m] == sorted[k];
        assert(st[st[n as int].inputs[m] as int].output == Some(n));
    }
    lemma_kept_flows(st, st1, rank, (rank[n as int] + 1) as int);
    lemma_set_lv_list_frame(st1, rank, sorted, level, true, (fuel - 1) as nat, rank[n as int]);
    lemma_set_lv_list_levels(st1, rank, sorted, level, true, (fuel - 1) as nat, n);
    let r = set_lv(st, n, level, fuel);
    assert(r == set_lv_list(st1, sorted, level, true, (fuel - 1) as nat));
    assert(r[n as int] == st1[n as int]);
}

/// The links of `st` agree both ways and run one way: ids fit in `usize`,
/// `rank` ranks the network with each output above its inputs, each input of a node has that
/// node as its output and is listed there once, and each node with an
/// output is among that output's inputs.
pub open spec fn one_way(st: Seq<NodeV>, rank: Seq<nat>) -> bool {
    &&& st.len() <= usize::MAX
    &&& flows_ranked(st, rank)
    &&& forall|j: int| 0 <= j < st.len() ==> distinct(#[trigger] st[j].inputs)
    &&& forall|j: int| 0 <= j < st.len() && (#[trigger] st[j]).output is Some
        ==> st[st[j].output->Some_0 as int].inputs.contains(j as usize)
}

proof fn lemma_kept_one_way(a: Seq<NodeV>, b: Seq<NodeV>, rank: Seq<nat>, r: int)
    requires
        one_way(a, rank),
        kept_from(a, b, rank, r),
    ensures
        one_way(b, rank),
{
    lemma_kept_flows(a, b, rank, r);
    assert forall|j: int| 0 <= j < b.len() implies distinct(#[trigger] b[j].inputs) by {
        assert(distinct(a[j].inputs));
    }
    assert forall|j: int| 0 <= j < b.len() && (#[trigger] b[j]).output is Some
        implies b[b[j].output->Some_0 as int].inputs.contains(j as usize) by {
        assert(b[j].output == a[j].output);
        assert(a[j].output is Some);
        let o = a[j].output->Some_0 as int;
        assert(a[o].inputs.contains(j as usize));
        let m = choose|m: int| 0 <= m < a[o].inputs.len() && a[o].inputs[m] == j as usize;
        assert(b[o].inputs.contains(a[o].inputs[m]));
    }
}

proof fn lemma_walk_gap(st: Seq<NodeV>, rank: Seq<nat>, j: int, i: int, f: nat)
    requires
        flows_ranked(st, rank),
        walk_hits(st, j, i, f),
    ensures
        walk_hits(st, j, i, rank_gap(rank, j, i)),
    decreases f,
{
    if j != i {
        let o = st[j].output->Some_0 as int;
        assert(st[j].output is Some);
        lemma_walk_gap(st, rank, o, i, (f - 1) as nat);
        lemma_walk_rank(st, rank, o, i, (f - 1) as nat);
        lemma_walk_mono(st, o, i, rank_gap(rank, o, i), (rank_gap(rank, j, i) - 1) as nat);
    }
}

proof fn lemma_walk_prepend(st: Seq<NodeV>, rank: Seq<nat>, c: int, j: usize, a: int)
    requires
        flows_ranked(st, rank),
        0 <= c < st.len(),
        st[c].output == Some(j),
        walk_hits(st, j as int, a, rank_gap(rank, j as int, a)),
    ensures
        walk_hits(st, c, a, rank_gap(rank, c, a)),
{
    if c != a {
        let g = rank_gap(rank, j as int, a);
        assert(walk_hits(st, c, a, g + 1) == walk_hits(st, j as int, a, g));
        lemma_walk_gap(st, rank, c, a, g + 1);
    }
}

proof fn lemma_walk_apart(st: Seq<NodeV>, rank: Seq<nat>, j: int, a: int, b: int, p: usize, fa: nat, fb: nat)
    requires
        flows_ranked(st, rank),
        walk_hits(st, j, a, fa),
        a != b,
        0 <= a < st.len(),
        0 <= b < st.len(),
        st[a].output == Some(p),
        st[b].output == Some(p),
    ensures
        !walk_hits(st, j, b, fb),
    decreases fa,
{
    assert(st[a].output is Some);
    assert(st[b].output is Some);
    if walk_hits(st, j, b, fb) {
        if j == a {
            lemma_walk_rank(st, rank, p as int, b, (fb - 1) as nat);
        } else if j == b {
            lemma_walk_rank(st, rank, p as int, a, (fa - 1) as nat);
        } else {
            let o = st[j].output->Some_0 as int;
            lemma_walk_apart(st, rank, o, a, b, p, (fa - 1) as nat, (fb - 1) as nat);
        }
    }
}

proof fn lemma_last_step(st: Seq<NodeV>, j: int, n: usize, f: nat) -> (c: int)
    requires
        walk_hits(st, j, n as int, f),
        j != n,
    ensures
        0 <= c < st.len(),
        st[c].output == Some(n),
        walk_hits(st, j, c, f),
    decreases f,
{
    let o = st[j].output->Some_0;
    if o == n {
        j
    } else {
        let c = lemma_last_step(st, o as int, n, (f - 1) as nat);
        if j != c {
            assert(walk_hits(st, j, c, f) == walk_hits(st, o as int, c, (f - 1) as nat));
        }
        c
    }
}

/// Node `j`'s inputs come by decreasing order, the first at `j`'s level and
/// each other one level higher.
pub open spec fn settled(r: Seq<NodeV>, j: int) -> bool {
    &&& by_decreasing_order(r, r[j].inputs)
    &&& forall|k: int| 0 <= k < r[j].inputs.len() ==> (#[trigger] r[r[j].inputs[k] as int]).level
        == if k == 0 { r[j].level } else { sat_add(r[j].level, 1) }
}

proof fn lemma_settled_same(a: Seq<NodeV>, b: Seq<NodeV>, j: int)
    requires
        settled(a, j),
        0 <= j < a.len(),
        a.len() == b.len(),
        b[j] == a[j],
        forall|k: int| 0 <= k < a[j].inputs.len() ==> a[j].inputs[k] < a.len() && b[#[trigger] a[j].inputs[k] as int] == a[a[j].inputs[k] as int],
    ensures
        settled(b, j),
{
    let ins = a[j].inputs;
    assert forall|x: int, y: int| #![trigger ins[x], ins[y]] 0 <= x < y < ins.len() implies ord_of(b, ins[x]) >= ord_of(b, ins[y]) by {
        assert(b[ins[x] as int] == a[ins[x] as int]);
        assert(b[ins[y] as int] == a[ins[y] as int]);
        assert(ord_of(a, ins[x]) >= ord_of(a, ins[y]));
    }
    assert forall|k: int| 0 <= k < ins.len() implies (#[trigger] b[b[j].inputs[k] as int]).level
        == if k == 0 { b[j].level } else { sat_add(b[j].level, 1) } by {
        assert(b[ins[k] as int] == a[ins[k] as int]);
    }
}

proof fn lemma_set_lv_settles(st: Seq<NodeV>, rank: Seq<nat>, n: usize, lv: u64, f: nat)
    requires
        one_way(st, rank),
        n < st.len(),
        f > rank[n as int],
    ensures
        set_lv(st, n, lv, f)[n as int].level == lv,
        forall|j: int| 0 <= j < st.len() && walk_hits(st, j, n as int, rank_gap(rank, j, n as int))
            ==> #[trigger] settled(set_lv(st, n, lv, f), j),
    decreases 2 * f + 1, 0int,
{
    let ins = st[n as int].inputs;
    let sorted = sort_desc(st, ins);
    let st1 = lv_first_step(st, n, lv);
    lemma_lv_first_step(st, rank, n, lv);
    lemma_kept_one_way(st, st1, rank, (rank[n as int] + 1) as int);
    lemma_sort_desc_props(st, ins);
    lemma_sort_desc_distinct(st, ins);
    assert(distinct(st[n as int].inputs));
    assert(links_in(st, st[n as int]));
    assert forall|k: int| 0 <= k < sorted.len() implies sorted[k] < st1.len() && rank[sorted[k] as int] < (f - 1) as nat
        && #[trigger] st1[sorted[k] as int].output == Some(n) by {
        let m = choose|m: int| 0 <= m < ins.len() && ins[m] == sorted[k];
        assert(st[st[n as int].inputs[m] as int].output == Some(n));
        assert(rank[st[n as int].inputs[m] as int] < rank[n as int]);
    }
    lemma_set_lv_list_frame(st1, rank, sorted, lv, true, (f - 1) as nat, rank[n as int]);
    lemma_set_lv_list_settles(st1, rank, sorted, lv, true, (f - 1) as nat, n);
    let r = set_lv(st, n, lv, f);
    assert(r == set_lv_list(st1, sorted, lv, true, (f - 1) as nat));
    assert(r[n as int] == st1[n as int]);
    assert forall|j: int| 0 <= j < st.len() && walk_hits(st, j, n as int, rank_gap(rank, j, n as int))
        implies #[trigger] settled(r, j) by {
        if j == n {
            assert forall|x: int, y: int| #![trigger sorted[x], sorted[y]] 0 <= x < y < sorted.len()
                implies ord_of(r, sorted[x]) >= ord_of(r, sorted[y]) by {
                assert(ord_of(st, sorted[x]) >= ord_of(st, sorted[y]));
                assert(r[sorted[x] as int].order == st1[sorted[x] as int].order);
                assert(r[sorted[y] as int].order == st1[sorted[y] as int].order);
            }
            if sorted.len() > 0 {
                assert(rank[sorted[0] as int] < rank[n as int]);
                lemma_set_lv_list_levels(st1, rank, sorted, lv, true, (f - 1) as nat, n);
            }
        } else {
            let c = lemma_last_step(st, j, n, rank_gap(rank, j, n as int));
            assert(st[n as int].inputs.contains(c as usize));
            let m = choose|m: int| 0 <= m < ins.len() && ins[m] == c as usize;
            assert(sorted.contains(ins[m]));
            let k = choose|k: int| 0 <= k < sorted.len() && sorted[k] == c as usize;
            lemma_walk_gap(st, rank, j, c, rank_gap(rank, j, n as int));
            lemma_walk_same_outputs(st, st1, j, c, rank_gap(rank, j, c));
            assert(walk_hits(st1, j, sorted[k] as int, rank_gap(rank, j, sorted[k] as int)));
        }
    }
}

proof fn lemma_set_lv_list_settles(st: Seq<NodeV>, rank: Seq<nat>, ins: Seq<usize>, lv: u64, first: bool, f: nat, p: usize)
    requires
        one_way(st, rank),
        distinct(ins),
        forall|k: int| 0 <= k < ins.len() ==> ins[k] < st.len() && rank[ins[k] as int] < f
            && #[trigger] st[ins[k] as int].output == Some(p),
    ensures
        forall|j: int, k: int| 0 <= j < st.len() && 0 <= k < ins.len()
            && #[trigger] walk_hits(st, j, ins[k] as int, rank_gap(rank, j, ins[k] as int))
            ==> settled(set_lv_list(st, ins, lv, first, f), j),
    decreases 2 * f + 2, ins.len(),
{
    if ins.len() > 0 {
        let lv0 = if first { lv } else { sat_add(lv, 1) };
        let x = ins[0];
        assert(st[ins[0] as int].output == Some(p));
        let st2 = set_lv(st, x, lv0, f);
        lemma_set_lv_settles(st, rank, x, lv0, f);
        lemma_set_lv_frame(st, rank, x, lv0, f);
        lemma_kept_one_way(st, st2, rank, (rank[x as int] + 1) as int);
        let rest = ins.drop_first();
        assert forall|k: int| 0 <= k < rest.len() implies rest[k] < st2.len() && rank[rest[k] as int] < f
            && #[trigger] st2[rest[k] as int].output == Some(p) by {
            assert(rest[k] == ins[k + 1]);
            assert(st[ins[k + 1] as int].output == Some(p));
        }
        assert forall|a: int, b: int| 0 <= a < b < rest.len() implies rest[a] != rest[b] by {
            assert(rest[a] == ins[a + 1] && rest[b] == ins[b + 1]);
        }
        assert forall|k: int| 0 <= k < rest.len() implies rest[k] < st2.len() by {
            assert(st2[rest[k] as int].output == Some(p));
        }
        assert(p < st.len() && rank[x as int] < rank[p as int]);
        assert forall|k: int| 0 <= k < rest.len() implies rest[k] < st2.len() && rank[rest[k] as int] < rank[p as int] by {
            assert(st2[rest[k] as int].output == Some(p));
            assert(st2[rest[k] as int].output is Some);
        }
        lemma_set_lv_list_settles(st2, rank, rest, lv, false, f, p);
        lemma_set_lv_list_drain_frame(st2, rank, rest, lv, false, f);
        lemma_set_lv_list_frame(st2, rank, rest, lv, false, f, rank[p as int]);
        let res = set_lv_list(st, ins, lv, first, f);
        assert(res == set_lv_list(st2, rest, lv, false, f));
        assert(st2[x as int].output == Some(p));
        assert forall|j: int, k: int| 0 <= j < st.len() && 0 <= k < ins.len()
            && #[trigger] walk_hits(st, j, ins[k] as int, rank_gap(rank, j, ins[k] as int))
            implies settled(res, j) by {
            if k > 0 {
                assert(rest[k - 1] == ins[k]);
                lemma_walk_same_outputs(st, st2, j, ins[k] as int, rank_gap(rank, j, ins[k] as int));
                assert(walk_hits(st2, j, rest[k - 1] as int, rank_gap(rank, j, rest[k - 1] as int)));
            } else {
                assert(settled(st2, j));
                lemma_walk_same_outputs(st, st2, j, x as int, rank_gap(rank, j, x as int));
                // no node draining into `x` drains into a later sibling
                assert forall|y: int| 0 <= y < st2.len() && walk_hits(st2, y, x as int, rank_gap(rank, y, x as int))
                    implies drains_into_none(st2, rank, y, rest) by {
                    assert forall|k2: int| 0 <= k2 < rest.len()
                        implies !walk_hits(st2, y, #[trigger] rest[k2] as int, rank_gap(rank, y, rest[k2] as int)) by {
                        assert(rest[k2] == ins[k2 + 1]);
                        assert(x != ins[k2 + 1]);
                        assert(st2[rest[k2] as int].output == Some(p));
                        lemma_walk_apart(st2, rank, y, x as int, rest[k2] as int, p, rank_gap(rank, y, x as int),
                            rank_gap(rank, y, rest[k2] as int));
                    }
                }
                assert(res[j] == st2[j]);
                assert forall|m: int| 0 <= m < st2[j].inputs.len() implies st2[j].inputs[m] < st2.len()
                    && res[#[trigger] st2[j].inputs[m] as int] == st2[st2[j].inputs[m] as int] by {
                    let c = st2[j].inputs[m];
                    assert(links_in(st2, st2[j]));
                    assert(st2[c as int].output == Some(j as usize));
                    lemma_walk_prepend(st2, rank, c as int, j as usize, x as int);
                    assert(res[c as int] == st2[c as int]);
                }
                lemma_settled_same(st2, res, j);
            }
        }
    }
}

/// After `set_levels`, in a network whose links agree both ways and run
/// one way, the outlet has level 0 and every node whose outputs lead to the
/// outlet has its inputs by decreasing order, the first (largest)
/// continuing its level and each other one level higher.
pub proof fn law_set_levels_main_stems(v: NetworkV, rank: Seq<nat>)
    requires
        net_wf(v),
        one_way(v.store, rank),
        v.outlet is Some,
    ensures
        ({
            let o = v.outlet->Some_0;
            let r = levels_set(v).store;
            &&& r[o as int].level == 0
            &&& forall|j: int| 0 <= j < v.store.len() && #[trigger] walk_hits(v.store, j, o as int, v.store.len())
                ==> settled(r, j)
        }),
{
    let o = v.outlet->Some_0;
    let st = v.store;
    assert(rank[o as int] < st.len());
    lemma_set_lv_settles(st, rank, o, 0, st.len());
    assert forall|j: int| 0 <= j < st.len() && #[trigger] walk_hits(st, j, o as int, st.len())
        implies settled(levels_set(v).store, j) by {
        lemma_walk_gap(st, rank, j, o as int, st.len());
    }
}



/// `b` differs from `a` at most in levels and the order of inputs, with
/// links still inside the store.
pub open spec fn same_but_levels(a: Seq<NodeV>, b: Seq<NodeV>) -> bool {
    &&& a.len() == b.len()
    &&& all_links_in(b)
    &&& forall|j: int| 0 <= j < a.len() ==> {
        &&& #[trigger] b[j].index == a[j].index
        &&& b[j].name == a[j].name
        &&& b[j].order == a[j].order
        &&& b[j].attrs == a[j].attrs
        &&& b[j].output == a[j].output
    }
}

proof fn lemma_same_but_levels_trans(a: Seq<NodeV>, b: Seq<NodeV>, c: Seq<NodeV>)
    requires
        same_but_levels(a, b),
        same_but_levels(b, c),
    ensures
        same_but_levels(a, c),
{
    assert forall|j: int| 0 <= j < a.len() implies #[trigger] c[j].index == a[j].index && c[j].name == a[j].name
        && c[j].order == a[j].order && c[j].attrs == a[j].attrs && c[j].output == a[j].output by {
        assert(b[j].index == a[j].index);
        assert(c[j].index == b[j].index);
    }
}

fn copy_ids(v: &Vec<usize>) -> (r: Vec<usize>)
    ensures
        r@ == v@,
{
    let mut r: Vec<usize> = Vec::new();
    let mut k: usize = 0;
    while k < v.len()
        invariant
            k <= v.len(),
            r@ == v@.take(k as int),
        decreases v.len() - k,
    {
        r.push(v[k]);
        assert(v@.take(k + 1) =~= v@.take(k as int).push(v@[k as int]));
        k = k + 1;
    }
    assert(v@.take(v.len() as int) =~= v@);
    r
}

fn set_lv_exec(store: &mut Vec<NodeInner>, n: usize, level: u64, fuel: usize)
    requires
        n < old(store).len(),
        all_links_in(store_view(old(store)@)),
    ensures
        store_view(final(store)@) == set_lv(store_view(old(store)@), n, level, fuel as nat),
        same_but_levels(store_view(old(store)@), store_view(final(store)@)),
    decreases 2 * fuel + 1, 0int,
{
    let ghost st0 = store_view(store@);
    if fuel == 0 {
        return;
    }
    proof {
        assert(links_in(st0, st0[n as int]));
        lemma_sort_desc_in(st0, st0[n as int].inputs, st0.len() as int);
    }
    let sorted = sort_by_order(store, store[n].inputs(), false);
    let walk = copy_ids(&sorted);
    store[n].set_level(level);
    store[n].set_inputs(sorted);
    let ghost st1 = store_view(store@);
    proof {
        assert(st1 =~= st0.update(n as int, NodeV { level: level, inputs: walk@, ..st0[n as int] }));
        assert forall|j: int| 0 <= j < st1.len() implies links_in(st1, #[trigger] st1[j]) by {
            assert(links_in(st0, st0[j]));
        }
    }
    set_lv_list_exec(store, &walk, level, true, fuel - 1);
}

fn set_lv_list_exec(store: &mut Vec<NodeInner>, ins: &Vec<usize>, level: u64, first: bool, fuel: usize)
    requires
        forall|k: int| 0 <= k < ins@.len() ==> ins@[k] < old(store).len(),
        all_links_in(store_view(old(store)@)),
    ensures
        store_view(final(store)@) == set_lv_list(store_view(old(store)@), ins@, level, first, fuel as nat),
        same_but_levels(store_view(old(store)@), store_view(final(store)@)),
    decreases 2 * fuel + 2, ins@.len(),
{
    let ghost st0 = store_view(store@);
    let mut k: usize = 0;
    let mut fst = first;
    assert(ins@.skip(0) =~= ins@);
    while k < ins.len()
        invariant
            k <= ins.len(),
            forall|k: int| 0 <= k < ins@.len() ==> ins@[k] < store@.len(),
            fst == (first && k == 0),
            same_but_levels(st0, store_view(store@)),
            set_lv_list(st0, ins@, level, first, fuel as nat)
                == set_lv_list(store_view(store@), ins@.skip(k as int), level, fst, fuel as nat),
        decreases ins.len() - k,
    {
        let lv = if fst { level } else { level.saturating_add(1) };
        let ghost sa = store_view(store@);
        set_lv_exec(store, ins[k], lv, fuel);
        proof {
            lemma_same_but_levels_trans(st0, sa, store_view(store@));
            assert(ins@.skip(k as int)[0] == ins@[k as int]);
            assert(ins@.skip(k as int).drop_first() =~= ins@.skip(k + 1));
        }
        fst = false;
        k = k + 1;
    }
    assert(ins@.skip(ins.len() as int) =~= Seq::<usize>::empty());
}

/// The network after `set_levels`.
pub open spec fn levels_set(v: NetworkV) -> NetworkV {
    match v.outlet {
        Some(o) => NetworkV { store: set_lv(v.store, o, 0, v.store.len()), ..v },
        None => v,
    }
}

impl Network {
    /// Sets the levels of the nodes from the outlet: 0 for the main stem,
    /// one more for each tributary joining it; each node's inputs are
    /// sorted by decreasing order, the largest continuing its level.
    pub fn set_levels(&mut self)
        requires
            old(self).wf(),
        ensures
            final(self).wf(),
            final(self)@ == levels_set(old(self)@),
    {
        let ghost v0 = self@;
        match self.outlet {
            Some(o) => {
                let n = self.store.len();
                proof {
                    assert(all_links_in(v0.store));
                }
                set_lv_exec(&mut self.store, o, 0, n);
                proof {
                    let v = self@;
                    assert(v =~= levels_set(v0));
                    assert forall|i: int| 0 <= i < v.nodes.len() implies #[trigger] v.store[v.nodes[i] as int].index == i by {
                        assert(v0.store[v0.nodes[i] as int].index == i);
                    }
                    assert forall|a: int, b: int| 0 <= a < b < v.store.len() implies v.store[a].name != v.store[b].name by {
                        assert(v.store[a].index == v0.store[a].index);
                        assert(v.store[b].index == v0.store[b].index);
                        assert(v0.store[a].name != v0.store[b].name);
                    }
                }
            },
            None => {},
        }
    }
}

// ---------------------------------------------------------------------------
// Paths, connections and edges.
// ---------------------------------------------------------------------------

/// Following outputs from `cur` until the node named `end`, at most `fuel`
/// times: the ids met, or the id where the walk stops.
pub open spec fn path_walk(st: Seq<NodeV>, cur: usize, end: Seq<char>, fuel: nat) -> Result<Seq<usize>, usize>
    decreases fuel,
{
    if cur >= st.len() {
        Err(cur)
    } else if st[cur as int].name == end {
        Ok(seq![cur])
    } else if fuel == 0 {
        Err(cur)
    } else {
        match st[cur as int].output {
            None => Err(cur),
            Some(o) => match path_walk(st, o, end, (fuel - 1) as nat) {
                Ok(p) => Ok(seq![cur] + p),
                Err(x) => Err(x),
            },
        }
    }
}

/// The indices of the nodes with ids `p`.
pub open spec fn indices_of(st: Seq<NodeV>, p: Seq<usize>) -> Seq<usize> {
    p.map_values(|id: usize| if id < st.len() { st[id as int].index } else { 0 })
}

/// The name of node `id`.
pub open spec fn name_of(st: Seq<NodeV>, id: usize) -> Seq<char> {
    if id < st.len() { st[id as int].name } else { Seq::empty() }
}

/// The nodes from `start` down to `end`, by index, or why there are none.
pub open spec fn path_between(v: NetworkV, start: Seq<char>, end: Seq<char>) -> Result<Seq<usize>, Seq<char>> {
    match id_of(v.store, start) {
        None => Err("Node "@ + start + " not found"@),
        Some(s) => match id_of(v.store, end) {
            None => Err("Node "@ + end + " not found"@),
            Some(e) => match path_walk(v.store, s, name_of(v.store, e), v.store.len()) {
                Ok(p) => Ok(indices_of(v.store, p)),
                Err(x) => Err("Node "@ + debug_quoted(name_of(v.store, s)) + " does not reach Node "@
                    + debug_quoted(name_of(v.store, e)) + " (path ends at "@ + debug_quoted(name_of(v.store, x)) + ")"@),
            },
        },
    }
}

/// The line drawn left of a node in the utf-8 diagram of connections.
pub open spec fn utf8_line(level: u64, par_level: u64, no_inputs: bool, no_output: bool) -> Seq<char> {
    let base = repeat("  │"@, level as nat);
    if level != par_level {
        (if base.len() > 0 { base.drop_last() } else { base }) + if no_inputs { "├──"@ } else { "├──┐"@ }
    } else if no_inputs {
        base + "  ╵"@
    } else if no_output {
        base + "  ╷"@
    } else {
        base + "  │"@
    }
}

/// The line drawn left of a node in the ascii diagram of connections.
pub open spec fn ascii_line(level: u64, par_level: u64) -> Seq<char> {
    let base = repeat("  |"@, level as nat);
    if level != par_level {
        (if base.len() > 0 { base.drop_last() } else { base }) + "|--*"@
    } else {
        base + "  *"@
    }
}

pub open spec fn repeat(s: Seq<char>, n: nat) -> Seq<char>
    decreases n,
{
    if n == 0 { Seq::empty() } else { repeat(s, (n - 1) as nat) + s }
}

/// The level of the node that node `n` flows into, or its own.
pub open spec fn par_level(st: Seq<NodeV>, n: NodeV) -> u64 {
    match n.output {
        Some(o) => if o < st.len() { st[o as int].level } else { n.level },
        None => n.level,
    }
}

/// The (index, index of output) pairs of the nodes in `nodes` that have
/// an output.
pub open spec fn edges_of(st: Seq<NodeV>, nodes: Seq<usize>) -> Seq<(usize, usize)>
    decreases nodes.len(),
{
    if nodes.len() == 0 {
        Seq::empty()
    } else {
        let rest = edges_of(st, nodes.drop_last());
        let n = st[nodes.last() as int];
        match n.output {
            Some(o) => rest.push((n.index, st[o as int].index)),
            None => rest,
        }
    }
}

fn push_repeat_str(line: &mut String, s: &str, n: u64)
    ensures
        final(line)@ == old(line)@ + repeat(s@, n as nat),
{
    let mut k: u64 = 0;
    while k < n
        invariant
            k <= n,
            line@ == old(line)@ + repeat(s@, k as nat),
        decreases n - k,
    {
        push_str(line, s);
        assert(old(line)@ + repeat(s@, (k + 1) as nat) =~= old(line)@ + repeat(s@, k as nat) + s@);
        k = k + 1;
    }
}

impl Network {
    /// The nodes from `start` down to `end` (by index), following outputs.
    pub fn nodes_path(&self, path: &StrPath) -> (r: Result<Vec<usize>, String>)
        requires
            self.wf(),
        ensures
            match (r, path_between(self@, path@.start, path@.end)) {
                (Ok(v), Ok(w)) => v@ == w,
                (Err(m), Err(w)) => m@ == w,
                _ => false,
            },
    {
        let s = match self.node_id(path.start.as_str()) {
            Some(s) => s,
            None => {
                let mut m = owned("Node ");
                push_str(&mut m, path.start.as_str());
                push_str(&mut m, " not found");
                return Err(m);
            },
        };
        let e = match self.node_id(path.end.as_str()) {
            Some(e) => e,
            None => {
                let mut m = owned("Node ");
                push_str(&mut m, path.end.as_str());
                push_str(&mut m, " not found");
                return Err(m);
            },
        };
        let ghost st = self@.store;
        let end_name = self.store[e].name();
        let n = self.store.len();
        let mut cur = s;
        let mut fuel = n;
        let mut ids: Vec<usize> = Vec::new();
        let mut out: Vec<usize> = Vec::new();
        loop
            invariant
                self.wf(),
                st == self@.store,
                cur < n,
                n == st.len(),
                end_name@ == name_of(st, e),
                e < n,
                s < n,
                id_of(st, path@.start) == Some(s),
                id_of(st, path@.end) == Some(e),
                out@ == indices_of(st, ids@),
                path_walk(st, s, end_name@, n as nat) == match path_walk(st, cur, end_name@, fuel as nat) {
                    Ok(p) => Ok(ids@ + p),
                    Err(x) => Err::<Seq<usize>, usize>(x),
                },
            decreases fuel,
        {
            proof {
                assert(links_in(st, st[cur as int]));
            }
            let ghost ids0 = ids@;
            ids.push(cur);
            out.push(self.store[cur].index());
            proof {
                assert(indices_of(st, ids@) =~= indices_of(st, ids0).push(st[cur as int].index));
            }
            if str_eq(self.store[cur].name(), end_name) {
                assert(ids0 + seq![cur] =~= ids@);
                assert(st[cur as int].name == end_name@);
                assert(path_walk(st, cur, end_name@, fuel as nat) == Ok::<Seq<usize>, usize>(seq![cur]));
                return Ok(out);
            }
            let next = if fuel == 0 { None } else { self.store[cur].output() };
            match next {
                Some(o) => {
                    proof {
                        assert(ids0 + (seq![cur] + path_walk(st, o, end_name@, (fuel - 1) as nat)->Ok_0) =~= ids@ + path_walk(st, o, end_name@, (fuel - 1) as nat)->Ok_0);
                    }
                    cur = o;
                    fuel = fuel - 1;
                },
                None => {
                    assert(path_walk(st, cur, end_name@, fuel as nat) == Err::<Seq<usize>, usize>(cur));
                    let mut m = owned("Node ");
                    push_str(&mut m, debug_str(self.store[s].name()).as_str());
                    push_str(&mut m, " does not reach Node ");
                    push_str(&mut m, debug_str(end_name).as_str());
                    push_str(&mut m, " (path ends at ");
                    push_str(&mut m, debug_str(self.store[cur].name()).as_str());
                    push_str(&mut m, ")");
                    return Err(m);
                },
            }
        }
    }

    /// For each node in order, the line drawn left of it in a diagram of
    /// the connections, with box-drawing characters.
    pub fn connections_utf8(&self) -> (r: Vec<String>)
        requires
            self.wf(),
        ensures
            r@.len() == self@.nodes.len(),
            forall|i: int| 0 <= i < r@.len() ==> {
                let n = #[trigger] self@.store[self@.nodes[i] as int];
                r@[i]@ == utf8_line(n.level, par_level(self@.store, n), n.inputs.len() == 0, n.output is None)
            },
    {
        let ghost st = self@.store;
        let mut r: Vec<String> = Vec::new();
        let mut i: usize = 0;
        while i < self.nodes.len()
            invariant
                self.wf(),
                st == self@.store,
                i <= self.nodes.len(),
                r@.len() == i,
                forall|k: int| 0 <= k < i ==> {
                    let n = #[trigger] st[self@.nodes[k] as int];
                    r@[k]@ == utf8_line(n.level, par_level(st, n), n.inputs.len() == 0, n.output is None)
                },
            decreases self.nodes.len() - i,
        {
            let node = &self.store[self.nodes[i]];
            proof {
                let id = self.nodes@[i as int];
                assert(st[id as int] == node@);
                assert(links_in(st, st[id as int]));
            }
            let level = node.level();
            let par = match node.output() {
                Some(o) => self.store[o].level(),
                None => level,
            };
            let mut line = String::new();
            if level != par {
                if level > 0 {
                    push_repeat_str(&mut line, "  │", level - 1);
                    push_str(&mut line, "  ");
                    proof {
                        reveal_strlit("  │");
                        reveal_strlit("  ");
                        assert(repeat("  │"@, level as nat) == repeat("  │"@, (level - 1) as nat) + "  │"@);
                        assert(repeat("  │"@, level as nat).drop_last() =~= line@);
                    }
                } else {
                    assert(repeat("  │"@, level as nat) =~= Seq::<char>::empty());
                }
                if node.inputs().len() == 0 {
                    push_str(&mut line, "├──");
                } else {
                    push_str(&mut line, "├──┐");
                }
            } else if node.inputs().len() == 0 {
                push_repeat_str(&mut line, "  │", level);
                push_str(&mut line, "  ╵");
            } else if node.output().is_none() {
                push_repeat_str(&mut line, "  │", level);
                push_str(&mut line, "  ╷");
            } else {
                push_repeat_str(&mut line, "  │", level);
                push_str(&mut line, "  │");
            }
            r.push(line);
            i = i + 1;
        }
        r
    }

    /// For each node in order, the line drawn left of it in an ascii
    /// diagram of the connections.
    pub fn connections_ascii(&self) -> (r: Vec<String>)
        requires
            self.wf(),
        ensures
            r@.len() == self@.nodes.len(),
            forall|i: int| 0 <= i < r@.len() ==> {
                let n = #[trigger] self@.store[self@.nodes[i] as int];
                r@[i]@ == ascii_line(n.level, par_level(self@.store, n))
            },
    {
        let ghost st = self@.store;
        let mut r: Vec<String> = Vec::new();
        let mut i: usize = 0;
        while i < self.nodes.len()
            invariant
                self.wf(),
                st == self@.store,
                i <= self.nodes.len(),
                r@.len() == i,
                forall|k: int| 0 <= k < i ==> {
                    let n = #[trigger] st[self@.nodes[k] as int];
                    r@[k]@ == ascii_line(n.level, par_level(st, n))
                },
            decreases self.nodes.len() - i,
        {
            let node = &self.store[self.nodes[i]];
            proof {
                let id = self.nodes@[i as int];
                assert(st[id as int] == node@);
                assert(links_in(st, st[id as int]));
            }
            let level = node.level();
            let par = match node.output() {
                Some(o) => self.store[o].level(),
                None => level,
            };
            let mut line = String::new();
            if level != par {
                if level > 0 {
                    push_repeat_str(&mut line, "  |", level - 1);
                    push_str(&mut line, "  ");
                    proof {
                        reveal_strlit("  |");
                        reveal_strlit("  ");
                        assert(repeat("  |"@, level as nat) == repeat("  |"@, (level - 1) as nat) + "  |"@);
                        assert(repeat("  |"@, level as nat).drop_last() =~= line@);
                    }
                } else {
                    assert(repeat("  |"@, level as nat) =~= Seq::<char>::empty());
                }
                push_str(&mut line, "|--*");
            } else {
                push_repeat_str(&mut line, "  |", level);
                push_str(&mut line, "  *");
            }
            r.push(line);
            i = i + 1;
        }
        r
    }

    /// The connections, as (index, index of its output) for each node in
    /// order that has an output.
    pub fn edges_ind(&self) -> (r: Vec<(usize, usize)>)
        requires
            self.wf(),
        ensures
            r@ == edges_of(self@.store, self@.nodes),
    {
        let ghost st = self@.store;
        let mut r: Vec<(usize, usize)> = Vec::new();
        let mut i: usize = 0;
        assert(self@.nodes.take(0) =~= Seq::<usize>::empty());
        while i < self.nodes.len()
            invariant
                self.wf(),
                st == self@.store,
                i <= self.nodes.len(),
                r@ == edges_of(st, self@.nodes.take(i as int)),
            decreases self.nodes.len() - i,
        {
            let node = &self.store[self.nodes[i]];
            proof {
                let id = self.nodes@[i as int];
                assert(st[id as int] == node@);
                assert(links_in(st, st[id as int]));
                assert(self@.nodes.take(i + 1).drop_last() =~= self@.nodes.take(i as int));
            }
            match node.output() {
                Some(o) => {
                    r.push((node.index(), self.store[o].index()));
                },
                None => {},
            }
            i = i + 1;
        }
        assert(self@.nodes.take(self.nodes.len() as int) =~= self@.nodes);
        r
    }
}

impl Network {
    /// The network's own attributes.
    pub fn attr_map(&self) -> (m: &AttrMap)
        ensures
            m@ == self@.attrs,
    {
        &self.attributes
    }

    /// The network's own attributes, to change.
    pub fn attr_map_mut(&mut self) -> (m: &mut AttrMap)
        ensures
            m@ == old(self)@.attrs,
            final(self)@ == (NetworkV { attrs: final(m)@, ..old(self)@ }),
            old(self).wf() ==> final(self).wf(),
    {
        &mut self.attributes
    }

    /// The node at place `place` of the order, to change. The network stays
    /// well formed where the node keeps its index, name and links.
    pub fn node_mut(&mut self, place: usize) -> (r: &mut NodeInner)
        requires
            old(self).wf(),
            place < old(self)@.nodes.len(),
        ensures
            r@ == old(self)@.store[old(self)@.nodes[place as int] as int],
            final(self)@ == (NetworkV {
                store: old(self)@.store.update(old(self)@.nodes[place as int] as int, final(r)@),
                ..old(self)@
            }),
            ({
                let n0 = old(self)@.store[old(self)@.nodes[place as int] as int];
                let n1 = final(r)@;
                n1.index == n0.index && n1.name == n0.name && n1.inputs == n0.inputs && n1.output == n0.output
            }) ==> final(self).wf(),
    {
        let id = self.nodes[place];
        proof {
            let v0 = self@;
            assert forall|n: NodeInner| #[trigger] store_view(self.store@.update(id as int, n)) == store_view(self.store@).update(id as int, n@) by {
                lemma_store_view_update(self.store@, id as int, n);
            }
            assert forall|n: NodeInner| ({
                let n0 = v0.store[id as int];
                n@.index == n0.index && n@.name == n0.name && n@.inputs == n0.inputs && n@.output == n0.output
            }) implies #[trigger] net_wf(NetworkV { store: v0.store.update(id as int, n@), ..v0 }) by {
                lemma_wf_node_update(v0, id as int, n@);
            }
        }
        &mut self.store[id]
    }

    /// The network attribute `name`.
    pub fn attr(&self, name: &str) -> (r: Option<&Attribute>)
        ensures
            match r {
                Some(a) => crate::attrs::lookup(self@.attrs, name@) == Some(a@),
                None => crate::attrs::lookup(self@.attrs, name@) is None,
            },
    {
        self.attributes.get(name)
    }

    /// Sets network attribute `name`, giving back the value it replaces.
    pub fn set_attr(&mut self, name: &str, val: Attribute) -> (r: Option<Attribute>)
        ensures
            final(self)@ == (NetworkV { attrs: crate::attrs::upsert(old(self)@.attrs, name@, val@), ..old(self)@ }),
            match r {
                Some(a) => crate::attrs::lookup(old(self)@.attrs, name@) == Some(a@),
                None => crate::attrs::lookup(old(self)@.attrs, name@) is None,
            },
    {
        self.attributes.insert(owned(name), val)
    }

    /// Takes network attribute `name` out, giving back its value.
    pub fn del_attr(&mut self, name: &str) -> (r: Option<Attribute>)
        ensures
            final(self)@ == (NetworkV { attrs: crate::attrs::without(old(self)@.attrs, name@), ..old(self)@ }),
            match r {
                Some(a) => crate::attrs::lookup(old(self)@.attrs, name@) == Some(a@),
                None => crate::attrs::lookup(old(self)@.attrs, name@) is None,
            },
    {
        self.attributes.remove(name)
    }

    /// The nodes, in order.
    pub fn nodes(&self) -> (r: Vec<&NodeInner>)
        requires
            self.wf(),
        ensures
            r@.len() == self@.nodes.len(),
            forall|i: int| 0 <= i < r@.len() ==> #[trigger] r@[i]@ == self@.store[self@.nodes[i] as int],
    {
        let mut r: Vec<&NodeInner> = Vec::new();
        let mut i: usize = 0;
        while i < self.nodes.len()
            invariant
                self.wf(),
                i <= self.nodes.len(),
                r@.len() == i,
                forall|j: int| 0 <= j < i ==> #[trigger] r@[j]@ == self@.store[self@.nodes[j] as int],
            decreases self.nodes.len() - i,
        {
            r.push(&self.store[self.nodes[i]]);
            i = i + 1;
        }
        r
    }

    /// The nodes, in reverse order.
    pub fn nodes_rev(&self) -> (r: Vec<&NodeInner>)
        requires
            self.wf(),
        ensures
            r@.len() == self@.nodes.len(),
            forall|i: int| 0 <= i < r@.len() ==> #[trigger] r@[i]@ == self@.store[self@.nodes[self@.nodes.len() - 1 - i] as int],
    {
        let mut r: Vec<&NodeInner> = Vec::new();
        let mut i: usize = self.nodes.len();
        while i > 0
            invariant
                self.wf(),
                i <= self.nodes.len(),
                r@.len() == self.nodes.len() - i,
                forall|j: int| 0 <= j < r@.len() ==> #[trigger] r@[j]@ == self@.store[self@.nodes[self@.nodes.len() - 1 - j] as int],
            decreases i,
        {
            i = i - 1;
            r.push(&self.store[self.nodes[i]]);
        }
        r
    }

    /// The names of the nodes, in order.
    pub fn node_names(&self) -> (r: Vec<&str>)
        requires
            self.wf(),
        ensures
            r@.len() == self@.nodes.len(),
            forall|i: int| 0 <= i < r@.len() ==> #[trigger] r@[i]@ == self@.store[self@.nodes[i] as int].name,
    {
        let mut r: Vec<&str> = Vec::new();
        let mut i: usize = 0;
        while i < self.nodes.len()
            invariant
                self.wf(),
                i <= self.nodes.len(),
                r@.len() == i,
                forall|j: int| 0 <= j < i ==> #[trigger] r@[j]@ == self@.store[self@.nodes[j] as int].name,
            decreases self.nodes.len() - i,
        {
            r.push(self.store[self.nodes[i]].name());
            i = i + 1;
        }
        r
    }

    /// The connections by node names: each node in order that has an
    /// output, with that output.
    pub fn edges_str(&self) -> (r: Vec<(&str, &str)>)
        requires
            self.wf(),
        ensures
            r@.len() == edges_of(self@.store, self@.nodes).len(),
            forall|i: int| 0 <= i < r@.len() ==> {
                let (a, b) = #[trigger] edges_of(self@.store, self@.nodes)[i];
                &&& a < self@.nodes.len() && b < self@.nodes.len()
                &&& r@[i].0@ == self@.store[self@.nodes[a as int] as int].name
                &&& r@[i].1@ == self@.store[self@.nodes[b as int] as int].name
            },
    {
        let e = self.edges_ind();
        proof {
            lemma_edges_in_range(self@.store, self@.nodes, self@.nodes);
        }
        let mut r: Vec<(&str, &str)> = Vec::new();
        let mut i: usize = 0;
        while i < e.len()
            invariant
                self.wf(),
                e@ == edges_of(self@.store, self@.nodes),
                forall|k: int| 0 <= k < e@.len() ==> (#[trigger] e@[k]).0 < self@.nodes.len() && e@[k].1 < self@.nodes.len(),
                i <= e.len(),
                r@.len() == i,
                forall|k: int| 0 <= k < i ==> {
                    let (a, b) = #[trigger] e@[k];
                    &&& r@[k].0@ == self@.store[self@.nodes[a as int] as int].name
                    &&& r@[k].1@ == self@.store[self@.nodes[b as int] as int].name
                },
            decreases e.len() - i,
        {
            let (a, b) = e[i];
            assert(e@[i as int].0 < self@.nodes.len());
            let x = self.store[self.nodes[a]].name();
            let y = self.store[self.nodes[b]].name();
            r.push((x, y));
            i = i + 1;
        }
        r
    }
}

/// The indices in the connections are places in the order.
proof fn lemma_edges_in_range(st: Seq<NodeV>, order: Seq<usize>, nodes: Seq<usize>)
    requires
        net_wf(NetworkV { store: st, nodes: order, attrs: Seq::empty(), outlet: None, ordered: false }),
        forall|i: int| 0 <= i < nodes.len() ==> #[trigger] nodes[i] < st.len(),
    ensures
        forall|k: int| 0 <= k < edges_of(st, nodes).len() ==> (#[trigger] edges_of(st, nodes)[k]).0 < order.len()
            && edges_of(st, nodes)[k].1 < order.len(),
    decreases nodes.len(),
{
    if nodes.len() > 0 {
        let rest = edges_of(st, nodes.drop_last());
        lemma_edges_in_range(st, order, nodes.drop_last());
        let id = nodes.last() as int;
        assert(links_in(st, st[id]));
        lemma_index_in_range(st, order, id);
        let r = edges_of(st, nodes);
        match st[id].output {
            Some(o) => {
                lemma_index_in_range(st, order, o as int);
                assert(r == rest.push((st[id].index, st[o as int].index)));
                assert forall|k: int| 0 <= k < r.len() implies (#[trigger] r[k]).0 < order.len() && r[k].1 < order.len() by {
                    if k < rest.len() {
                        assert(r[k] == rest[k]);
                    }
                }
            },
            None => {
                assert(r == rest);
            },
        }
    }
}

impl Network {
    /// The network attribute under a dotted name.
    pub fn attr_dot(&self, name: &str) -> (r: Result<Option<&Attribute>, String>)
        ensures
            match (r, crate::functions::dot_lookup(self@.attrs, name@, 0)) {
                (Ok(Some(a)), Ok(Some(v))) => a@ == v,
                (Ok(None), Ok(None)) => true,
                (Err(m), Err(w)) => m@ == w,
                _ => false,
            },
    {
        self.attributes.attr_dot(name)
    }

    /// Sets the network attribute under a dotted name.
    pub fn set_attr_dot(&mut self, name: &str, val: Attribute) -> (r: Result<Option<Attribute>, String>)
        ensures
            final(self)@ == (NetworkV { attrs: final(self)@.attrs, ..old(self)@ }),
            crate::functions::set_agrees(r, old(self)@.attrs, final(self)@.attrs,
                crate::functions::dot_set(old(self)@.attrs, name@, 0, val@)),
    {
        self.attributes.set_attr_dot(name, val)
    }

    /// The attribute under a dotted name at the node at place `place`.
    pub fn node_attr_dot(&self, place: usize, name: &str) -> (r: Result<Option<&Attribute>, String>)
        requires
            self.wf(),
            place < self@.nodes.len(),
        ensures
            match (r, crate::functions::dot_lookup(self@.store[self@.nodes[place as int] as int].attrs, name@, 0)) {
                (Ok(Some(a)), Ok(Some(v))) => a@ == v,
                (Ok(None), Ok(None)) => true,
                (Err(m), Err(w)) => m@ == w,
                _ => false,
            },
    {
        self.store[self.nodes[place]].attr_dot(name)
    }

    /// Sets the attribute under a dotted name at the node at place `place`.
    pub fn set_node_attr_dot(&mut self, place: usize, name: &str, val: Attribute) -> (r: Result<Option<Attribute>, String>)
        requires
            old(self).wf(),
            place < old(self)@.nodes.len(),
        ensures
            final(self).wf(),
            ({
                let id = old(self)@.nodes[place as int] as int;
                let n0 = old(self)@.store[id];
                &&& final(self)@ == (NetworkV {
                    store: old(self)@.store.update(id, NodeV { attrs: final(self)@.store[id].attrs, ..n0 }),
                    ..old(self)@
                })
                &&& crate::functions::set_agrees(r, n0.attrs, final(self)@.store[id].attrs,
                    crate::functions::dot_set(n0.attrs, name@, 0, val@))
            }),
            r is Err ==> final(self)@ == old(self)@,
    {
        let id = self.nodes[place];
        let ghost v0 = self@;
        let ghost b0 = self.store@;
        let r = self.store[id].set_attr_dot(name, val);
        proof {
            assert(self.store@ =~= b0.update(id as int, self.store@[id as int]));
            lemma_store_view_update(b0, id as int, self.store@[id as int]);
            let v = self@;
            assert(v.store =~= v0.store.update(id as int, NodeV { attrs: v.store[id as int].attrs, ..v0.store[id as int] }));
            assert forall|i: int| 0 <= i < v.nodes.len() implies #[trigger] v.store[v.nodes[i] as int].index == i by {
                assert(v0.store[v0.nodes[i] as int].index == i);
            }
            assert forall|j: int| 0 <= j < v.store.len() implies links_in(v.store, #[trigger] v.store[j]) by {
                assert(links_in(v0.store, v0.store[j]));
            }
            assert forall|a: int, b: int| 0 <= a < b < v.store.len() implies v.store[a].name != v.store[b].name by {
                assert(v0.store[a].name != v0.store[b].name);
            }
            if r is Err {
                assert(v.store =~= v0.store);
            }
        }
        r
    }
}

/// Each stored node's index is a place in the order.
proof fn lemma_index_in_range(st: Seq<NodeV>, order: Seq<usize>, j: int)
    requires
        net_wf(NetworkV { store: st, nodes: order, attrs: Seq::empty(), outlet: None, ordered: false }),
        0 <= j < st.len(),
    ensures
        st[j].index < order.len(),
{
    lemma_perm_covers(order, st.len() as int, j);
    let a = choose|a: int| 0 <= a < st.len() && order[a] == j;
    assert(st[order[a] as int].index == a);
}

// ---------------------------------------------------------------------------
// The order follows the topology.
// ---------------------------------------------------------------------------

proof fn lemma_ins_asc_contains(st: Seq<NodeV>, x: usize, s: Seq<usize>, y: usize)
    requires
        ins_asc(st, x, s).contains(y),
    ensures
        y == x || s.contains(y),
    decreases s.len(),
{
    if s.len() > 0 && !(ord_of(st, s.last()) <= ord_of(st, x)) {
        let r = ins_asc(st, x, s.drop_last());
        let k = choose|k: int| 0 <= k < r.push(s.last()).len() && r.push(s.last())[k] == y;
        if k < r.len() {
            assert(r[k] == y);
            lemma_ins_asc_contains(st, x, s.drop_last(), y);
            if s.drop_last().contains(y) {
                let m = choose|m: int| 0 <= m < s.drop_last().len() && s.drop_last()[m] == y;
                assert(s[m] == y);
            }
        } else {
            assert(s[s.len() - 1] == y);
        }
    } else if s.len() > 0 {
        let r = s.push(x);
        let k = choose|k: int| 0 <= k < r.len() && r[k] == y;
        if k < s.len() {
            assert(s[k] == y);
        }
    }
}

proof fn lemma_sort_asc_contains(st: Seq<NodeV>, s: Seq<usize>, y: usize)
    requires
        sort_asc(st, s).contains(y),
    ensures
        s.contains(y),
    decreases s.len(),
{
    if s.len() > 0 {
        lemma_ins_asc_contains(st, s.last(), sort_asc(st, s.drop_last()), y);
        if y == s.last() {
            assert(s[s.len() - 1] == y);
        } else {
            lemma_sort_asc_contains(st, s.drop_last(), y);
            let m = choose|m: int| 0 <= m < s.drop_last().len() && s.drop_last()[m] == y;
            assert(s[m] == y);
        }
    }
}

/// The node at place `k` of `s` comes after a node it is an input of.
pub open spec fn has_parent(st: Seq<NodeV>, s: Seq<usize>, k: int) -> bool {
    exists|j: int| 0 <= j < k && #[trigger] st[s[j] as int].inputs.contains(s[k])
}

/// Each node after the first comes after a node it is an input of.
pub open spec fn parents_first(st: Seq<NodeV>, s: Seq<usize>) -> bool {
    forall|k: int| 0 < k < s.len() ==> #[trigger] has_parent(st, s, k)
}

proof fn lemma_dfs_first(st: Seq<NodeV>, n: usize, fuel: nat)
    ensures
        dfs(st, n, fuel).len() > 0,
        dfs(st, n, fuel)[0] == n,
{
}

/// In a list of walks from `ins`, each node is one of `ins` or comes after
/// a node it is an input of.
pub open spec fn list_parent(st: Seq<NodeV>, ins: Seq<usize>, l: Seq<usize>, k: int) -> bool {
    ins.contains(l[k]) || has_parent(st, l, k)
}

proof fn lemma_dfs_parents(st: Seq<NodeV>, n: usize, fuel: nat)
    ensures
        parents_first(st, dfs(st, n, fuel)),
    decreases 2 * fuel + 1, 0int,
{
    let d = dfs(st, n, fuel);
    if fuel > 0 && n < st.len() {
        let sorted = sort_asc(st, st[n as int].inputs);
        let l = dfs_list(st, sorted, (fuel - 1) as nat);
        lemma_dfs_list_parents(st, sorted, (fuel - 1) as nat);
        assert(d == seq![n] + l);
        assert forall|k: int| 0 < k < d.len() implies #[trigger] has_parent(st, d, k) by {
            assert(d[k] == l[k - 1]);
            assert(list_parent(st, sorted, l, k - 1));
            if has_parent(st, l, k - 1) {
                let j = choose|j: int| 0 <= j < k - 1 && #[trigger] st[l[j] as int].inputs.contains(l[k - 1]);
                assert(d[j + 1] == l[j]);
                assert(st[d[j + 1] as int].inputs.contains(d[k]));
            } else {
                lemma_sort_asc_contains(st, st[n as int].inputs, l[k - 1]);
                assert(d[0] == n);
                assert(st[d[0] as int].inputs.contains(d[k]));
            }
        }
    } else {
        assert(d.len() == 1);
    }
}

proof fn lemma_dfs_list_parents(st: Seq<NodeV>, ins: Seq<usize>, fuel: nat)
    ensures
        forall|k: int| 0 <= k < dfs_list(st, ins, fuel).len() ==> #[trigger] list_parent(st, ins, dfs_list(st, ins, fuel), k),
    decreases 2 * fuel + 2, ins.len(),
{
    if ins.len() > 0 {
        let a = dfs_list(st, ins.drop_last(), fuel);
        let b = dfs(st, ins.last(), fuel);
        lemma_dfs_list_parents(st, ins.drop_last(), fuel);
        lemma_dfs_parents(st, ins.last(), fuel);
        lemma_dfs_first(st, ins.last(), fuel);
        let l = dfs_list(st, ins, fuel);
        assert(l == a + b);
        assert forall|k: int| 0 <= k < l.len() implies #[trigger] list_parent(st, ins, l, k) by {
            if k < a.len() {
                assert(l[k] == a[k]);
                assert(list_parent(st, ins.drop_last(), a, k));
                if ins.drop_last().contains(a[k]) {
                    let m = choose|m: int| 0 <= m < ins.drop_last().len() && ins.drop_last()[m] == a[k];
                    assert(ins[m] == a[k]);
                } else {
                    let j = choose|j: int| 0 <= j < k && #[trigger] st[a[j] as int].inputs.contains(a[k]);
                    assert(l[j] == a[j]);
                    assert(st[l[j] as int].inputs.contains(l[k]));
                }
            } else if k == a.len() {
                assert(l[k] == b[0]);
                assert(ins[ins.len() - 1] == l[k]);
            } else {
                let kb = k - a.len();
                assert(l[k] == b[kb]);
                assert(has_parent(st, b, kb));
                let j = choose|j: int| 0 <= j < kb && #[trigger] st[b[j] as int].inputs.contains(b[kb]);
                assert(l[j + a.len()] == b[j]);
                assert(st[l[j + a.len()] as int].inputs.contains(l[k]));
            }
        }
    }
}

/// Once a network is ordered, each node after the first (the outlet) comes
/// after a node it flows into (it is among that node's inputs): visiting
/// the nodes in reverse order visits inputs before the nodes they flow
/// into.
pub proof fn law_ordered_parents_first(v: NetworkV)
    requires
        net_wf(v),
    ensures
        reordered(v).ordered ==> parents_first(reordered(v).store, reordered(v).nodes),
{
    let n = v.nodes.len();
    let st1 = with_orders(v.store);
    if reordered(v).ordered && n > 0 {
        lemma_reordered_walk(v);
        let o = walk_out(st1, v.nodes[0], n);
        lemma_dfs_parents(st1, o, n);
        lemma_parents_first_same_inputs(st1, reordered(v).store, reordered(v).nodes);
    }
}

/// An ordered network's order is the walk from its outlet, and ordering
/// keeps each node's inputs.
proof fn lemma_reordered_walk(v: NetworkV)
    requires
        net_wf(v),
        reordered(v).ordered,
        v.nodes.len() > 0,
    ensures
        reordered(v).nodes == dfs(with_orders(v.store), walk_out(with_orders(v.store), v.nodes[0], v.nodes.len()), v.nodes.len()),
        reordered(v).store.len() == with_orders(v.store).len(),
        forall|k: int| 0 <= k < reordered(v).nodes.len() ==> reordered(v).nodes[k] < v.store.len(),
        forall|j: int| 0 <= j < v.store.len() ==> #[trigger] reordered(v).store[j].inputs == with_orders(v.store)[j].inputs,
{
    let st1 = with_orders(v.store);
    let n = v.nodes.len();
    let o = walk_out(st1, v.nodes[0], n);
    let new = dfs(st1, o, n);
    assert(perm_of(new, n as int));
    assert(reordered(v).nodes == new);
    assert(reordered(v).store == reindexed(st1, new));
}

proof fn lemma_parents_first_same_inputs(a: Seq<NodeV>, b: Seq<NodeV>, s: Seq<usize>)
    requires
        parents_first(a, s),
        a.len() == b.len(),
        forall|j: int| 0 <= j < a.len() ==> #[trigger] b[j].inputs == a[j].inputs,
        forall|k: int| 0 <= k < s.len() ==> s[k] < a.len(),
    ensures
        parents_first(b, s),
{
    assert forall|k: int| 0 < k < s.len() implies #[trigger] has_parent(b, s, k) by {
        assert(has_parent(a, s, k));
        let j = choose|j: int| 0 <= j < k && #[trigger] a[s[j] as int].inputs.contains(s[k]);
        assert(b[s[j] as int].inputs == a[s[j] as int].inputs);
    }
}

// ---------------------------------------------------------------------------
// Removing nodes.
// ---------------------------------------------------------------------------

/// `s` without its first `x`.
pub open spec fn remove_first(s: Seq<usize>, x: usize) -> Seq<usize>
    decreases s.len(),
{
    if s.len() == 0 {
        s
    } else if s[0] == x {
        s.drop_first()
    } else {
        seq![s[0]] + remove_first(s.drop_first(), x)
    }
}

/// The inputs `ins` of a removed node now flow into `o` (or nowhere), one
/// after another; each one joins the inputs of `o`.
pub open spec fn relink_ins(st: Seq<NodeV>, ins: Seq<usize>, o: Option<usize>) -> Seq<NodeV>
    decreases ins.len(),
{
    if ins.len() == 0 {
        st
    } else {
        let st1 = relink_ins(st, ins.drop_last(), o);
        let i = ins.last() as int;
        let st2 = st1.update(i, NodeV { output: o, ..st1[i] });
        match o {
            Some(oo) => st2.update(oo as int, NodeV { inputs: st2[oo as int].inputs.push(ins.last()), ..st2[oo as int] }),
            None => st2,
        }
    }
}

/// The store after node `x` leaves the links: its output loses it as an
/// input and gains its inputs, which flow into its output instead (or
/// nowhere, where it had none).
pub open spec fn relinked(st: Seq<NodeV>, x: usize) -> Seq<NodeV> {
    let n = st[x as int];
    match n.output {
        Some(o) => relink_ins(
            st.update(o as int, NodeV { inputs: remove_first(st[o as int].inputs, x), ..st[o as int] }),
            n.inputs,
            Some(o),
        ),
        None => relink_ins(st, n.inputs, None),
    }
}

/// An id after node `x` is taken out and node `last` takes its id.
pub open spec fn moved_id(y: usize, x: usize, last: usize) -> usize {
    if y == last { x } else { y }
}

/// A link after node `x` is taken out: a link to `x` is dropped.
pub open spec fn fix_out(o: Option<usize>, x: usize, last: usize) -> Option<usize> {
    match o {
        Some(y) => if y == x { None } else { Some(moved_id(y, x, last)) },
        None => None,
    }
}

/// Inputs after node `x` is taken out.
pub open spec fn fix_ins(s: Seq<usize>, x: usize, last: usize) -> Seq<usize>
    decreases s.len(),
{
    if s.len() == 0 {
        s
    } else {
        let r = fix_ins(s.drop_last(), x, last);
        if s.last() == x { r } else { r.push(moved_id(s.last(), x, last)) }
    }
}

/// The store without node `x`: the last node takes its id, and links are
/// renamed to match.
pub open spec fn compacted(st: Seq<NodeV>, x: usize) -> Seq<NodeV> {
    let last = (st.len() - 1) as usize;
    let moved = st.update(x as int, st.last()).drop_last();
    Seq::new(moved.len(), |j: int| NodeV {
        inputs: fix_ins(moved[j].inputs, x, last),
        output: fix_out(moved[j].output, x, last),
        ..moved[j]
    })
}

/// The network after the node at place `p` is removed: it leaves the
/// links and the order, and the rest is indexed again.
pub open spec fn removed(v: NetworkV, p: int) -> NetworkV {
    let x = v.nodes[p];
    let last = (v.store.len() - 1) as usize;
    let st = compacted(relinked(v.store, x), x);
    let order = v.nodes.remove(p).map_values(|y: usize| moved_id(y, x, last));
    NetworkV { store: reindexed(st, order), nodes: order, outlet: fix_out(v.outlet, x, last), ..v }
}

proof fn lemma_remove_first(s: Seq<usize>, x: usize, k: int)
    requires
        0 <= k < s.len(),
        s[k] == x,
        forall|j: int| 0 <= j < k ==> s[j] != x,
    ensures
        remove_first(s, x) == s.remove(k),
    decreases k,
{
    if k > 0 {
        lemma_remove_first(s.drop_first(), x, k - 1);
        assert(s.drop_first().remove(k - 1) =~= s.remove(k).drop_first());
        assert(seq![s[0]] + s.remove(k).drop_first() =~= s.remove(k));
    } else {
        assert(s.drop_first() =~= s.remove(0));
    }
}

proof fn lemma_relink_ins(st: Seq<NodeV>, ins: Seq<usize>, o: Option<usize>)
    requires
        forall|k: int| 0 <= k < ins.len() ==> ins[k] < st.len(),
        o matches Some(oo) ==> oo < st.len(),
    ensures
        relink_ins(st, ins, o).len() == st.len(),
        forall|j: int| 0 <= j < st.len() ==> {
            let n = #[trigger] relink_ins(st, ins, o)[j];
            &&& n.index == st[j].index
            &&& n.name == st[j].name
            &&& n.level == st[j].level
            &&& n.order == st[j].order
            &&& n.attrs == st[j].attrs
        },
        all_links_in(st) ==> all_links_in(relink_ins(st, ins, o)),
    decreases ins.len(),
{
    if ins.len() > 0 {
        lemma_relink_ins(st, ins.drop_last(), o);
        let st1 = relink_ins(st, ins.drop_last(), o);
        let i = ins.last() as int;
        assert(ins.last() == ins[ins.len() - 1]);
        if all_links_in(st) {
            let st2 = st1.update(i, NodeV { output: o, ..st1[i] });
            assert(all_links_in(st2)) by {
                assert forall|j: int| 0 <= j < st2.len() implies links_in(st2, #[trigger] st2[j]) by {
                    assert(links_in(st1, st1[j]));
                }
            }
            match o {
                Some(oo) => {
                    let st3 = st2.update(oo as int, NodeV { inputs: st2[oo as int].inputs.push(ins.last()), ..st2[oo as int] });
                    assert forall|j: int| 0 <= j < st3.len() implies links_in(st3, #[trigger] st3[j]) by {
                        assert(links_in(st2, st2[j]));
                    }
                },
                None => {},
            }
        }
    }
}

proof fn lemma_fix_ins(s: Seq<usize>, x: usize, last: usize)
    requires
        forall|k: int| 0 <= k < s.len() ==> s[k] <= last,
        x <= last,
    ensures
        forall|k: int| 0 <= k < fix_ins(s, x, last).len() ==> #[trigger] fix_ins(s, x, last)[k] < last,
    decreases s.len(),
{
    if s.len() > 0 {
        lemma_fix_ins(s.drop_last(), x, last);
        let r = fix_ins(s.drop_last(), x, last);
        assert(s.last() == s[s.len() - 1]);
        if s.last() != x {
            let m = moved_id(s.last(), x, last);
            assert(m < last);
            assert forall|k: int| 0 <= k < r.push(m).len() implies #[trigger] r.push(m)[k] < last by {
                if k < r.len() {
                    assert(r.push(m)[k] == r[k]);
                }
            }
        }
    }
}

/// The ids of a node's inputs, copied.
fn copy_inputs(n: &NodeInner) -> (r: Vec<usize>)
    ensures
        r@ == n@.inputs,
{
    let mut r: Vec<usize> = Vec::new();
    let mut k: usize = 0;
    while k < n.inputs().len()
        invariant
            k <= n@.inputs.len(),
            r@ == n@.inputs.take(k as int),
        decreases n@.inputs.len() - k,
    {
        r.push(n.inputs()[k]);
        assert(r@ =~= n@.inputs.take(k + 1));
        k = k + 1;
    }
    assert(r@ =~= n@.inputs);
    r
}

/// Inputs after node `x` is taken out (see `fix_ins`).
fn fix_ins_exec(v: &Vec<usize>, x: usize, last: usize) -> (r: Vec<usize>)
    ensures
        r@ == fix_ins(v@, x, last),
{
    let mut r: Vec<usize> = Vec::new();
    let mut k: usize = 0;
    while k < v.len()
        invariant
            k <= v.len(),
            r@ == fix_ins(v@.take(k as int), x, last),
        decreases v.len() - k,
    {
        proof {
            assert(v@.take(k + 1).drop_last() =~= v@.take(k as int));
            assert(v@.take(k + 1).last() == v@[k as int]);
        }
        let y = v[k];
        if y != x {
            r.push(if y == last { x } else { y });
        }
        k = k + 1;
    }
    assert(v@.take(k as int) =~= v@);
    r
}

/// Changing a node's attributes, level or order keeps the network well formed.
proof fn lemma_wf_node_update(v: NetworkV, id: int, n: NodeV)
    requires
        net_wf(v),
        0 <= id < v.store.len(),
        n.index == v.store[id].index,
        n.name == v.store[id].name,
        n.inputs == v.store[id].inputs,
        n.output == v.store[id].output,
    ensures
        net_wf(NetworkV { store: v.store.update(id, n), ..v }),
{
    let w = NetworkV { store: v.store.update(id, n), ..v };
    assert forall|i: int| 0 <= i < w.nodes.len() implies #[trigger] w.store[w.nodes[i] as int].index == i by {
        assert(v.store[v.nodes[i] as int].index == i);
    }
    assert forall|j: int| 0 <= j < w.store.len() implies links_in(w.store, #[trigger] w.store[j]) by {
        assert(links_in(v.store, v.store[j]));
    }
    assert forall|a: int, b: int| 0 <= a < b < w.store.len() implies w.store[a].name != w.store[b].name by {
        assert(v.store[a].name != v.store[b].name);
    }
}

proof fn lemma_store_view_update(s: Seq<NodeInner>, i: int, n: NodeInner)
    requires
        0 <= i < s.len(),
    ensures
        store_view(s.update(i, n)) == store_view(s).update(i, n@),
{
    assert(store_view(s.update(i, n)) =~= store_view(s).update(i, n@));
}

impl Network {
    /// Removes the node at place `ind` of the order (see `removed`): its
    /// inputs flow into its output instead, and the rest keep their order.
    /// The removed node must be among the inputs of its output.
    #[verifier::rlimit(50)]
    pub fn remove_node_single(&mut self, ind: usize)
        requires
            old(self).wf(),
            ind < old(self)@.nodes.len(),
            old(self)@.store[old(self)@.nodes[ind as int] as int].output matches Some(o)
                ==> old(self)@.store[o as int].inputs.contains(old(self)@.nodes[ind as int]),
        ensures
            final(self).wf(),
            final(self)@ == removed(old(self)@, ind as int),
    {
        let ghost v0 = self@;
        let ghost st0 = v0.store;
        let x = self.nodes[ind];
        proof {
            assert(links_in(st0, st0[x as int]));
        }
        let ins = copy_inputs(&self.store[x]);
        let out = self.store[x].output();
        // the removed node leaves the inputs of its output
        let ghost st_a: Seq<NodeV> = match out {
            Some(o) => st0.update(o as int, NodeV { inputs: remove_first(st0[o as int].inputs, x), ..st0[o as int] }),
            None => st0,
        };
        match out {
            Some(o) => {
                let mut oins = copy_inputs(&self.store[o]);
                let ghost oi = oins@;
                let mut pos: usize = 0;
                while pos < oins.len() && oins[pos] != x
                    invariant
                        oins@ == oi,
                        oi.contains(x),
                        pos <= oi.len(),
                        forall|j: int| 0 <= j < pos ==> oi[j] != x,
                    decreases oi.len() - pos,
                {
                    pos = pos + 1;
                }
                assert(pos < oi.len()) by {
                    if pos >= oi.len() {
                        let w = choose|j: int| 0 <= j < oi.len() && oi[j] == x;
                        assert(oi[w] != x);
                    }
                }
                proof {
                    lemma_remove_first(oi, x, pos as int);
                }
                oins.remove(pos);
                let ghost before = self.store@;
                self.store[o].set_inputs(oins);
                proof {
                    lemma_store_view_update(before, o as int, self.store@[o as int]);
                    assert(self.store@ =~= before.update(o as int, self.store@[o as int]));
                }
            },
            None => {},
        }
        assert(store_view(self.store@) == st_a);
        // its inputs flow into its output
        let mut k: usize = 0;
        assert(ins@.take(0) =~= Seq::<usize>::empty());
        while k < ins.len()
            invariant
                k <= ins.len(),
                ins@ == st0[x as int].inputs,
                forall|q: int| 0 <= q < ins@.len() ==> ins@[q] < st0.len(),
                out == st0[x as int].output,
                out matches Some(o) ==> o < st0.len(),
                st_a.len() == st0.len(),
                store_view(self.store@) == relink_ins(st_a, ins@.take(k as int), out),
                self.nodes@ == v0.nodes,
                self@.attrs == v0.attrs,
                self@.outlet == v0.outlet,
                self@.ordered == v0.ordered,
            decreases ins.len() - k,
        {
            proof {
                lemma_relink_ins(st_a, ins@.take(k as int), out);
                assert(ins@.take(k + 1).drop_last() =~= ins@.take(k as int));
                assert(ins@.take(k + 1).last() == ins@[k as int]);
            }
            let i = ins[k];
            let ghost b0 = self.store@;
            match out {
                Some(o) => {
                    self.store[i].set_output(o);
                    proof {
                        lemma_store_view_update(b0, i as int, self.store@[i as int]);
                        assert(self.store@ =~= b0.update(i as int, self.store@[i as int]));
                    }
                    let ghost b1 = self.store@;
                    self.store[o].add_input(i);
                    proof {
                        lemma_store_view_update(b1, o as int, self.store@[o as int]);
                        assert(self.store@ =~= b1.update(o as int, self.store@[o as int]));
                    }
                },
                None => {
                    self.store[i].unset_output();
                    proof {
                        lemma_store_view_update(b0, i as int, self.store@[i as int]);
                        assert(self.store@ =~= b0.update(i as int, self.store@[i as int]));
                    }
                },
            }
            k = k + 1;
        }
        let ghost st1 = relinked(st0, x);
        proof {
            assert(ins@.take(k as int) =~= ins@);
            assert(store_view(self.store@) == st1);
            assert(all_links_in(st_a)) by {
                assert forall|j: int| 0 <= j < st_a.len() implies links_in(st_a, #[trigger] st_a[j]) by {
                    assert(links_in(st0, st0[j]));
                    match out {
                        Some(o) => {
                            if j == o {
                                let oi = st0[o as int].inputs;
                                let w = choose|q: int| 0 <= q < oi.len() && oi[q] == x;
                                lemma_first_x(oi, x, w);
                                let p = choose|q: int| 0 <= q < oi.len() && oi[q] == x && forall|r: int| 0 <= r < q ==> oi[r] != x;
                                lemma_remove_first(oi, x, p);
                                assert forall|q: int| 0 <= q < st_a[j].inputs.len() implies st_a[j].inputs[q] < st_a.len() by {
                                    if q < p {
                                        assert(st_a[j].inputs[q] == oi[q]);
                                    } else {
                                        assert(st_a[j].inputs[q] == oi[q + 1]);
                                    }
                                }
                            }
                        },
                        None => {},
                    }
                }
            }
            lemma_relink_ins(st_a, ins@, out);
        }
        // the last node takes the removed node's id
        let last = self.store.len() - 1;
        let ghost pre = self.store@;
        let _gone = self.store.swap_remove(x);
        let ghost moved = st1.update(x as int, st1.last()).drop_last();
        proof {
            assert(store_view(self.store@) =~= moved);
        }
        let n2 = self.store.len();
        let mut j: usize = 0;
        while j < n2
            invariant
                n2 == self.store@.len(),
                n2 == moved.len(),
                last == n2,
                x <= last,
                j <= n2,
                all_links_in(st1),
                st1.len() == n2 + 1,
                moved == st1.update(x as int, st1.last()).drop_last(),
                forall|q: int| 0 <= q < j ==> #[trigger] self.store@[q]@ == compacted(st1, x)[q],
                forall|q: int| j <= q < n2 ==> #[trigger] self.store@[q]@ == moved[q],
                self.nodes@ == v0.nodes,
                self@.attrs == v0.attrs,
                self@.outlet == v0.outlet,
                self@.ordered == v0.ordered,
            decreases n2 - j,
        {
            let fixed = fix_ins_exec(self.store[j].inputs(), x, last);
            let ghost b0 = self.store@;
            self.store[j].set_inputs(fixed);
            assert(self.store@ =~= b0.update(j as int, self.store@[j as int]));
            match self.store[j].output() {
                Some(y) => {
                    if y == x {
                        let ghost b1 = self.store@;
                        self.store[j].unset_output();
                        assert(self.store@ =~= b1.update(j as int, self.store@[j as int]));
                    } else if y == last {
                        let ghost b1 = self.store@;
                        self.store[j].set_output(x);
                        assert(self.store@ =~= b1.update(j as int, self.store@[j as int]));
                    }
                },
                None => {},
            }
            j = j + 1;
        }
        let ghost st2 = compacted(st1, x);
        proof {
            assert(store_view(self.store@) =~= st2);
        }
        // the order without the removed node, renamed
        let mut order: Vec<usize> = Vec::new();
        let mut q: usize = 0;
        while q < self.nodes.len()
            invariant
                self.nodes@ == v0.nodes,
                ind < v0.nodes.len(),
                q <= v0.nodes.len(),
                order@ == (if q <= ind { v0.nodes.take(q as int) } else { v0.nodes.take(q as int).remove(ind as int) })
                    .map_values(|y: usize| moved_id(y, x, last)),
            decreases v0.nodes.len() - q,
        {
            let y = self.nodes[q];
            let ghost o0 = order@;
            if q != ind {
                order.push(if y == last { x } else { y });
            }
            proof {
                if q < ind {
                    assert(v0.nodes.take(q + 1) =~= v0.nodes.take(q as int).push(y));
                    assert(order@ =~= v0.nodes.take(q + 1).map_values(|y: usize| moved_id(y, x, last)));
                } else if q == ind {
                    assert(v0.nodes.take(q + 1).remove(ind as int) =~= v0.nodes.take(q as int));
                } else {
                    assert(v0.nodes.take(q + 1).remove(ind as int) =~= v0.nodes.take(q as int).remove(ind as int).push(y));
                    assert(order@ =~= v0.nodes.take(q + 1).remove(ind as int).map_values(|y: usize| moved_id(y, x, last)));
                }
            }
            q = q + 1;
        }
        let ghost order2 = v0.nodes.remove(ind as int).map_values(|y: usize| moved_id(y, x, last));
        proof {
            assert(v0.nodes.take(q as int) =~= v0.nodes);
            assert(order@ =~= order2);
        }
        self.nodes = order;
        self.outlet = match self.outlet {
            Some(y) => if y == x { None } else if y == last { Some(x) } else { Some(y) },
            None => None,
        };
        proof {
            lemma_removed_wf(v0, ind as int);
        }
        self.reindex();
    }

    /// Removes the node at place `ind` (see `remove_node_single`), then
    /// orders the network and sets the levels again.
    pub fn remove_node(&mut self, ind: usize)
        requires
            old(self).wf(),
            ind < old(self)@.nodes.len(),
            old(self)@.store[old(self)@.nodes[ind as int] as int].output matches Some(o)
                ==> old(self)@.store[o as int].inputs.contains(old(self)@.nodes[ind as int]),
        ensures
            final(self).wf(),
            final(self)@ == levels_set(reordered(removed(old(self)@, ind as int))),
    {
        self.remove_node_single(ind);
        self.reorder();
        self.set_levels();
    }
}

/// The first `x` in `s` is at some place.
proof fn lemma_first_x(s: Seq<usize>, x: usize, w: int)
    requires
        0 <= w < s.len(),
        s[w] == x,
    ensures
        exists|q: int| 0 <= q < s.len() && s[q] == x && forall|r: int| 0 <= r < q ==> s[r] != x,
    decreases w,
{
    if exists|r: int| 0 <= r < w && s[r] == x {
        let r = choose|r: int| 0 <= r < w && s[r] == x;
        lemma_first_x(s, x, r);
    } else {
        assert(forall|r: int| 0 <= r < w ==> s[r] != x);
    }
}

/// The store and order left after a removal meet what `reindex` needs.
proof fn lemma_removed_wf(v: NetworkV, p: int)
    requires
        net_wf(v),
        v.store.len() <= usize::MAX,
        0 <= p < v.nodes.len(),
        all_links_in(relinked(v.store, v.nodes[p])),
        relinked(v.store, v.nodes[p]).len() == v.store.len(),
        forall|j: int| 0 <= j < v.store.len() ==> #[trigger] relinked(v.store, v.nodes[p])[j].name == v.store[j].name,
    ensures
        ({
            let x = v.nodes[p];
            let last = (v.store.len() - 1) as usize;
            let st = compacted(relinked(v.store, x), x);
            let order = v.nodes.remove(p).map_values(|y: usize| moved_id(y, x, last));
            &&& perm_of(order, st.len() as int)
            &&& all_links_in(st)
            &&& forall|a: int, b: int| 0 <= a < b < st.len() ==> st[a].name != st[b].name
            &&& fix_out(v.outlet, x, last) matches Some(o) ==> o < st.len()
        }),
{
    let x = v.nodes[p];
    let n = v.store.len();
    let last = (n - 1) as usize;
    let st1 = relinked(v.store, x);
    let st = compacted(st1, x);
    let moved = st1.update(x as int, st1.last()).drop_last();
    let order = v.nodes.remove(p).map_values(|y: usize| moved_id(y, x, last));
    assert(x < n);
    assert(n >= 1);
    assert(st1.len() == n);
    assert(moved.len() == n - 1);
    assert(st.len() == moved.len());
    assert(st.len() == last);
    // the order
    assert forall|k: int| 0 <= k < order.len() implies order[k] < last by {
        let y = v.nodes.remove(p)[k];
        let kk = if k < p { k } else { k + 1 };
        assert(y == v.nodes[kk]);
        assert(kk != p);
        assert(v.nodes[kk] != v.nodes[p]) by {
            if kk < p {
                assert(distinct(v.nodes));
            } else {
                assert(distinct(v.nodes));
            }
        }
    }
    assert forall|a: int, b: int| 0 <= a < b < order.len() implies order[a] != order[b] by {
        let aa = if a < p { a } else { a + 1 };
        let bb = if b < p { b } else { b + 1 };
        assert(v.nodes.remove(p)[a] == v.nodes[aa]);
        assert(v.nodes.remove(p)[b] == v.nodes[bb]);
        assert(v.nodes[aa] != v.nodes[bb]);
        assert(v.nodes[aa] != x && v.nodes[bb] != x);
    }
    // the links
    assert forall|j: int| 0 <= j < st.len() implies links_in(st, #[trigger] st[j]) by {
        let jj = if j == x { last as int } else { j };
        assert(moved[j] == st1[jj]);
        assert(links_in(st1, st1[jj]));
        lemma_fix_ins(st1[jj].inputs, x, last);
    }
    // the names
    assert forall|a: int, b: int| 0 <= a < b < st.len() implies st[a].name != st[b].name by {
        let aa = if a == x { last as int } else { a };
        let bb = if b == x { last as int } else { b };
        assert(st[a].name == v.store[aa].name);
        assert(st[b].name == v.store[bb].name);
        if aa < bb {
            assert(v.store[aa].name != v.store[bb].name);
        } else {
            assert(v.store[bb].name != v.store[aa].name);
        }
    }
}

proof fn lemma_id_of_found(st: Seq<NodeV>, name: Seq<char>, j: int)
    requires
        0 <= j < st.len(),
        st[j].name == name,
        forall|a: int, b: int| 0 <= a < b < st.len() ==> st[a].name != st[b].name,
    ensures
        id_of(st, name) == Some(j as usize),
{
    let w = choose|k: int| 0 <= k < st.len() && #[trigger] st[k].name == name;
    if w != j {
        if w < j {
            assert(st[w].name != st[j].name);
        } else {
            assert(st[j].name != st[w].name);
        }
    }
}

impl Network {
    /// Makes node `a` flow into node `b` (by id).
    fn link(&mut self, a: usize, b: usize)
        requires
            old(self).wf(),
            a < old(self)@.store.len(),
            b < old(self)@.store.len(),
        ensures
            final(self).wf(),
            final(self)@ == with_link(old(self)@, a, b),
    {
        let ghost v0 = self@;
        self.store[a].set_output(b);
        self.store[b].add_input(a);
        proof {
            let v = self@;
            assert(v.store =~= with_link(v0, a, b).store);
            assert forall|i: int| 0 <= i < v.nodes.len() implies #[trigger] v.store[v.nodes[i] as int].index == i by {
                assert(v0.store[v0.nodes[i] as int].index == i);
            }
            assert forall|j: int| 0 <= j < v.store.len() implies links_in(v.store, #[trigger] v.store[j]) by {
                assert(links_in(v0.store, v0.store[j]));
            }
            assert forall|x: int, y: int| 0 <= x < y < v.store.len() implies v.store[x].name != v.store[y].name by {
                assert(v0.store[x].name != v0.store[y].name);
            }
        }
    }

    /// Makes the node at place `input` of the order flow into the node at
    /// place `output`.
    pub fn connect(&mut self, input: usize, output: usize)
        requires
            old(self).wf(),
            input < old(self)@.nodes.len(),
            output < old(self)@.nodes.len(),
        ensures
            final(self).wf(),
            final(self)@ == with_link(old(self)@, old(self)@.nodes[input as int], old(self)@.nodes[output as int]),
    {
        let a = self.nodes[input];
        let b = self.nodes[output];
        self.link(a, b);
    }

    /// The id of the node named `name`, added at the end if there is none.
    fn ensure_node(&mut self, name: &str) -> (id: usize)
        requires
            old(self).wf(),
            old(self)@.nodes.len() < usize::MAX,
        ensures
            final(self).wf(),
            final(self)@ == with_name(old(self)@, name@),
            id_of(final(self)@.store, name@) == Some(id),
            id < final(self)@.store.len(),
    {
        match self.node_id(name) {
            Some(j) => j,
            None => {
                let id = self.store.len();
                self.insert_node_by_name(name);
                proof {
                    lemma_id_of_found(self@.store, name@, id as int);
                }
                id
            },
        }
    }

    /// The network of the connections `paths` (one node flows into
    /// another), ordered from its outlet and with the levels of its
    /// tributaries set.
    #[verifier::rlimit(40)]
    pub fn from_paths(paths: &Vec<StrPath>) -> (n: Self)
        requires
            paths@.len() < usize::MAX / 2,
        ensures
            n.wf(),
            n@ == levels_set(reordered(linked(path_views(paths@)))),
    {
        let mut net = Network::new();
        let mut k: usize = 0;
        assert(path_views(paths@).take(0) =~= Seq::<StrPathV>::empty());
        assert(net@ == linked(Seq::<StrPathV>::empty()));
        while k < paths.len()
            invariant
                k <= paths.len(),
                paths@.len() < usize::MAX / 2,
                net.wf(),
                net@ == linked(path_views(paths@).take(k as int)),
                net@.nodes.len() <= 2 * k,
            decreases paths.len() - k,
        {
            let a = net.ensure_node(paths[k].start.as_str());
            let b = net.ensure_node(paths[k].end.as_str());
            proof {
                assert(path_views(paths@).take(k + 1).drop_last() =~= path_views(paths@).take(k as int));
                assert(path_views(paths@).take(k + 1).last() == paths@[k as int]@);
            }
            net.link(a, b);
            k = k + 1;
        }
        assert(path_views(paths@).take(paths.len() as int) =~= path_views(paths@));
        net.reorder();
        net.set_levels();
        net
    }
}

// ---------------------------------------------------------------------------
// The nodes a propagation visits.
// ---------------------------------------------------------------------------

/// The attributes of the node at place `i`.
pub open spec fn attrs_at(v: NetworkV, i: int) -> Seq<(Seq<char>, Val)> {
    v.store[v.nodes[i] as int].attrs
}

/// The places below `k` whose nodes satisfy the condition.
pub open spec fn cond_places(v: NetworkV, c: CondV, k: int) -> Seq<usize>
    decreases k,
{
    if k <= 0 {
        Seq::empty()
    } else {
        let rest = cond_places(v, c, k - 1);
        if check_spec(attrs_at(v, k - 1), c) { rest.push((k - 1) as usize) } else { rest }
    }
}

/// The places below `k` whose nodes satisfy the condition, strictly; the
/// first error stops.
pub open spec fn strict_places(v: NetworkV, c: CondV, sup: bool, k: int) -> Result<Seq<usize>, Seq<char>>
    decreases k,
{
    if k <= 0 {
        Ok(Seq::empty())
    } else {
        match strict_places(v, c, sup, k - 1) {
            Err(e) => Err(e),
            Ok(rest) => match check_strict_spec(attrs_at(v, k - 1), c, sup) {
                Err(e) => Err(e),
                Ok(b) => Ok(if b { rest.push((k - 1) as usize) } else { rest }),
            },
        }
    }
}

/// The places of the nodes named by the first `k` names; the first name
/// that is not a node is an error.
pub open spec fn named_places(v: NetworkV, names: Seq<Seq<char>>, k: int) -> Result<Seq<usize>, Seq<char>>
    decreases k,
{
    if k <= 0 {
        Ok(Seq::empty())
    } else {
        match named_places(v, names, k - 1) {
            Err(e) => Err(e),
            Ok(rest) => match id_of(v.store, names[k - 1]) {
                None => Err("Node "@ + names[k - 1] + " not found"@),
                Some(j) => Ok(rest.push(v.store[j as int].index)),
            },
        }
    }
}

/// The places of the nodes that a propagation visits, in visiting order.
pub open spec fn propagated(v: NetworkV, p: PropV) -> Result<Seq<usize>, Seq<char>> {
    let n = v.nodes.len() as int;
    match p {
        PropV::Sequential | PropV::OutputFirst => Ok(Seq::new(n as nat, |i: int| i as usize)),
        PropV::Inverse | PropV::InputsFirst => Ok(Seq::new(n as nat, |i: int| (n - 1 - i) as usize)),
        PropV::Conditional(c) => Ok(cond_places(v, c, n)),
        PropV::ConditionalStrict(c) => strict_places(v, c, false, n),
        PropV::ConditionalSuperStrict(c) => strict_places(v, c, true, n),
        PropV::List(names) => named_places(v, names, names.len() as int),
        PropV::Path(p) => path_between(v, p.start, p.end),
    }
}

/// The node visited at step `a` of the visit `p` (places in `nodes`) is an
/// input of a node visited at a later step.
pub open spec fn flows_into_later(st: Seq<NodeV>, nodes: Seq<usize>, p: Seq<usize>, a: int) -> bool {
    exists|b: int| a < b < p.len() && #[trigger] st[nodes[p[b] as int] as int].inputs.contains(nodes[p[a] as int])
}

proof fn lemma_reverse_visit_flows(st: Seq<NodeV>, nodes: Seq<usize>, p: Seq<usize>)
    requires
        parents_first(st, nodes),
        p.len() == nodes.len(),
        forall|a: int| 0 <= a < p.len() ==> #[trigger] p[a] == nodes.len() - 1 - a,
    ensures
        forall|a: int| 0 <= a < p.len() - 1 ==> #[trigger] flows_into_later(st, nodes, p, a),
{
    let n = nodes.len() as int;
    assert forall|a: int| 0 <= a < p.len() - 1 implies #[trigger] flows_into_later(st, nodes, p, a) by {
        let k = n - 1 - a;
        assert(has_parent(st, nodes, k));
        let j = choose|j: int| 0 <= j < k && #[trigger] st[nodes[j] as int].inputs.contains(nodes[k]);
        let b = n - 1 - j;
        assert(p[b] == j);
        assert(p[a] == k);
        assert(st[nodes[p[b] as int] as int].inputs.contains(nodes[p[a] as int]));
    }
}

/// Propagation `InputsFirst` visits the nodes as `Inverse` does, each once,
/// from the last place to the first; in a network where each node after the
/// first comes after a node it flows into (as ordering leaves it), every
/// node visited but the last flows into a node visited after it.
pub proof fn law_inputs_first_visits_inputs_first(v: NetworkV)
    requires
        net_wf(v),
        v.nodes.len() <= usize::MAX,
        parents_first(v.store, v.nodes),
    ensures
        propagated(v, PropV::InputsFirst) == propagated(v, PropV::Inverse),
        propagated(v, PropV::InputsFirst) is Ok,
        ({
            let p = propagated(v, PropV::InputsFirst)->Ok_0;
            &&& p.len() == v.nodes.len()
            &&& forall|a: int| 0 <= a < p.len() ==> #[trigger] p[a] == v.nodes.len() - 1 - a
            &&& forall|a: int| 0 <= a < p.len() - 1 ==> #[trigger] flows_into_later(v.store, v.nodes, p, a)
        }),
{
    let p = propagated(v, PropV::InputsFirst)->Ok_0;
    lemma_reverse_visit_flows(v.store, v.nodes, p);
}

/// The node visited at step `a` of the visit `p` (places in `nodes`) is an
/// input of a node visited at an earlier step.
pub open spec fn flows_into_earlier(st: Seq<NodeV>, nodes: Seq<usize>, p: Seq<usize>, a: int) -> bool {
    exists|b: int| 0 <= b < a && #[trigger] st[nodes[p[b] as int] as int].inputs.contains(nodes[p[a] as int])
}

/// Propagation `OutputFirst` visits the nodes as `Sequential` does, each
/// once, from the first place to the last; in a network where each node
/// after the first comes after a node it flows into (as ordering leaves
/// it), every node visited after the first is an input of a node visited
/// before it.
pub proof fn law_output_first_visits_outputs_first(v: NetworkV)
    requires
        net_wf(v),
        v.nodes.len() <= usize::MAX,
        parents_first(v.store, v.nodes),
    ensures
        propagated(v, PropV::OutputFirst) == propagated(v, PropV::Sequential),
        propagated(v, PropV::OutputFirst) is Ok,
        ({
            let p = propagated(v, PropV::OutputFirst)->Ok_0;
            &&& p.len() == v.nodes.len()
            &&& forall|a: int| 0 <= a < p.len() ==> #[trigger] p[a] == a
            &&& forall|a: int| 0 < a < p.len() ==> #[trigger] flows_into_earlier(v.store, v.nodes, p, a)
        }),
{
    let p = propagated(v, PropV::OutputFirst)->Ok_0;
    assert forall|a: int| 0 < a < p.len() implies #[trigger] flows_into_earlier(v.store, v.nodes, p, a) by {
        assert(has_parent(v.store, v.nodes, a));
        let j = choose|j: int| 0 <= j < a && #[trigger] v.store[v.nodes[j] as int].inputs.contains(v.nodes[a]);
        assert(p[j] == j);
        assert(p[a] == a);
        assert(v.store[v.nodes[p[j] as int] as int].inputs.contains(v.nodes[p[a] as int]));
    }
}

proof fn lemma_strict_err_stays(v: NetworkV, c: CondV, sup: bool, k: int, k2: int)
    requires
        0 <= k <= k2,
        strict_places(v, c, sup, k) is Err,
    ensures
        strict_places(v, c, sup, k2) == strict_places(v, c, sup, k),
    decreases k2 - k,
{
    if k2 > k {
        lemma_strict_err_stays(v, c, sup, k, k2 - 1);
    }
}

proof fn lemma_named_err_stays(v: NetworkV, names: Seq<Seq<char>>, k: int, k2: int)
    requires
        0 <= k <= k2,
        named_places(v, names, k) is Err,
    ensures
        named_places(v, names, k2) == named_places(v, names, k),
    decreases k2 - k,
{
    if k2 > k {
        lemma_named_err_stays(v, names, k, k2 - 1);
    }
}

impl Network {
    /// The places (indices) of the nodes that the propagation visits: all
    /// in order, all in reverse order, those where a condition holds, the
    /// named ones, or those on a path.
    pub fn nodes_propagation(&self, prop: &Propagation) -> (r: Result<Vec<usize>, String>)
        requires
            self.wf(),
        ensures
            match (r, propagated(self@, prop@)) {
                (Ok(x), Ok(y)) => x@ == y,
                (Err(m), Err(w)) => m@ == w,
                _ => false,
            },
    {
        let n = self.nodes.len();
        let ghost v = self@;
        match prop {
            Propagation::Sequential | Propagation::OutputFirst => {
                let mut r: Vec<usize> = Vec::new();
                let mut i: usize = 0;
                while i < n
                    invariant
                        i <= n,
                        r@ == Seq::new(i as nat, |k: int| k as usize),
                    decreases n - i,
                {
                    r.push(i);
                    assert(r@ =~= Seq::new((i + 1) as nat, |k: int| k as usize));
                    i = i + 1;
                }
                Ok(r)
            },
            Propagation::Inverse | Propagation::InputsFirst => {
                let mut r: Vec<usize> = Vec::new();
                let mut i: usize = 0;
                while i < n
                    invariant
                        i <= n,
                        r@ == Seq::new(i as nat, |k: int| (n - 1 - k) as usize),
                    decreases n - i,
                {
                    r.push(n - 1 - i);
                    assert(r@ =~= Seq::new((i + 1) as nat, |k: int| (n - 1 - k) as usize));
                    i = i + 1;
                }
                Ok(r)
            },
            Propagation::Conditional(c) => {
                let mut r: Vec<usize> = Vec::new();
                let mut i: usize = 0;
                while i < n
                    invariant
                        self.wf(),
                        v == self@,
                        n == v.nodes.len(),
                        i <= n,
                        r@ == cond_places(v, c@, i as int),
                    decreases n - i,
                {
                    assert(self.store@[self.nodes@[i as int] as int]@.attrs == attrs_at(v, i as int));
                    if self.store[self.nodes[i]].check(c) {
                        r.push(i);
                    }
                    i = i + 1;
                }
                Ok(r)
            },
            Propagation::ConditionalStrict(c) | Propagation::ConditionalSuperStrict(c) => {
                let sup = match prop {
                    Propagation::ConditionalSuperStrict(_) => true,
                    _ => false,
                };
                let mut r: Vec<usize> = Vec::new();
                let mut i: usize = 0;
                while i < n
                    invariant
                        self.wf(),
                        v == self@,
                        n == v.nodes.len(),
                        i <= n,
                        strict_places(v, c@, sup, i as int) == Ok::<Seq<usize>, Seq<char>>(r@),
                        sup ==> prop@ == PropV::ConditionalSuperStrict(c@),
                        !sup ==> prop@ == PropV::ConditionalStrict(c@),
                    decreases n - i,
                {
                    let node = &self.store[self.nodes[i]];
                    assert(node@.attrs == attrs_at(v, i as int));
                    let b = if sup { node.check_super_strict(c) } else { node.check_strict(c) };
                    match b {
                        Err(e) => {
                            assert(strict_places(v, c@, sup, i + 1) == Err::<Seq<usize>, Seq<char>>(e@));
                            proof {
                                lemma_strict_err_stays(v, c@, sup, i + 1, n as int);
                            }
                            return Err(e);
                        },
                        Ok(b) => {
                            if b {
                                r.push(i);
                            }
                        },
                    }
                    i = i + 1;
                }
                Ok(r)
            },
            Propagation::List(names) => {
                let mut r: Vec<usize> = Vec::new();
                let mut i: usize = 0;
                let ghost nv = crate::functions::string_seq_view(names@);
                while i < names.len()
                    invariant
                        self.wf(),
                        v == self@,
                        nv == crate::functions::string_seq_view(names@),
                        i <= names.len(),
                        named_places(v, nv, i as int) == Ok::<Seq<usize>, Seq<char>>(r@),
                        prop@ == PropV::List(nv),
                    decreases names.len() - i,
                {
                    match self.node_id(names[i].as_str()) {
                        None => {
                            let mut m = owned("Node ");
                            push_str(&mut m, names[i].as_str());
                            push_str(&mut m, " not found");
                            assert(nv[i as int] == names@[i as int]@);
                            assert(named_places(v, nv, i + 1) == Err::<Seq<usize>, Seq<char>>(m@));
                            proof {
                                lemma_named_err_stays(v, nv, i + 1, nv.len() as int);
                            }
                            return Err(m);
                        },
                        Some(j) => {
                            r.push(self.store[j].index());
                        },
                    }
                    i = i + 1;
                }
                Ok(r)
            },
            Propagation::Path(p) => self.nodes_path(p),
        }
    }
}

} // verus!
