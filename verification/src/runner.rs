//! Running tasks that read or set attributes of the environment, the
//! network or its nodes. Tasks that call functions go through the plugins
//! and are run around this module; what a task did comes back as a
//! `TaskOutcome` for the caller to show.
use vstd::prelude::*;
use crate::attrs::{AttrMap, Attribute, Val, lookup, upsert, unique_keys, law_read_after_write, entries_view, lemma_entries_view, clone_attr};
use crate::functions::{FunctionRet, Propagation, PropV, dot_lookup, dot_set, path_unique, lemma_dotted_read_after_write, lemma_dot_set_keeps_unique};
use crate::network::{Network, NetworkV, net_wf, propagated};
use crate::node::NodeV;
use crate::tasks::{TaskInput, InputV, opt_str_view};
use crate::text::{owned, push_str};

verus! {

/// What running a task did.
#[derive(Debug)]
pub enum TaskOutcome {
    /// nothing to show
    Nothing,
    /// a value to show
    Show(Attribute),
    /// a value replaced: the old one and the new one
    Change(Attribute, Attribute),
    /// the value of an attribute at each node (none where it is missing)
    NodeValues(String, Vec<(String, Option<Attribute>)>),
    /// values replaced at nodes: the node's name, the old value, the new one
    NodeChanges(Vec<(String, Attribute, Attribute)>),
    /// all environment variables
    Listing(Vec<(String, Attribute)>),
}

pub enum OutcomeV {
    Nothing,
    Show(Val),
    Change(Val, Val),
    NodeValues(Seq<char>, Seq<(Seq<char>, Option<Val>)>),
    NodeChanges(Seq<(Seq<char>, Val, Val)>),
    Listing(Seq<(Seq<char>, Val)>),
}

pub open spec fn opt_val(a: Option<Attribute>) -> Option<Val> {
    match a {
        Some(x) => Some(x@),
        None => None,
    }
}

pub open spec fn values_view(v: Seq<(String, Option<Attribute>)>) -> Seq<(Seq<char>, Option<Val>)> {
    v.map_values(|p: (String, Option<Attribute>)| (p.0@, opt_val(p.1)))
}

pub open spec fn changes_view(v: Seq<(String, Attribute, Attribute)>) -> Seq<(Seq<char>, Val, Val)> {
    v.map_values(|p: (String, Attribute, Attribute)| (p.0@, p.1@, p.2@))
}

impl View for TaskOutcome {
    type V = OutcomeV;

    open spec fn view(&self) -> OutcomeV {
        match self {
            TaskOutcome::Nothing => OutcomeV::Nothing,
            TaskOutcome::Show(a) => OutcomeV::Show(a@),
            TaskOutcome::Change(a, b) => OutcomeV::Change(a@, b@),
            TaskOutcome::NodeValues(at, v) => OutcomeV::NodeValues(at@, values_view(v@)),
            TaskOutcome::NodeChanges(v) => OutcomeV::NodeChanges(changes_view(v@)),
            TaskOutcome::Listing(v) => OutcomeV::Listing(entries_view(v@)),
        }
    }
}

/// A change where a value was replaced, nothing where it was new.
pub open spec fn change_of(old: Option<Val>, new: Val) -> OutcomeV {
    match old {
        Some(b) => OutcomeV::Change(b, new),
        None => OutcomeV::Nothing,
    }
}

/// Running an environment task that calls no function: the environment
/// after it and what it did.
pub open spec fn env_run(env: Seq<(Seq<char>, Val)>, attribute: Option<Seq<char>>, input: InputV) -> Result<(Seq<(Seq<char>, Val)>, OutcomeV), Seq<char>> {
    match attribute {
        None => Ok((env, OutcomeV::Listing(env))),
        Some(var) => match input {
            InputV::Literal(val) => Ok((upsert(env, var, val), OutcomeV::Nothing)),
            InputV::Variable(v) => match dot_lookup(env, v, 0) {
                Err(e) => Err(e),
                Ok(None) => Err("Attribute not found "@ + var),
                Ok(Some(a)) => match dot_set(env, var, 0, a) {
                    Err(e) => Err(e),
                    Ok((t, old)) => Ok((t, change_of(old, a))),
                },
            },
            InputV::Empty => match lookup(env, var) {
                Some(v) => Ok((env, OutcomeV::Show(v))),
                None => Err("Env variable "@ + var + " doesn't exist"@),
            },
            InputV::Function(_, _, _) => Err(Seq::empty()),
        },
    }
}

/// An environment variable set by a task is what the next task that
/// names it shows.
pub proof fn law_env_set_then_show(env: Seq<(Seq<char>, Val)>, var: Seq<char>, val: Val)
    requires
        unique_keys(env),
    ensures
        env_run(env, Some(var), InputV::Literal(val)) matches Ok((t, _))
            && env_run(t, Some(var), InputV::Empty) == Ok::<(Seq<(Seq<char>, Val)>, OutcomeV), Seq<char>>((t, OutcomeV::Show(val))),
{
    law_read_after_write(env, var, val);
}

/// Running a network task that calls no function: the network's
/// attributes after it and what it did.
pub open spec fn net_run(attrs: Seq<(Seq<char>, Val)>, attribute: Option<Seq<char>>, input: InputV) -> Result<(Seq<(Seq<char>, Val)>, OutcomeV), Seq<char>> {
    match input {
        InputV::Empty => match attribute {
            Some(a) => match dot_lookup(attrs, a, 0) {
                Err(e) => Err(e),
                Ok(Some(v)) => Ok((attrs, OutcomeV::Show(v))),
                Ok(None) => Err("Attribute not found "@ + a),
            },
            None => Ok((attrs, OutcomeV::Nothing)),
        },
        InputV::Literal(val) => match attribute {
            Some(at) => match dot_set(attrs, at, 0, val) {
                Err(e) => Err(e),
                Ok((t, old)) => Ok((t, change_of(old, val))),
            },
            None => Ok((attrs, OutcomeV::Nothing)),
        },
        InputV::Variable(var) => match attribute {
            Some(at) => match dot_lookup(attrs, var, 0) {
                Err(e) => Err(e),
                Ok(None) => Err("Attribute not found "@ + at),
                Ok(Some(v)) => match dot_set(attrs, at, 0, v) {
                    Err(e) => Err(e),
                    Ok((t, old)) => Ok((t, change_of(old, v))),
                },
            },
            None => Err("Nothing to do, found variable "@ + var),
        },
        InputV::Function(_, _, _) => Err(Seq::empty()),
    }
}

/// An error at a node.
pub open spec fn at_node(name: Seq<char>, e: Seq<char>) -> Seq<char> {
    "Node "@ + name + ": "@ + e
}

/// The values of attribute `at` at the nodes at `places`; places beyond
/// the order are passed over.
pub open spec fn node_values(v: NetworkV, places: Seq<usize>, at: Seq<char>) -> Result<Seq<(Seq<char>, Option<Val>)>, Seq<char>>
    decreases places.len(),
{
    if places.len() == 0 {
        Ok(Seq::empty())
    } else {
        match node_values(v, places.drop_last(), at) {
            Err(e) => Err(e),
            Ok(vals) => {
                let p = places.last();
                if p < v.nodes.len() {
                    let n = v.store[v.nodes[p as int] as int];
                    match dot_lookup(n.attrs, at, 0) {
                        Err(e) => Err(at_node(n.name, e)),
                        Ok(x) => Ok(vals.push((n.name, x))),
                    }
                } else {
                    Ok(vals)
                }
            },
        }
    }
}

/// What setting attribute `at` does at one node: its attributes after,
/// and the replaced value, or the error. The value is `val` for a literal;
/// for a variable, the node's own attribute `var`.
pub open spec fn node_set(n: NodeV, at: Seq<char>, input: InputV) -> Result<(Seq<(Seq<char>, Val)>, Option<(Val, Val)>), Seq<char>> {
    match input {
        InputV::Literal(val) => match dot_set(n.attrs, at, 0, val) {
            Err(e) => Err(at_node(n.name, e)),
            Ok((t, old)) => Ok((t, match old {
                Some(b) => Some((b, val)),
                None => None,
            })),
        },
        InputV::Variable(var) => match dot_lookup(n.attrs, var, 0) {
            Err(e) => Err(at_node(n.name, e)),
            Ok(None) => Err(at_node(n.name, "Attribute "@ + var + " not found"@)),
            Ok(Some(a)) => match dot_set(n.attrs, at, 0, a) {
                Err(e) => Err(e),
                Ok((t, old)) => Ok((t, match old {
                    Some(b) => Some((b, a)),
                    None => None,
                })),
            },
        },
        _ => Ok((n.attrs, None)),
    }
}

/// Setting attribute `at` at the nodes at `places`, one after another:
/// the store after it, and the changes or the first error (the nodes
/// before it keep their changes).
pub open spec fn nodes_set(v: NetworkV, places: Seq<usize>, at: Seq<char>, input: InputV) -> (Seq<NodeV>, Result<Seq<(Seq<char>, Val, Val)>, Seq<char>>)
    decreases places.len(),
{
    if places.len() == 0 {
        (v.store, Ok(Seq::empty()))
    } else {
        let (st, r) = nodes_set(v, places.drop_last(), at, input);
        match r {
            Err(e) => (st, Err(e)),
            Ok(ch) => {
                let p = places.last();
                if p < v.nodes.len() {
                    let id = v.nodes[p as int] as int;
                    let n = st[id];
                    match node_set(n, at, input) {
                        Err(e) => (st, Err(e)),
                        Ok((t, c)) => {
                            let st2 = st.update(id, NodeV { attrs: t, ..n });
                            match c {
                                Some((b, a)) => (st2, Ok(ch.push((n.name, b, a)))),
                                None => (st2, Ok(ch)),
                            }
                        },
                    }
                } else {
                    (st, Ok(ch))
                }
            },
        }
    }
}

/// After a node task sets attribute `at` to a value at the nodes at
/// `places` without error, each of those nodes reads that value under
/// `at`, and every node keeps unique keys along `at`.
pub proof fn law_nodes_set_then_read(v: NetworkV, places: Seq<usize>, at: Seq<char>, val: Val)
    requires
        net_wf(v),
        forall|j: int| 0 <= j < v.store.len() ==> path_unique(#[trigger] v.store[j].attrs, at, 0),
    ensures
        nodes_set(v, places, at, InputV::Literal(val)) matches (st, Ok(_)) ==> {
            &&& st.len() == v.store.len()
            &&& forall|j: int| 0 <= j < st.len() ==> path_unique(#[trigger] st[j].attrs, at, 0)
            &&& forall|k: int| 0 <= k < places.len() && places[k] < v.nodes.len() ==>
                dot_lookup(#[trigger] st[v.nodes[places[k] as int] as int].attrs, at, 0) == Ok::<Option<Val>, Seq<char>>(Some(val))
        },
    decreases places.len(),
{
    if places.len() > 0 {
        let pre = places.drop_last();
        law_nodes_set_then_read(v, pre, at, val);
        let (st0, r0) = nodes_set(v, pre, at, InputV::Literal(val));
        if r0 is Ok {
            let p = places.last();
            if p < v.nodes.len() {
                let id = v.nodes[p as int] as int;
                let n = st0[id];
                lemma_dotted_read_after_write(n.attrs, at, 0, val);
                lemma_dot_set_keeps_unique(n.attrs, at, 0, val);
                if let Ok((t, old)) = dot_set(n.attrs, at, 0, val) {
                    let st2 = st0.update(id, NodeV { attrs: t, ..n });
                    assert forall|k: int| 0 <= k < places.len() && places[k] < v.nodes.len() implies
                        dot_lookup(#[trigger] st2[v.nodes[places[k] as int] as int].attrs, at, 0) == Ok::<Option<Val>, Seq<char>>(Some(val)) by {
                        if k < pre.len() {
                            assert(pre[k] == places[k]);
                        }
                    }
                }
            } else {
                assert forall|k: int| 0 <= k < places.len() && places[k] < v.nodes.len() implies
                    dot_lookup(#[trigger] st0[v.nodes[places[k] as int] as int].attrs, at, 0) == Ok::<Option<Val>, Seq<char>>(Some(val)) by {
                    assert(k < pre.len());
                    assert(pre[k] == places[k]);
                }
            }
        }
    }
}

/// Running a node task that calls no function: the network after it and
/// what it did.
pub open spec fn nodes_run(v: NetworkV, p: PropV, attribute: Option<Seq<char>>, input: InputV) -> (NetworkV, Result<OutcomeV, Seq<char>>) {
    match propagated(v, p) {
        Err(e) => (v, Err(e)),
        Ok(places) => match input {
            InputV::Empty => match attribute {
                Some(at) => (v, match node_values(v, places, at) {
                    Err(e) => Err(e),
                    Ok(vals) => Ok(OutcomeV::NodeValues(at, vals)),
                }),
                None => (v, Ok(OutcomeV::Nothing)),
            },
            InputV::Literal(_) | InputV::Variable(_) => match attribute {
                Some(at) => {
                    let (st, r) = nodes_set(v, places, at, input);
                    (NetworkV { store: st, ..v }, match r {
                        Err(e) => Err(e),
                        Ok(ch) => Ok(if ch.len() == 0 { OutcomeV::Nothing } else { OutcomeV::NodeChanges(ch) }),
                    })
                },
                None => (v, Err("Invalid operation, no attribute to assign"@)),
            },
            InputV::Function(_, _, _) => (v, Err(Seq::empty())),
        },
    }
}

fn message2(a: &str, b: &str) -> (m: String)
    ensures
        m@ == a@ + b@,
{
    let mut m = owned(a);
    push_str(&mut m, b);
    m
}

fn node_error(name: &str, e: &str) -> (m: String)
    ensures
        m@ == at_node(name@, e@),
{
    let mut m = owned("Node ");
    push_str(&mut m, name);
    push_str(&mut m, ": ");
    push_str(&mut m, e);
    m
}

fn copy_entries(m: &AttrMap) -> (r: Vec<(String, Attribute)>)
    ensures
        entries_view(r@) == m@,
{
    let e = m.entries();
    proof {
        lemma_entries_view(e@);
    }
    let mut r: Vec<(String, Attribute)> = Vec::new();
    let mut i: usize = 0;
    while i < e.len()
        invariant
            i <= e.len(),
            entries_view(e@) == m@,
            entries_view(e@).len() == e@.len(),
            forall|j: int| 0 <= j < e@.len() ==> #[trigger] entries_view(e@)[j] == (e@[j].0@, e@[j].1@),
            entries_view(r@) == entries_view(e@).take(i as int),
        decreases e.len() - i,
    {
        let k = e[i].0.clone();
        let a = clone_attr(&e[i].1);
        let ghost r0 = r@;
        r.push((k, a));
        proof {
            assert(r@.drop_last() =~= r0);
            assert(entries_view(e@).take(i + 1) =~= entries_view(e@).take(i as int).push(entries_view(e@)[i as int]));
        }
        i = i + 1;
    }
    assert(entries_view(e@).take(i as int) =~= entries_view(e@));
    r
}

/// Runs an environment task that calls no function (see `env_run`); the
/// environment is unchanged where it fails.
pub fn run_env(env: &mut AttrMap, attribute: &Option<String>, input: &TaskInput) -> (r: Result<TaskOutcome, String>)
    requires
        !(input@ is Function),
    ensures
        match (r, env_run(old(env)@, opt_str_view(*attribute), input@)) {
            (Ok(o), Ok((t, w))) => final(env)@ == t && o@ == w,
            (Err(m), Err(e)) => m@ == e && final(env)@ == old(env)@,
            _ => false,
        },
{
    match attribute {
        None => Ok(TaskOutcome::Listing(copy_entries(env))),
        Some(var) => match input {
            TaskInput::Literal(val) => {
                env.insert(var.clone(), clone_attr(val));
                Ok(TaskOutcome::Nothing)
            },
            TaskInput::Variable(v) => {
                let a = match env.attr_dot(v.as_str()) {
                    Err(e) => return Err(e),
                    Ok(None) => return Err(message2("Attribute not found ", var.as_str())),
                    Ok(Some(a)) => clone_attr(a),
                };
                let ghost av = a@;
                let shown = clone_attr(&a);
                match env.set_attr_dot(var.as_str(), a) {
                    Err(e) => Err(e),
                    Ok(Some(b)) => Ok(TaskOutcome::Change(b, shown)),
                    Ok(None) => Ok(TaskOutcome::Nothing),
                }
            },
            TaskInput::Empty => match env.get(var.as_str()) {
                Some(v) => Ok(TaskOutcome::Show(clone_attr(v))),
                None => {
                    let mut m = owned("Env variable ");
                    push_str(&mut m, var.as_str());
                    push_str(&mut m, " doesn't exist");
                    Err(m)
                },
            },
            TaskInput::Function(_) => Err(owned("")),
        },
    }
}

/// Runs a network task that calls no function (see `net_run`); the
/// network is unchanged where it fails.
pub fn run_network(net: &mut Network, attribute: &Option<String>, input: &TaskInput) -> (r: Result<TaskOutcome, String>)
    requires
        !(input@ is Function),
    ensures
        match (r, net_run(old(net)@.attrs, opt_str_view(*attribute), input@)) {
            (Ok(o), Ok((t, w))) => final(net)@ == (NetworkV { attrs: t, ..old(net)@ }) && o@ == w,
            (Err(m), Err(e)) => m@ == e && final(net)@ == old(net)@,
            _ => false,
        },
{
    match input {
        TaskInput::Empty => match attribute {
            Some(a) => match net.attr_dot(a.as_str()) {
                Err(e) => Err(e),
                Ok(Some(v)) => Ok(TaskOutcome::Show(clone_attr(v))),
                Ok(None) => Err(message2("Attribute not found ", a.as_str())),
            },
            None => Ok(TaskOutcome::Nothing),
        },
        TaskInput::Literal(val) => match attribute {
            Some(at) => {
                let shown = clone_attr(val);
                match net.set_attr_dot(at.as_str(), clone_attr(val)) {
                    Err(e) => Err(e),
                    Ok(Some(b)) => Ok(TaskOutcome::Change(b, shown)),
                    Ok(None) => Ok(TaskOutcome::Nothing),
                }
            },
            None => Ok(TaskOutcome::Nothing),
        },
        TaskInput::Variable(var) => match attribute {
            Some(at) => {
                let v = match net.attr_dot(var.as_str()) {
                    Err(e) => return Err(e),
                    Ok(None) => return Err(message2("Attribute not found ", at.as_str())),
                    Ok(Some(v)) => clone_attr(v),
                };
                let shown = clone_attr(&v);
                match net.set_attr_dot(at.as_str(), v) {
                    Err(e) => Err(e),
                    Ok(Some(b)) => Ok(TaskOutcome::Change(b, shown)),
                    Ok(None) => Ok(TaskOutcome::Nothing),
                }
            },
            None => Err(message2("Nothing to do, found variable ", var.as_str())),
        },
        TaskInput::Function(_) => Err(owned("")),
    }
}

proof fn lemma_values_err_stays(v: NetworkV, places: Seq<usize>, at: Seq<char>, k: int, k2: int)
    requires
        0 <= k <= k2 <= places.len(),
        node_values(v, places.take(k), at) is Err,
    ensures
        node_values(v, places.take(k2), at) == node_values(v, places.take(k), at),
    decreases k2 - k,
{
    if k2 > k {
        lemma_values_err_stays(v, places, at, k, k2 - 1);
        assert(places.take(k2).drop_last() =~= places.take(k2 - 1));
    }
}

fn node_values_at(net: &Network, places: &Vec<usize>, at: &str) -> (r: Result<Vec<(String, Option<Attribute>)>, String>)
    requires
        net.wf(),
    ensures
        match (r, node_values(net@, places@, at@)) {
            (Ok(x), Ok(y)) => values_view(x@) == y,
            (Err(m), Err(e)) => m@ == e,
            _ => false,
        },
{
    let mut vals: Vec<(String, Option<Attribute>)> = Vec::new();
    let mut i: usize = 0;
    assert(values_view(vals@) =~= Seq::empty());
    assert(places@.take(0) =~= Seq::<usize>::empty());
    while i < places.len()
        invariant
            net.wf(),
            i <= places.len(),
            node_values(net@, places@.take(i as int), at@) == Ok::<Seq<(Seq<char>, Option<Val>)>, Seq<char>>(values_view(vals@)),
        decreases places.len() - i,
    {
        let p = places[i];
        assert(places@.take(i + 1).drop_last() =~= places@.take(i as int));
        if p < net.nodes_count() {
            let name = match net.node(p) {
                Some(n) => owned(n.name()),
                None => owned(""),
            };
            match net.node_attr_dot(p, at) {
                Err(e) => {
                    let m = node_error(name.as_str(), e.as_str());
                    proof {
                        lemma_values_err_stays(net@, places@, at@, i + 1, places@.len() as int);
                        assert(places@.take(places@.len() as int) =~= places@);
                    }
                    return Err(m);
                },
                Ok(x) => {
                    let c = match x {
                        Some(a) => Some(clone_attr(a)),
                        None => None,
                    };
                    let ghost v0 = vals@;
                    vals.push((name, c));
                    assert(values_view(vals@) =~= values_view(v0).push((vals@.last().0@, opt_val(vals@.last().1))));
                },
            }
        }
        i = i + 1;
    }
    assert(places@.take(i as int) =~= places@);
    Ok(vals)
}

proof fn lemma_set_err_stays(v: NetworkV, places: Seq<usize>, at: Seq<char>, input: InputV, k: int, k2: int)
    requires
        0 <= k <= k2 <= places.len(),
        nodes_set(v, places.take(k), at, input).1 is Err,
    ensures
        nodes_set(v, places.take(k2), at, input) == nodes_set(v, places.take(k), at, input),
    decreases k2 - k,
{
    if k2 > k {
        lemma_set_err_stays(v, places, at, input, k, k2 - 1);
        assert(places.take(k2).drop_last() =~= places.take(k2 - 1));
    }
}

/// Sets attribute `at` at the node at place `p` (see `node_set`).
fn set_at_node(net: &mut Network, p: usize, at: &str, input: &TaskInput) -> (r: Result<Option<(String, Attribute, Attribute)>, String>)
    requires
        old(net).wf(),
        p < old(net)@.nodes.len(),
        input@ is Literal || input@ is Variable,
    ensures
        final(net).wf(),
        ({
            let id = old(net)@.nodes[p as int] as int;
            let n = old(net)@.store[id];
            match (r, node_set(n, at@, input@)) {
                (Ok(c), Ok((t, w))) => {
                    &&& final(net)@ == (NetworkV { store: old(net)@.store.update(id, NodeV { attrs: t, ..n }), ..old(net)@ })
                    &&& match (c, w) {
                        (Some(x), Some((b, a))) => x.0@ == n.name && x.1@ == b && x.2@ == a,
                        (None, None) => true,
                        _ => false,
                    }
                },
                (Err(m), Err(e)) => m@ == e && final(net)@ == old(net)@,
                _ => false,
            }
        }),
{
    let name = match net.node(p) {
        Some(n) => owned(n.name()),
        None => owned(""),
    };
    match input {
        TaskInput::Literal(val) => {
            let shown = clone_attr(val);
            match net.set_node_attr_dot(p, at, clone_attr(val)) {
                Err(e) => Err(node_error(name.as_str(), e.as_str())),
                Ok(Some(b)) => Ok(Some((name, b, shown))),
                Ok(None) => Ok(None),
            }
        },
        TaskInput::Variable(var) => {
            let a = match net.node_attr_dot(p, var.as_str()) {
                Err(e) => {
                    return Err(node_error(name.as_str(), e.as_str()));
                },
                Ok(None) => {
                    let mut m = owned("Attribute ");
                    push_str(&mut m, var.as_str());
                    push_str(&mut m, " not found");
                    return Err(node_error(name.as_str(), m.as_str()));
                },
                Ok(Some(a)) => clone_attr(a),
            };
            let shown = clone_attr(&a);
            match net.set_node_attr_dot(p, at, a) {
                Err(e) => Err(e),
                Ok(Some(b)) => Ok(Some((name, b, shown))),
                Ok(None) => Ok(None),
            }
        },
        _ => Ok(None),
    }
}

fn set_at_nodes(net: &mut Network, places: &Vec<usize>, at: &str, input: &TaskInput) -> (r: Result<Vec<(String, Attribute, Attribute)>, String>)
    requires
        old(net).wf(),
        input@ is Literal || input@ is Variable,
    ensures
        final(net).wf(),
        final(net)@ == (NetworkV { store: nodes_set(old(net)@, places@, at@, input@).0, ..old(net)@ }),
        match (r, nodes_set(old(net)@, places@, at@, input@).1) {
            (Ok(x), Ok(y)) => changes_view(x@) == y,
            (Err(m), Err(e)) => m@ == e,
            _ => false,
        },
{
    let ghost v0 = net@;
    let mut ch: Vec<(String, Attribute, Attribute)> = Vec::new();
    let mut i: usize = 0;
    assert(changes_view(ch@) =~= Seq::empty());
    assert(places@.take(0) =~= Seq::<usize>::empty());
    while i < places.len()
        invariant
            net.wf(),
            i <= places.len(),
            v0 == old(net)@,
            input@ is Literal || input@ is Variable,
            net@ == (NetworkV { store: nodes_set(v0, places@.take(i as int), at@, input@).0, ..v0 }),
            nodes_set(v0, places@.take(i as int), at@, input@).1 == Ok::<Seq<(Seq<char>, Val, Val)>, Seq<char>>(changes_view(ch@)),
        decreases places.len() - i,
    {
        let p = places[i];
        assert(places@.take(i + 1).drop_last() =~= places@.take(i as int));
        if p < net.nodes_count() {
            let ghost c0 = ch@;
            match set_at_node(net, p, at, input) {
                Err(e) => {
                    proof {
                        lemma_set_err_stays(v0, places@, at@, input@, i + 1, places@.len() as int);
                        assert(places@.take(places@.len() as int) =~= places@);
                    }
                    return Err(e);
                },
                Ok(Some(x)) => {
                    ch.push(x);
                    assert(changes_view(ch@) =~= changes_view(c0).push((ch@.last().0@, ch@.last().1@, ch@.last().2@)));
                },
                Ok(None) => {},
            }
        }
        i = i + 1;
    }
    assert(places@.take(i as int) =~= places@);
    Ok(ch)
}

/// Runs a node task that calls no function (see `nodes_run`): shows an
/// attribute at each node the propagation visits, or sets it there.
pub fn run_nodes(net: &mut Network, prop: &Propagation, attribute: &Option<String>, input: &TaskInput) -> (r: Result<TaskOutcome, String>)
    requires
        old(net).wf(),
        !(input@ is Function),
    ensures
        final(net).wf(),
        final(net)@ == nodes_run(old(net)@, prop@, opt_str_view(*attribute), input@).0,
        match (r, nodes_run(old(net)@, prop@, opt_str_view(*attribute), input@).1) {
            (Ok(o), Ok(w)) => o@ == w,
            (Err(m), Err(e)) => m@ == e,
            _ => false,
        },
{
    let places = match net.nodes_propagation(prop) {
        Err(e) => {
            return Err(e);
        },
        Ok(p) => p,
    };
    match input {
        TaskInput::Empty => match attribute {
            Some(at) => match node_values_at(net, &places, at.as_str()) {
                Err(e) => Err(e),
                Ok(vals) => Ok(TaskOutcome::NodeValues(at.clone(), vals)),
            },
            None => Ok(TaskOutcome::Nothing),
        },
        TaskInput::Literal(_) | TaskInput::Variable(_) => match attribute {
            Some(at) => match set_at_nodes(net, &places, at.as_str(), input) {
                Err(e) => Err(e),
                Ok(ch) => {
                    if ch.len() == 0 {
                        Ok(TaskOutcome::Nothing)
                    } else {
                        Ok(TaskOutcome::NodeChanges(ch))
                    }
                },
            },
            None => Err(owned("Invalid operation, no attribute to assign")),
        },
        TaskInput::Function(_) => Err(owned("")),
    }
}

/// What handling a function's return does to the attributes `attrs` of
/// what it ran on: a value is stored under `attribute` where one is given,
/// and shown where none is.
pub open spec fn ret_run(attrs: Seq<(Seq<char>, Val)>, attribute: Option<Seq<char>>, res: FunctionRet) -> Result<(Seq<(Seq<char>, Val)>, OutcomeV), Seq<char>> {
    match res {
        FunctionRet::Empty => Ok((attrs, OutcomeV::Nothing)),
        FunctionRet::Value(a) => match attribute {
            Some(at) => match dot_set(attrs, at, 0, a@) {
                Err(e) => Err(e),
                Ok((t, old)) => Ok((t, change_of(old, a@))),
            },
            None => Ok((attrs, OutcomeV::Show(a@))),
        },
        FunctionRet::Error(e) => Err(e@),
    }
}

/// Handles what a function returned, on the attributes of the environment,
/// a node or the network (see `ret_run`); they are unchanged where it fails.
pub fn handle_func_response(res: FunctionRet, target: &mut AttrMap, attribute: &Option<String>) -> (r: Result<TaskOutcome, String>)
    ensures
        match (r, ret_run(old(target)@, opt_str_view(*attribute), res)) {
            (Ok(o), Ok((t, w))) => final(target)@ == t && o@ == w,
            (Err(m), Err(e)) => m@ == e && final(target)@ == old(target)@,
            _ => false,
        },
{
    match res {
        FunctionRet::Empty => Ok(TaskOutcome::Nothing),
        FunctionRet::Value(a) => match attribute {
            Some(at) => {
                let shown = clone_attr(&a);
                match target.set_attr_dot(at.as_str(), a) {
                    Err(e) => Err(e),
                    Ok(Some(b)) => Ok(TaskOutcome::Change(b, shown)),
                    Ok(None) => Ok(TaskOutcome::Nothing),
                }
            },
            None => Ok(TaskOutcome::Show(a)),
        },
        FunctionRet::Error(e) => Err(e),
    }
}

} // verus!
