//! The registry of node, network and environment functions: each function
//! is known by its full name `plugin.name`, and by its short name where no
//! later function took it; plugins list the functions they brought.
use vstd::prelude::*;
use crate::text::{str_eq, owned, push_str, push_char, chars_of};
use crate::parser::table::{trimmed, trimmed_exec};
use crate::values::{find_char, lemma_find_char};
use crate::table::{ColumnAlign, contents_2_md, markdown, str_views, deref_aligns, rows_view};

verus! {

// ---------------------------------------------------------------------------
// Maps keyed by names.
// ---------------------------------------------------------------------------

/// The value under `key`, if any.
pub open spec fn nlookup<T>(e: Seq<(Seq<char>, T)>, key: Seq<char>) -> Option<T> {
    if exists|i: int| 0 <= i < e.len() && #[trigger] e[i].0 == key {
        Some(e[choose|i: int| 0 <= i < e.len() && #[trigger] e[i].0 == key].1)
    } else {
        None
    }
}

/// `key` set to `v`: in place where the key is there, at the end otherwise.
pub open spec fn nupsert<T>(e: Seq<(Seq<char>, T)>, key: Seq<char>, v: T) -> Seq<(Seq<char>, T)> {
    if exists|i: int| 0 <= i < e.len() && #[trigger] e[i].0 == key {
        e.update(choose|i: int| 0 <= i < e.len() && #[trigger] e[i].0 == key, (key, v))
    } else {
        e.push((key, v))
    }
}

/// No key occurs twice.
pub open spec fn nunique<T>(e: Seq<(Seq<char>, T)>) -> bool {
    forall|i: int, j: int| 0 <= i < j < e.len() ==> #[trigger] e[i].0 != #[trigger] e[j].0
}

/// With unique keys, the entry at `i` is what its key reads, and setting
/// that key replaces the entry in place.
pub proof fn lemma_nentry<T>(e: Seq<(Seq<char>, T)>, i: int, v: T)
    requires
        nunique(e),
        0 <= i < e.len(),
    ensures
        nlookup(e, e[i].0) == Some(e[i].1),
        nupsert(e, e[i].0, v) == e.update(i, (e[i].0, v)),
        nunique(e.update(i, (e[i].0, v))),
{
    let key = e[i].0;
    assert(exists|j: int| 0 <= j < e.len() && #[trigger] e[j].0 == key);
    let w = choose|j: int| 0 <= j < e.len() && #[trigger] e[j].0 == key;
    if w != i {
        if w < i {
            assert(e[w].0 != e[i].0);
        } else {
            assert(e[i].0 != e[w].0);
        }
    }
    let u = e.update(i, (key, v));
    assert forall|a: int, b: int| 0 <= a < b < u.len() implies #[trigger] u[a].0 != #[trigger] u[b].0 by {
        assert(e[a].0 != e[b].0);
    }
}

/// A map from names to values, in the order the names were first set.
#[derive(Debug)]
pub struct NameMap<T> {
    entries: Vec<(String, T)>,
}

pub open spec fn nentries_view<T>(s: Seq<(String, T)>) -> Seq<(Seq<char>, T)> {
    s.map_values(|p: (String, T)| (p.0@, p.1))
}

impl<T> View for NameMap<T> {
    type V = Seq<(Seq<char>, T)>;

    closed spec fn view(&self) -> Seq<(Seq<char>, T)> {
        nentries_view(self.entries@)
    }
}

impl<T> NameMap<T> {
    #[verifier::type_invariant]
    closed spec fn inv(self) -> bool {
        nunique(nentries_view(self.entries@))
    }

    pub fn new() -> (m: Self)
        ensures
            m@ == Seq::<(Seq<char>, T)>::empty(),
    {
        let m = NameMap { entries: Vec::new() };
        assert(m@ =~= Seq::<(Seq<char>, T)>::empty());
        m
    }

    pub fn len(&self) -> (n: usize)
        ensures
            n == self@.len(),
    {
        self.entries.len()
    }

    fn find(&self, key: &str) -> (r: Option<usize>)
        ensures
            r matches Some(i) ==> i < self@.len() && self@[i as int].0 == key@,
            r is None ==> forall|i: int| 0 <= i < self@.len() ==> #[trigger] self@[i].0 != key@,
    {
        let mut i: usize = 0;
        while i < self.entries.len()
            invariant
                i <= self.entries.len(),
                self@ == nentries_view(self.entries@),
                forall|j: int| 0 <= j < i ==> #[trigger] self@[j].0 != key@,
            decreases self.entries.len() - i,
        {
            if str_eq(self.entries[i].0.as_str(), key) {
                return Some(i);
            }
            i = i + 1;
        }
        None
    }

    /// The value under `key`.
    pub fn get(&self, key: &str) -> (r: Option<&T>)
        ensures
            match r {
                Some(v) => nlookup(self@, key@) == Some(*v),
                None => nlookup(self@, key@) is None,
            },
    {
        proof {
            use_type_invariant(self);
        }
        match self.find(key) {
            Some(i) => {
                proof {
                    lemma_nentry(self@, i as int, self@[i as int].1);
                }
                Some(&self.entries[i].1)
            },
            None => None,
        }
    }

    /// Sets `key` to `v`, giving back the value it replaces.
    pub fn insert(&mut self, key: String, v: T) -> (r: Option<T>)
        ensures
            final(self)@ == nupsert(old(self)@, key@, v),
            r == nlookup(old(self)@, key@),
            nunique(old(self)@),
    {
        proof {
            use_type_invariant(&*self);
        }
        let ghost kv = key@;
        let ghost vv = v;
        match self.find(key.as_str()) {
            Some(i) => {
                let ghost old_e = self.entries@;
                let mut entries: Vec<(String, T)> = Vec::new();
                std::mem::swap(&mut entries, &mut self.entries);
                let (k0, v0) = entries.remove(i);
                entries.insert(i, (key, v));
                proof {
                    lemma_nentry(old(self)@, i as int, vv);
                    assert((k0, v0) == old_e[i as int]);
                    assert(nentries_view(entries@) =~= old(self)@.update(i as int, (kv, vv)));
                }
                self.entries = entries;
                Some(v0)
            },
            None => {
                let ghost old_e = self.entries@;
                let mut entries: Vec<(String, T)> = Vec::new();
                std::mem::swap(&mut entries, &mut self.entries);
                entries.push((key, v));
                proof {
                    assert(nentries_view(entries@) =~= old(self)@.push((kv, vv)));
                    let u = nentries_view(entries@);
                    assert forall|a: int, b: int| 0 <= a < b < u.len() implies #[trigger] u[a].0 != #[trigger] u[b].0 by {
                        if b < old_e.len() {
                            assert(old(self)@[a].0 != old(self)@[b].0);
                        } else {
                            assert(old(self)@[a].0 != kv);
                        }
                    }
                    assert(!(exists|j: int| 0 <= j < old(self)@.len() && #[trigger] old(self)@[j].0 == kv));
                }
                self.entries = entries;
                None
            },
        }
    }

    /// The entries, in order.
    pub fn entries(&self) -> (e: &Vec<(String, T)>)
        ensures
            nentries_view(e@) == self@,
    {
        &self.entries
    }
}

/// Setting a key twice leaves the second value.
pub proof fn lemma_nupsert_twice<T>(e: Seq<(Seq<char>, T)>, k: Seq<char>, a: T, b: T)
    requires
        nunique(e),
    ensures
        nupsert(nupsert(e, k, a), k, b) == nupsert(e, k, b),
{
    if exists|i: int| 0 <= i < e.len() && #[trigger] e[i].0 == k {
        let i = choose|i: int| 0 <= i < e.len() && #[trigger] e[i].0 == k;
        lemma_nentry(e, i, a);
        lemma_nentry(e, i, b);
        let e1 = e.update(i, (k, a));
        assert(e1[i].0 == k);
        lemma_nentry(e1, i, b);
        assert(e1.update(i, (k, b)) =~= e.update(i, (k, b)));
    } else {
        let e1 = e.push((k, a));
        let n = e.len() as int;
        assert(e1[n].0 == k);
        assert forall|x: int, y: int| 0 <= x < y < e1.len() implies #[trigger] e1[x].0 != #[trigger] e1[y].0 by {
            if y < n {
                assert(e[x].0 != e[y].0);
            } else {
                assert(e[x].0 != k);
            }
        }
        lemma_nentry(e1, n, b);
        assert(e1.update(n, (k, b)) =~= e.push((k, b)));
    }
}

// ---------------------------------------------------------------------------
// Function arguments.
// ---------------------------------------------------------------------------

/// How an argument is given.
#[derive(Debug)]
pub enum FuncArgType {
    Arg,
    OptArg,
    /// an argument with a default value, written as text
    DefArg(String),
    Args,
    KwArgs,
}

/// An argument of a function, for its help and signature.
#[derive(Debug)]
pub struct FuncArg {
    pub name: String,
    pub ty: String,
    pub help: String,
    pub category: FuncArgType,
}

/// How an argument is written in a signature.
pub open spec fn arg_text(a: FuncArg) -> Seq<char> {
    match a.category {
        FuncArgType::Arg | FuncArgType::OptArg => a.name@ + ": '"@ + a.ty@ + "'"@,
        FuncArgType::DefArg(v) => a.name@ + ": '"@ + a.ty@ + "' = "@ + v@,
        FuncArgType::Args => "*"@ + a.name@,
        FuncArgType::KwArgs => "**"@ + a.name@,
    }
}

impl FuncArg {
    pub fn to_string(&self) -> (s: String)
        ensures
            s@ == arg_text(*self),
    {
        match &self.category {
            FuncArgType::Arg | FuncArgType::OptArg => {
                let mut s = self.name.clone();
                push_str(&mut s, ": '");
                push_str(&mut s, self.ty.as_str());
                push_str(&mut s, "'");
                s
            },
            FuncArgType::DefArg(v) => {
                let mut s = self.name.clone();
                push_str(&mut s, ": '");
                push_str(&mut s, self.ty.as_str());
                push_str(&mut s, "' = ");
                push_str(&mut s, v.as_str());
                s
            },
            FuncArgType::Args => {
                let mut s = owned("*");
                push_str(&mut s, self.name.as_str());
                s
            },
            FuncArgType::KwArgs => {
                let mut s = owned("**");
                push_str(&mut s, self.name.as_str());
                s
            },
        }
    }
}

/// The texts joined with `, `.
pub open spec fn joined(parts: Seq<Seq<char>>) -> Seq<char>
    decreases parts.len(),
{
    if parts.len() == 0 {
        Seq::empty()
    } else if parts.len() == 1 {
        parts[0]
    } else {
        joined(parts.drop_last()) + ", "@ + parts.last()
    }
}

/// A signature: the arguments as written, joined with `, `.
pub open spec fn signature_text(args: Seq<FuncArg>) -> Seq<char> {
    joined(args.map_values(|a: FuncArg| arg_text(a)))
}

/// The signature of a function with these arguments.
pub fn signature(args: &Vec<FuncArg>) -> (s: String)
    ensures
        s@ == signature_text(args@),
{
    let ghost parts = args@.map_values(|a: FuncArg| arg_text(a));
    let mut s = owned("");
    proof {
        reveal_strlit("");
        reveal_strlit(", ");
    }
    let mut i: usize = 0;
    while i < args.len()
        invariant
            i <= args.len(),
            parts == args@.map_values(|a: FuncArg| arg_text(a)),
            s@ == joined(parts.take(i as int)),
        decreases args.len() - i,
    {
        let t = args[i].to_string();
        let ghost s0 = s@;
        if i > 0 {
            push_str(&mut s, ", ");
        }
        push_str(&mut s, t.as_str());
        proof {
            assert(parts.take(i + 1).drop_last() =~= parts.take(i as int));
            assert(parts.take(i + 1).last() == t@);
            if i == 0 {
                assert(s0 =~= Seq::<char>::empty());
                assert(s@ =~= t@);
            }
        }
        i = i + 1;
    }
    assert(parts.take(i as int) =~= parts);
    s
}

/// The texts joined with `sep`.
pub open spec fn joined_with(parts: Seq<Seq<char>>, sep: Seq<char>) -> Seq<char>
    decreases parts.len(),
{
    if parts.len() == 0 {
        Seq::empty()
    } else if parts.len() == 1 {
        parts[0]
    } else {
        joined_with(parts.drop_last(), sep) + sep + parts.last()
    }
}

fn join_with(parts: &Vec<String>, sep: &str) -> (s: String)
    ensures
        s@ == joined_with(names_of(parts@), sep@),
{
    let ghost ps = names_of(parts@);
    let mut s = String::new();
    let mut i: usize = 0;
    while i < parts.len()
        invariant
            i <= parts.len(),
            ps == names_of(parts@),
            s@ == joined_with(ps.take(i as int), sep@),
        decreases parts.len() - i,
    {
        let ghost s0 = s@;
        if i > 0 {
            push_str(&mut s, sep);
        }
        push_str(&mut s, parts[i].as_str());
        proof {
            assert(ps.take(i + 1).drop_last() =~= ps.take(i as int));
            assert(ps.take(i + 1).last() == parts@[i as int]@);
            if i == 0 {
                assert(s0 =~= Seq::<char>::empty());
                assert(s@ =~= parts@[0]@);
            }
        }
        i = i + 1;
    }
    assert(ps.take(i as int) =~= ps);
    s
}

/// A signature as a documentation page writes it: in brackets, on one
/// line for fewer than three arguments, one argument a line otherwise.
pub open spec fn doc_signature(args: Seq<FuncArg>) -> Seq<char> {
    let parts = args.map_values(|a: FuncArg| arg_text(a));
    if args.len() < 3 {
        "("@ + joined_with(parts, ", "@) + ")"@
    } else {
        "(\n    "@ + joined_with(parts, ",\n    "@) + "\n)"@
    }
}

/// The line of an argument in a documentation page.
pub open spec fn doc_arg_line(a: FuncArg) -> Seq<char> {
    "- `"@ + arg_text(a) + "` => "@ + a.help@
}

/// The lines of the arguments, one a line.
pub open spec fn doc_arg_lines(args: Seq<FuncArg>) -> Seq<char> {
    joined_with(args.map_values(|a: FuncArg| doc_arg_line(a)), "\n"@)
}

/// `s[i..]` with each heading mark that starts a line (`\n#`) two levels
/// deeper (`\n###`).
pub open spec fn deepened(s: Seq<char>, i: int) -> Seq<char>
    decreases s.len() - i,
{
    if i < 0 || i >= s.len() {
        Seq::empty()
    } else if i + 1 < s.len() && s[i] == '\n' && s[i + 1] == '#' {
        "\n###"@ + deepened(s, i + 2)
    } else {
        seq![s[i]] + deepened(s, i + 1)
    }
}

/// The section of a documentation page on function `func` of plugin
/// `plug`, of kind `kind` (`env`, `node` or `network`).
pub open spec fn func_doc_text(kind: Seq<char>, plug: Seq<char>, func: Seq<char>, args: Seq<FuncArg>, help: Seq<char>) -> Seq<char> {
    "## "@ + func + " {#"@ + kind + "."@ + func + "}\n"@ + "```sig\n"@ + kind + " "@ + plug + "."@ + func + doc_signature(args)
        + "\n"@ + "```\n\n"@ + "### Arguments\n"@ + doc_arg_lines(args) + "\n\n"@ + deepened(help, 0) + "\n"@
}

fn deepen(help: &str) -> (s: String)
    ensures
        s@ == deepened(help@, 0),
{
    let v = chars_of(help);
    let mut s = String::new();
    let mut i: usize = 0;
    proof {
        reveal_strlit("\n###");
    }
    while i < v.len()
        invariant
            v@ == help@,
            i <= v.len(),
            s@ + deepened(v@, i as int) == deepened(v@, 0),
        decreases v.len() - i,
    {
        let ghost s0 = s@;
        if i + 1 < v.len() && v[i] == '\n' && v[i + 1] == '#' {
            push_str(&mut s, "\n###");
            assert(s0 + deepened(v@, i as int) =~= s@ + deepened(v@, i + 2));
            i = i + 2;
        } else {
            push_char(&mut s, v[i]);
            assert(s0 + deepened(v@, i as int) =~= s@ + deepened(v@, i + 1));
            i = i + 1;
        }
    }
    assert(s@ + deepened(v@, i as int) =~= s@);
    s
}

/// The section of a documentation page on function `func` of plugin
/// `plug`: its heading, its signature, its arguments and its help, whose
/// headings go two levels deeper.
pub fn func_doc(kind: &str, plug: &str, func: &str, args: &Vec<FuncArg>, help: &str) -> (s: String)
    ensures
        s@ == func_doc_text(kind@, plug@, func@, args@, help@),
{
    let mut texts: Vec<String> = Vec::new();
    let mut lines: Vec<String> = Vec::new();
    let mut i: usize = 0;
    while i < args.len()
        invariant
            i <= args.len(),
            names_of(texts@) == args@.take(i as int).map_values(|a: FuncArg| arg_text(a)),
            names_of(lines@) == args@.take(i as int).map_values(|a: FuncArg| doc_arg_line(a)),
        decreases args.len() - i,
    {
        let t = args[i].to_string();
        let mut l = owned("- `");
        push_str(&mut l, t.as_str());
        push_str(&mut l, "` => ");
        push_str(&mut l, args[i].help.as_str());
        let ghost t0 = texts@;
        let ghost l0 = lines@;
        let ghost tv = t@;
        let ghost lv = l@;
        texts.push(t);
        lines.push(l);
        proof {
            assert(lv == doc_arg_line(args@[i as int]));
            assert(tv == arg_text(args@[i as int]));
            assert(names_of(texts@) =~= names_of(t0).push(tv));
            assert(names_of(lines@) =~= names_of(l0).push(lv));
            assert(args@.take(i + 1).map_values(|a: FuncArg| arg_text(a)) =~= args@.take(i as int).map_values(|a: FuncArg| arg_text(a)).push(tv));
            assert(args@.take(i + 1).map_values(|a: FuncArg| doc_arg_line(a)) =~= args@.take(i as int).map_values(|a: FuncArg| doc_arg_line(a)).push(lv));
        }
        i = i + 1;
    }
    assert(args@.take(i as int) =~= args@);
    let mut s = owned("## ");
    push_str(&mut s, func);
    push_str(&mut s, " {#");
    push_str(&mut s, kind);
    push_str(&mut s, ".");
    push_str(&mut s, func);
    push_str(&mut s, "}\n");
    push_str(&mut s, "```sig\n");
    push_str(&mut s, kind);
    push_str(&mut s, " ");
    push_str(&mut s, plug);
    push_str(&mut s, ".");
    push_str(&mut s, func);
    if args.len() < 3 {
        push_str(&mut s, "(");
        let j = join_with(&texts, ", ");
        push_str(&mut s, j.as_str());
        push_str(&mut s, ")");
    } else {
        push_str(&mut s, "(\n    ");
        let j = join_with(&texts, ",\n    ");
        push_str(&mut s, j.as_str());
        push_str(&mut s, "\n)");
    }
    push_str(&mut s, "\n");
    push_str(&mut s, "```\n\n");
    push_str(&mut s, "### Arguments\n");
    let h = join_with(&lines, "\n");
    push_str(&mut s, h.as_str());
    push_str(&mut s, "\n\n");
    let d = deepen(help);
    push_str(&mut s, d.as_str());
    push_str(&mut s, "\n");
    assert(s@ =~= func_doc_text(kind@, plug@, func@, args@, help@));
    s
}

/// The first line of a help text, white space trimmed from both ends of the
/// whole text first.
pub open spec fn short_help_text(help: Seq<char>) -> Seq<char> {
    let t = trimmed(help, 0, help.len() as int);
    t.take(first_newline(t, 0))
}

/// The first newline at or after `i`, or the end.
pub open spec fn first_newline(s: Seq<char>, i: int) -> int
    decreases s.len() - i,
{
    if i >= s.len() {
        s.len() as int
    } else if s[i] == '\n' {
        i
    } else {
        first_newline(s, i + 1)
    }
}

/// The first line of a help text.
pub fn short_help(help: &str) -> (s: String)
    ensures
        s@ == short_help_text(help@),
{
    let v = chars_of(help);
    let t = trimmed_exec(&v, 0, v.len());
    let w = chars_of(t.as_str());
    let mut k: usize = 0;
    while k < w.len() && w[k] != '\n'
        invariant
            k <= w.len(),
            first_newline(w@, 0) == first_newline(w@, k as int),
        decreases w.len() - k,
    {
        k = k + 1;
    }
    proof {
        lemma_first_newline(w@, k as int);
    }
    let r = crate::text::substring(&w, 0, k);
    assert(r@ =~= w@.take(k as int));
    r
}

proof fn lemma_first_newline(s: Seq<char>, k: int)
    requires
        0 <= k <= s.len(),
        k == s.len() || s[k] == '\n',
    ensures
        first_newline(s, k) == k,
{
}

// ---------------------------------------------------------------------------
// Plugins and the registry.
// ---------------------------------------------------------------------------

/// The functions a plugin brought, by short name.
#[derive(Debug)]
pub struct PluginFunctions {
    env: Vec<String>,
    node: Vec<String>,
    network: Vec<String>,
}

pub struct PluginV {
    pub env: Seq<Seq<char>>,
    pub node: Seq<Seq<char>>,
    pub network: Seq<Seq<char>>,
}

pub open spec fn names_of(v: Seq<String>) -> Seq<Seq<char>> {
    v.map_values(|s: String| s@)
}

impl View for PluginFunctions {
    type V = PluginV;

    closed spec fn view(&self) -> PluginV {
        PluginV { env: names_of(self.env@), node: names_of(self.node@), network: names_of(self.network@) }
    }
}

/// The three kinds of functions.
#[derive(Clone, Copy, PartialEq, Eq, Debug, Structural)]
pub enum FnKind {
    Env,
    Node,
    Network,
}

/// `p` with `name` added to the functions of kind `k`.
pub open spec fn plugin_pushed(p: PluginV, k: FnKind, name: Seq<char>) -> PluginV {
    match k {
        FnKind::Env => PluginV { env: p.env.push(name), ..p },
        FnKind::Node => PluginV { node: p.node.push(name), ..p },
        FnKind::Network => PluginV { network: p.network.push(name), ..p },
    }
}

pub open spec fn plugin_empty() -> PluginV {
    PluginV { env: Seq::empty(), node: Seq::empty(), network: Seq::empty() }
}

impl Default for PluginFunctions {
    fn default() -> (p: Self)
        ensures
            p@ == plugin_empty(),
    {
        let p = PluginFunctions { env: Vec::new(), node: Vec::new(), network: Vec::new() };
        assert(p@.env =~= Seq::<Seq<char>>::empty());
        assert(p@.node =~= Seq::<Seq<char>>::empty());
        assert(p@.network =~= Seq::<Seq<char>>::empty());
        p
    }
}

impl PluginFunctions {
    fn push_kind(&mut self, k: FnKind, func: String)
        ensures
            final(self)@ == plugin_pushed(old(self)@, k, func@),
    {
        match k {
            FnKind::Env => self.push_env(func),
            FnKind::Node => self.push_node(func),
            FnKind::Network => self.push_network(func),
        }
    }

    pub fn with_network(self, func: String) -> (p: Self)
        ensures
            p@ == plugin_pushed(self@, FnKind::Network, func@),
    {
        let mut p = self;
        p.push_network(func);
        p
    }

    pub fn with_node(self, func: String) -> (p: Self)
        ensures
            p@ == plugin_pushed(self@, FnKind::Node, func@),
    {
        let mut p = self;
        p.push_node(func);
        p
    }

    pub fn with_env(self, func: String) -> (p: Self)
        ensures
            p@ == plugin_pushed(self@, FnKind::Env, func@),
    {
        let mut p = self;
        p.push_env(func);
        p
    }

    pub fn push_network(&mut self, func: String)
        ensures
            final(self)@ == plugin_pushed(old(self)@, FnKind::Network, func@),
    {
        let ghost f = func@;
        self.network.push(func);
        assert(names_of(self.network@) =~= names_of(old(self).network@).push(f));
    }

    pub fn push_node(&mut self, func: String)
        ensures
            final(self)@ == plugin_pushed(old(self)@, FnKind::Node, func@),
    {
        let ghost f = func@;
        self.node.push(func);
        assert(names_of(self.node@) =~= names_of(old(self).node@).push(f));
    }

    pub fn push_env(&mut self, func: String)
        ensures
            final(self)@ == plugin_pushed(old(self)@, FnKind::Env, func@),
    {
        let ghost f = func@;
        self.env.push(func);
        assert(names_of(self.env@) =~= names_of(old(self).env@).push(f));
    }

    pub fn network(&self) -> (v: &Vec<String>)
        ensures
            names_of(v@) == self@.network,
    {
        &self.network
    }

    pub fn node(&self) -> (v: &Vec<String>)
        ensures
            names_of(v@) == self@.node,
    {
        &self.node
    }

    pub fn env(&self) -> (v: &Vec<String>)
        ensures
            names_of(v@) == self@.env,
    {
        &self.env
    }
}

/// The full name of a function: `plugin.name`.
pub open spec fn full_name(prefix: Seq<char>, name: Seq<char>) -> Seq<char> {
    prefix + seq!['.'] + name
}

/// The plugins after a function `name` of kind `k` came with plugin
/// `prefix`.
pub open spec fn plugins_after(ps: Seq<(Seq<char>, PluginV)>, prefix: Seq<char>, k: FnKind, name: Seq<char>) -> Seq<(Seq<char>, PluginV)> {
    nupsert(ps, prefix, plugin_pushed(match nlookup(ps, prefix) {
        Some(p) => p,
        None => plugin_empty(),
    }, k, name))
}

pub open spec fn plugins_view(ps: Seq<(Seq<char>, PluginFunctions)>) -> Seq<(Seq<char>, PluginV)> {
    ps.map_values(|p: (Seq<char>, PluginFunctions)| (p.0, p.1@))
}

/// The function that a name calls: a full name (with a `.`) directly, a
/// short name through the aliases.
pub open spec fn resolve<F>(funcs: Seq<(Seq<char>, F)>, alias: Seq<(Seq<char>, String)>, name: Seq<char>) -> Option<F> {
    if name.contains('.') {
        nlookup(funcs, name)
    } else {
        match nlookup(alias, name) {
            Some(f) => nlookup(funcs, f@),
            None => None,
        }
    }
}

/// The warning a registration gives: the full name a short name called
/// before, where it called another function.
pub open spec fn replaced_alias(alias: Seq<(Seq<char>, String)>, name: Seq<char>, full: Seq<char>) -> Option<Seq<char>> {
    match nlookup(alias, name) {
        Some(o) => if o@ == full { None } else { Some(o@) },
        None => None,
    }
}

proof fn lemma_plugins_view_upsert(ps: Seq<(Seq<char>, PluginFunctions)>, k: Seq<char>, p: PluginFunctions)
    requires
        nunique(ps),
    ensures
        plugins_view(nupsert(ps, k, p)) == nupsert(plugins_view(ps), k, p@),
        nlookup(plugins_view(ps), k) == match nlookup(ps, k) {
            Some(x) => Some(x@),
            None => None::<PluginV>,
        },
        nunique(plugins_view(ps)),
{
    let v = plugins_view(ps);
    assert forall|a: int, b: int| 0 <= a < b < v.len() implies #[trigger] v[a].0 != #[trigger] v[b].0 by {
        assert(ps[a].0 != ps[b].0);
    }
    if exists|i: int| 0 <= i < ps.len() && #[trigger] ps[i].0 == k {
        let i = choose|i: int| 0 <= i < ps.len() && #[trigger] ps[i].0 == k;
        lemma_nentry(ps, i, p);
        assert(v[i].0 == k);
        lemma_nentry(v, i, p@);
        assert(plugins_view(ps.update(i, (k, p))) =~= v.update(i, (k, p@)));
    } else {
        assert(!(exists|i: int| 0 <= i < v.len() && #[trigger] v[i].0 == k)) by {
            if exists|i: int| 0 <= i < v.len() && #[trigger] v[i].0 == k {
                let i = choose|i: int| 0 <= i < v.len() && #[trigger] v[i].0 == k;
                assert(ps[i].0 == k);
            }
        }
        assert(plugins_view(ps.push((k, p))) =~= v.push((k, p@)));
    }
}

/// Registers `func` as `prefix.name` in `funcs`, points the short name at
/// it, and lists it with its plugin.
fn register_in<F>(
    funcs: &mut NameMap<F>,
    alias: &mut NameMap<String>,
    plugins: &mut NameMap<PluginFunctions>,
    k: FnKind,
    prefix: &str,
    name: String,
    func: F,
) -> (r: Option<String>)
    ensures
        final(funcs)@ == nupsert(old(funcs)@, full_name(prefix@, name@), func),
        exists|f: String| f@ == full_name(prefix@, name@) && final(alias)@ == nupsert(old(alias)@, name@, f),
        plugins_view(final(plugins)@) == plugins_after(plugins_view(old(plugins)@), prefix@, k, name@),
        match replaced_alias(old(alias)@, name@, full_name(prefix@, name@)) {
            Some(o) => r matches Some(s) && s@ == o,
            None => r is None,
        },
{
    let mut full = owned(prefix);
    push_char(&mut full, '.');
    push_str(&mut full, name.as_str());
    assert(full@ =~= full_name(prefix@, name@));
    funcs.insert(full.clone(), func);
    let old_alias = alias.insert(name.clone(), full.clone());
    let warn = match old_alias {
        Some(o) => if str_eq(o.as_str(), full.as_str()) {
            None
        } else {
            Some(o)
        },
        None => None,
    };
    let ghost ps0 = plugins@;
    let blank = PluginFunctions::default();
    let ghost blank0 = blank;
    let prev = plugins.insert(owned(prefix), blank);
    let mut p = match prev {
        Some(p) => p,
        None => PluginFunctions::default(),
    };
    p.push_kind(k, name);
    let ghost ps1 = plugins@;
    plugins.insert(owned(prefix), p);
    proof {
        lemma_nupsert_twice(ps0, prefix@, blank0, p);
        lemma_plugins_view_upsert(ps0, prefix@, p);
    }
    warn
}

/// The registry of functions. `E`, `N` and `W` are the environment, node
/// and network function objects, which the registry only keeps.
pub struct NadiFunctions<E, N, W> {
    env: NameMap<E>,
    env_alias: NameMap<String>,
    node: NameMap<N>,
    node_alias: NameMap<String>,
    network: NameMap<W>,
    network_alias: NameMap<String>,
    plugins: NameMap<PluginFunctions>,
}

impl<E, N, W> NadiFunctions<E, N, W> {
    pub closed spec fn env_view(&self) -> Seq<(Seq<char>, E)> {
        self.env@
    }

    pub closed spec fn env_alias_view(&self) -> Seq<(Seq<char>, String)> {
        self.env_alias@
    }

    pub closed spec fn node_view(&self) -> Seq<(Seq<char>, N)> {
        self.node@
    }

    pub closed spec fn node_alias_view(&self) -> Seq<(Seq<char>, String)> {
        self.node_alias@
    }

    pub closed spec fn network_view(&self) -> Seq<(Seq<char>, W)> {
        self.network@
    }

    pub closed spec fn network_alias_view(&self) -> Seq<(Seq<char>, String)> {
        self.network_alias@
    }

    pub closed spec fn plugins_view(&self) -> Seq<(Seq<char>, PluginV)> {
        plugins_view(self.plugins@)
    }

    /// An empty registry.
    pub fn new() -> (f: Self)
        ensures
            f.env_view().len() == 0,
            f.node_view().len() == 0,
            f.network_view().len() == 0,
            f.env_alias_view().len() == 0,
            f.node_alias_view().len() == 0,
            f.network_alias_view().len() == 0,
            f.plugins_view().len() == 0,
    {
        NadiFunctions {
            env: NameMap::new(),
            env_alias: NameMap::new(),
            node: NameMap::new(),
            node_alias: NameMap::new(),
            network: NameMap::new(),
            network_alias: NameMap::new(),
            plugins: NameMap::new(),
        }
    }

    /// Registers network function `func` named `name` from plugin
    /// `prefix`; gives the full name the short name called before, where it
    /// called another function.
    pub fn register_network_function(&mut self, prefix: &str, name: String, func: W) -> (r: Option<String>)
        ensures
            final(self).network_view() == nupsert(old(self).network_view(), full_name(prefix@, name@), func),
            exists|f: String| f@ == full_name(prefix@, name@)
                && final(self).network_alias_view() == nupsert(old(self).network_alias_view(), name@, f),
            final(self).plugins_view() == plugins_after(old(self).plugins_view(), prefix@, FnKind::Network, name@),
            final(self).env_view() == old(self).env_view(),
            final(self).node_view() == old(self).node_view(),
            final(self).env_alias_view() == old(self).env_alias_view(),
            final(self).node_alias_view() == old(self).node_alias_view(),
            match replaced_alias(old(self).network_alias_view(), name@, full_name(prefix@, name@)) {
                Some(o) => r matches Some(s) && s@ == o,
                None => r is None,
            },
    {
        register_in(&mut self.network, &mut self.network_alias, &mut self.plugins, FnKind::Network, prefix, name, func)
    }

    /// Registers node function `func` (see `register_network_function`).
    pub fn register_node_function(&mut self, prefix: &str, name: String, func: N) -> (r: Option<String>)
        ensures
            final(self).node_view() == nupsert(old(self).node_view(), full_name(prefix@, name@), func),
            exists|f: String| f@ == full_name(prefix@, name@)
                && final(self).node_alias_view() == nupsert(old(self).node_alias_view(), name@, f),
            final(self).plugins_view() == plugins_after(old(self).plugins_view(), prefix@, FnKind::Node, name@),
            final(self).env_view() == old(self).env_view(),
            final(self).network_view() == old(self).network_view(),
            final(self).env_alias_view() == old(self).env_alias_view(),
            final(self).network_alias_view() == old(self).network_alias_view(),
            match replaced_alias(old(self).node_alias_view(), name@, full_name(prefix@, name@)) {
                Some(o) => r matches Some(s) && s@ == o,
                None => r is None,
            },
    {
        register_in(&mut self.node, &mut self.node_alias, &mut self.plugins, FnKind::Node, prefix, name, func)
    }

    /// Registers environment function `func` (see
    /// `register_network_function`).
    pub fn register_env_function(&mut self, prefix: &str, name: String, func: E) -> (r: Option<String>)
        ensures
            final(self).env_view() == nupsert(old(self).env_view(), full_name(prefix@, name@), func),
            exists|f: String| f@ == full_name(prefix@, name@)
                && final(self).env_alias_view() == nupsert(old(self).env_alias_view(), name@, f),
            final(self).plugins_view() == plugins_after(old(self).plugins_view(), prefix@, FnKind::Env, name@),
            final(self).node_view() == old(self).node_view(),
            final(self).network_view() == old(self).network_view(),
            final(self).node_alias_view() == old(self).node_alias_view(),
            final(self).network_alias_view() == old(self).network_alias_view(),
            match replaced_alias(old(self).env_alias_view(), name@, full_name(prefix@, name@)) {
                Some(o) => r matches Some(s) && s@ == o,
                None => r is None,
            },
    {
        register_in(&mut self.env, &mut self.env_alias, &mut self.plugins, FnKind::Env, prefix, name, func)
    }

    /// The environment function a name calls.
    pub fn env(&self, func: &str) -> (r: Option<&E>)
        ensures
            match r {
                Some(f) => resolve(self.env_view(), self.env_alias_view(), func@) == Some(*f),
                None => resolve(self.env_view(), self.env_alias_view(), func@) is None,
            },
    {
        lookup_in(&self.env, &self.env_alias, func)
    }

    /// The node function a name calls.
    pub fn node(&self, func: &str) -> (r: Option<&N>)
        ensures
            match r {
                Some(f) => resolve(self.node_view(), self.node_alias_view(), func@) == Some(*f),
                None => resolve(self.node_view(), self.node_alias_view(), func@) is None,
            },
    {
        lookup_in(&self.node, &self.node_alias, func)
    }

    /// The network function a name calls.
    pub fn network(&self, func: &str) -> (r: Option<&W>)
        ensures
            match r {
                Some(f) => resolve(self.network_view(), self.network_alias_view(), func@) == Some(*f),
                None => resolve(self.network_view(), self.network_alias_view(), func@) is None,
            },
    {
        lookup_in(&self.network, &self.network_alias, func)
    }

    pub fn env_functions(&self) -> (m: &NameMap<E>)
        ensures
            m@ == self.env_view(),
    {
        &self.env
    }

    pub fn env_alias(&self) -> (m: &NameMap<String>)
        ensures
            m@ == self.env_alias_view(),
    {
        &self.env_alias
    }

    pub fn node_functions(&self) -> (m: &NameMap<N>)
        ensures
            m@ == self.node_view(),
    {
        &self.node
    }

    pub fn node_alias(&self) -> (m: &NameMap<String>)
        ensures
            m@ == self.node_alias_view(),
    {
        &self.node_alias
    }

    pub fn network_functions(&self) -> (m: &NameMap<W>)
        ensures
            m@ == self.network_view(),
    {
        &self.network
    }

    pub fn network_alias(&self) -> (m: &NameMap<String>)
        ensures
            m@ == self.network_alias_view(),
    {
        &self.network_alias
    }

    pub fn plugins(&self) -> (m: &NameMap<PluginFunctions>)
        ensures
            plugins_view(m@) == self.plugins_view(),
    {
        &self.plugins
    }
}

fn contains_dot(s: &str) -> (b: bool)
    ensures
        b == s@.contains('.'),
{
    let v = chars_of(s);
    let mut i: usize = 0;
    while i < v.len()
        invariant
            i <= v.len(),
            v@ == s@,
            forall|j: int| 0 <= j < i ==> v@[j] != '.',
        decreases v.len() - i,
    {
        if v[i] == '.' {
            assert(v@[i as int] == '.');
            return true;
        }
        i = i + 1;
    }
    false
}

fn lookup_in<'a, F>(funcs: &'a NameMap<F>, alias: &'a NameMap<String>, func: &str) -> (r: Option<&'a F>)
    ensures
        match r {
            Some(f) => resolve(funcs@, alias@, func@) == Some(*f),
            None => resolve(funcs@, alias@, func@) is None,
        },
{
    if contains_dot(func) {
        funcs.get(func)
    } else {
        match alias.get(func) {
            Some(f) => funcs.get(f.as_str()),
            None => None,
        }
    }
}

// ---------------------------------------------------------------------------
// Lists of functions.
// ---------------------------------------------------------------------------

/// The plugin and the short name in a full name: the parts around its
/// first `.`, or `null` and the whole name.
pub open spec fn split_full(f: Seq<char>) -> (Seq<char>, Seq<char>) {
    let k = find_char(f, 0, '.');
    if k < f.len() {
        (f.take(k), f.skip(k + 1))
    } else {
        ("null"@, f)
    }
}

/// A row of the list of functions: plugin, name and short help; with
/// `link`, the plugin and the name are links into the plugin's page, at the
/// anchor `kind.name`.
pub open spec fn fn_row(full: Seq<char>, kind: Seq<char>, help: Seq<char>, link: bool) -> Seq<Seq<char>> {
    let (p, n) = split_full(full);
    if link {
        seq!["[`"@ + p + "`]("@ + p + ".md)"@, "[`"@ + n + "`]("@ + p + ".md#"@ + kind + "."@ + n + ")"@, help]
    } else {
        seq![p, n, help]
    }
}

/// The rows for the functions `funcs`, with their short helps `helps`.
pub open spec fn fn_rows<F>(funcs: Seq<(Seq<char>, F)>, kind: Seq<char>, helps: Seq<Seq<char>>, link: bool) -> Seq<Seq<Seq<char>>> {
    Seq::new(funcs.len(), |i: int| fn_row(funcs[i].0, kind, helps[i], link))
}

/// The markdown table of a list of functions.
pub open spec fn functions_md(rows: Seq<Seq<Seq<char>>>) -> Seq<char> {
    markdown(seq!["Plugin"@, "Function"@, "Help"@], seq![ColumnAlign::Left, ColumnAlign::Left, ColumnAlign::Left], rows)
}

/// The row of one function (see `fn_row`).
pub fn function_row(full: &str, kind: &str, help: &str, link: bool) -> (r: Vec<String>)
    ensures
        crate::table::string_views(r@) == fn_row(full@, kind@, help@, link),
{
    let v = chars_of(full);
    let mut k: usize = 0;
    while k < v.len() && v[k] != '.'
        invariant
            k <= v.len(),
            v@ == full@,
            find_char(v@, 0, '.') == find_char(v@, k as int, '.'),
        decreases v.len() - k,
    {
        k = k + 1;
    }
    proof {
        lemma_find_char(v@, k as int, '.');
    }
    let (p, n) = if k < v.len() {
        (crate::text::substring(&v, 0, k), crate::text::substring(&v, k + 1, v.len()))
    } else {
        proof {
            reveal_strlit("null");
        }
        (owned("null"), owned(full))
    };
    assert(p@ == split_full(full@).0 && n@ == split_full(full@).1) by {
        if k < v.len() {
            assert(v@.subrange(0, k as int) =~= full@.take(k as int));
            assert(v@.subrange(k + 1, v.len() as int) =~= full@.skip(k + 1));
        }
    }
    let mut r: Vec<String> = Vec::new();
    if link {
        let mut a = owned("[`");
        push_str(&mut a, p.as_str());
        push_str(&mut a, "`](");
        push_str(&mut a, p.as_str());
        push_str(&mut a, ".md)");
        let mut b = owned("[`");
        push_str(&mut b, n.as_str());
        push_str(&mut b, "`](");
        push_str(&mut b, p.as_str());
        push_str(&mut b, ".md#");
        push_str(&mut b, kind);
        push_str(&mut b, ".");
        push_str(&mut b, n.as_str());
        push_str(&mut b, ")");
        r.push(a);
        r.push(b);
    } else {
        r.push(p);
        r.push(n);
    }
    r.push(owned(help));
    assert(crate::table::string_views(r@) =~= fn_row(full@, kind@, help@, link));
    r
}

fn rows_of<F>(funcs: &NameMap<F>, kind: &str, helps: &Vec<String>, link: bool) -> (rows: Vec<Vec<String>>)
    requires
        helps.len() == funcs@.len(),
    ensures
        rows_view(rows@) == fn_rows(funcs@, kind@, names_of(helps@), link),
        forall|r: int| 0 <= r < rows@.len() ==> #[trigger] rows@[r]@.len() >= 3,
{
    let e = funcs.entries();
    let ghost fv = funcs@;
    let mut rows: Vec<Vec<String>> = Vec::new();
    let mut i: usize = 0;
    while i < e.len()
        invariant
            i <= e.len(),
            nentries_view(e@) == fv,
            fv == funcs@,
            helps.len() == fv.len(),
            rows_view(rows@) == fn_rows(fv, kind@, names_of(helps@), link).take(i as int),
            forall|r: int| 0 <= r < rows@.len() ==> #[trigger] rows@[r]@.len() >= 3,
        decreases e.len() - i,
    {
        let row = function_row(e[i].0.as_str(), kind, helps[i].as_str(), link);
        let ghost r0 = rows@;
        proof {
            assert(fv[i as int].0 == e@[i as int].0@);
            assert(names_of(helps@)[i as int] == helps@[i as int]@);
            assert(crate::table::string_views(row@).len() == 3);
        }
        let ghost rv = crate::table::string_views(row@);
        rows.push(row);
        proof {
            assert(rows_view(rows@) =~= rows_view(r0).push(rv));
            let fr = fn_rows(fv, kind@, names_of(helps@), link);
            assert(fr.take(i + 1) =~= fr.take(i as int).push(fr[i as int]));
            assert(rows_view(rows@) =~= fr.take(i + 1));
        }
        i = i + 1;
    }
    assert(fn_rows(fv, kind@, names_of(helps@), link).take(i as int) =~= fn_rows(fv, kind@, names_of(helps@), link));
    rows
}

fn list_md<F>(funcs: &NameMap<F>, kind: &str, helps: &Vec<String>, link: bool) -> (md: String)
    requires
        helps.len() == funcs@.len(),
    ensures
        md@ == functions_md(fn_rows(funcs@, kind@, names_of(helps@), link)),
{
    let rows = rows_of(funcs, kind, helps, link);
    let mut h: Vec<&str> = Vec::new();
    h.push("Plugin");
    h.push("Function");
    h.push("Help");
    let l = ColumnAlign::Left;
    let mut a: Vec<&ColumnAlign> = Vec::new();
    a.push(&l);
    a.push(&l);
    a.push(&l);
    assert(str_views(h@) =~= seq!["Plugin"@, "Function"@, "Help"@]);
    assert(deref_aligns(a@) =~= seq![ColumnAlign::Left, ColumnAlign::Left, ColumnAlign::Left]);
    contents_2_md(h.as_slice(), a.as_slice(), rows)
}

impl<E, N, W> NadiFunctions<E, N, W> {
    /// Markdown tables of the node, network and environment functions:
    /// plugin, name and short help (the helps are given in the order of the
    /// functions), as links into the plugins' pages with `link`; a link's
    /// anchor is the kind and name that the function's section on its page
    /// carries (see `func_doc_text`).
    pub fn list_functions_md(&self, link: bool, node_help: &Vec<String>, net_help: &Vec<String>, env_help: &Vec<String>) -> (r: (String, String, String))
        requires
            node_help.len() == self.node_view().len(),
            net_help.len() == self.network_view().len(),
            env_help.len() == self.env_view().len(),
        ensures
            r.0@ == functions_md(fn_rows(self.node_view(), "node"@, names_of(node_help@), link)),
            r.1@ == functions_md(fn_rows(self.network_view(), "network"@, names_of(net_help@), link)),
            r.2@ == functions_md(fn_rows(self.env_view(), "env"@, names_of(env_help@), link)),
    {
        (
            list_md(&self.node, "node", node_help, link),
            list_md(&self.network, "network", net_help, link),
            list_md(&self.env, "env", env_help, link),
        )
    }
}

} // verus!
