//! What node and network functions are applied to: conditions on nodes,
//! the order nodes are visited in, and function results.
use vstd::prelude::*;
use crate::attrs::{AttrMap, Attribute, Val, lookup, upsert, unique_keys, law_read_after_write, entries_view, type_name_of, Date, Time, DateTime, Offset};
use crate::network::{StrPath, StrPathV};
use crate::convert::{FromAttribute, FromAttributeRelaxed, missing_error, strict_error, relaxed_error};
use crate::node::NodeInner;
use crate::values::{find_char, lemma_find_char};
use crate::text::{chars_of, owned, push_str, push_decimal, decimal, substring, str_eq};

verus! {

/// A condition on a node's attributes.
#[derive(Debug)]
pub enum Condition {
    /// the attribute, read as a boolean
    Variable(String),
    /// the value, read as a boolean
    Literal(Attribute),
    /// the attribute equals the value
    Eq(String, Box<Condition>),
    /// the attribute is greater than the value
    Gt(String, Box<Condition>),
    /// the attribute is less than the value
    Lt(String, Box<Condition>),
    Not(Box<Condition>),
    And(Box<Condition>, Box<Condition>),
    Or(Box<Condition>, Box<Condition>),
}

/// The mathematical form of a condition.
pub enum CondV {
    Variable(Seq<char>),
    Literal(Val),
    Eq(Seq<char>, Box<CondV>),
    Gt(Seq<char>, Box<CondV>),
    Lt(Seq<char>, Box<CondV>),
    Not(Box<CondV>),
    And(Box<CondV>, Box<CondV>),
    Or(Box<CondV>, Box<CondV>),
}

pub open spec fn cond_view(c: Condition) -> CondV
    decreases c,
{
    match c {
        Condition::Variable(s) => CondV::Variable(s@),
        Condition::Literal(a) => CondV::Literal(a@),
        Condition::Eq(v, b) => CondV::Eq(v@, Box::new(cond_view(*b))),
        Condition::Gt(v, b) => CondV::Gt(v@, Box::new(cond_view(*b))),
        Condition::Lt(v, b) => CondV::Lt(v@, Box::new(cond_view(*b))),
        Condition::Not(b) => CondV::Not(Box::new(cond_view(*b))),
        Condition::And(a, b) => CondV::And(Box::new(cond_view(*a)), Box::new(cond_view(*b))),
        Condition::Or(a, b) => CondV::Or(Box::new(cond_view(*a)), Box::new(cond_view(*b))),
    }
}

impl View for Condition {
    type V = CondV;

    open spec fn view(&self) -> CondV {
        cond_view(*self)
    }
}

/// The order in which nodes are visited, or which nodes are.
#[derive(Debug)]
pub enum Propagation {
    /// in the network's order
    Sequential,
    /// in reverse order
    Inverse,
    /// inputs before the nodes they flow into
    InputsFirst,
    /// outputs before their inputs
    OutputFirst,
    /// the nodes where the condition holds
    Conditional(Condition),
    /// the nodes where the condition holds; missing attributes are errors
    ConditionalStrict(Condition),
    /// as strict, and compared values must have the same type
    ConditionalSuperStrict(Condition),
    /// the nodes with these names
    List(Vec<String>),
    /// the nodes on the path between two nodes
    Path(StrPath),
}

/// The mathematical form of a propagation.
pub enum PropV {
    Sequential,
    Inverse,
    InputsFirst,
    OutputFirst,
    Conditional(CondV),
    ConditionalStrict(CondV),
    ConditionalSuperStrict(CondV),
    List(Seq<Seq<char>>),
    Path(StrPathV),
}

pub open spec fn string_seq_view(v: Seq<String>) -> Seq<Seq<char>> {
    v.map_values(|s: String| s@)
}

impl View for Propagation {
    type V = PropV;

    open spec fn view(&self) -> PropV {
        match self {
            Propagation::Sequential => PropV::Sequential,
            Propagation::Inverse => PropV::Inverse,
            Propagation::InputsFirst => PropV::InputsFirst,
            Propagation::OutputFirst => PropV::OutputFirst,
            Propagation::Conditional(c) => PropV::Conditional(c@),
            Propagation::ConditionalStrict(c) => PropV::ConditionalStrict(c@),
            Propagation::ConditionalSuperStrict(c) => PropV::ConditionalSuperStrict(c@),
            Propagation::List(v) => PropV::List(string_seq_view(v@)),
            Propagation::Path(p) => PropV::Path(p@),
        }
    }
}

impl Default for Propagation {
    fn default() -> (p: Self)
        ensures
            p@ == PropV::Sequential,
    {
        Propagation::Sequential
    }
}

/// A copy of a condition.
pub fn clone_cond(c: &Condition) -> (r: Condition)
    ensures
        r@ == c@,
    decreases c,
{
    match c {
        Condition::Variable(s) => Condition::Variable(s.clone()),
        Condition::Literal(a) => Condition::Literal(crate::attrs::clone_attr(a)),
        Condition::Eq(v, b) => Condition::Eq(v.clone(), Box::new(clone_cond(b))),
        Condition::Gt(v, b) => Condition::Gt(v.clone(), Box::new(clone_cond(b))),
        Condition::Lt(v, b) => Condition::Lt(v.clone(), Box::new(clone_cond(b))),
        Condition::Not(b) => Condition::Not(Box::new(clone_cond(b))),
        Condition::And(a, b) => Condition::And(Box::new(clone_cond(a)), Box::new(clone_cond(b))),
        Condition::Or(a, b) => Condition::Or(Box::new(clone_cond(a)), Box::new(clone_cond(b))),
    }
}

/// A copy of a path.
pub fn clone_path(p: &StrPath) -> (r: StrPath)
    ensures
        r@ == p@,
{
    StrPath {
        start: p.start.clone(),
        end: p.end.clone(),
        attributes: match &p.attributes {
            Some(a) => Some(crate::attrs::clone_map(a)),
            None => None,
        },
    }
}

/// A copy of a propagation.
pub fn clone_prop(p: &Propagation) -> (r: Propagation)
    ensures
        r@ == p@,
{
    match p {
        Propagation::Sequential => Propagation::Sequential,
        Propagation::Inverse => Propagation::Inverse,
        Propagation::InputsFirst => Propagation::InputsFirst,
        Propagation::OutputFirst => Propagation::OutputFirst,
        Propagation::Conditional(c) => Propagation::Conditional(clone_cond(c)),
        Propagation::ConditionalStrict(c) => Propagation::ConditionalStrict(clone_cond(c)),
        Propagation::ConditionalSuperStrict(c) => Propagation::ConditionalSuperStrict(clone_cond(c)),
        Propagation::List(v) => {
            let mut w: Vec<String> = Vec::new();
            let mut i: usize = 0;
            while i < v.len()
                invariant
                    i <= v.len(),
                    string_seq_view(w@) == string_seq_view(v@).take(i as int),
                decreases v.len() - i,
            {
                let c = v[i].clone();
                let ghost w0 = w@;
                w.push(c);
                assert(string_seq_view(w@) =~= string_seq_view(w0).push(c@));
                assert(string_seq_view(v@).take(i + 1) =~= string_seq_view(v@).take(i as int).push(v@[i as int]@));
                i = i + 1;
            }
            assert(string_seq_view(v@).take(v.len() as int) =~= string_seq_view(v@));
            Propagation::List(w)
        },
        Propagation::Path(sp) => Propagation::Path(clone_path(sp)),
    }
}

// ---------------------------------------------------------------------------
// Dotted attribute names.
// ---------------------------------------------------------------------------

/// The value under the dotted name `s[i..]`: each part before a `.` names
/// a table inside which the rest is looked up.
pub open spec fn dot_lookup(t: Seq<(Seq<char>, Val)>, s: Seq<char>, i: int) -> Result<Option<Val>, Seq<char>>
    decreases s.len() - i,
{
    if !(0 <= i <= s.len()) {
        Ok(None)
    } else {
        let k = find_char(s, i, '.');
        let key = s.subrange(i, k);
        match lookup(t, key) {
            None => Ok(None),
            Some(v) => if k >= s.len() {
                Ok(Some(v))
            } else {
                proof {
                    lemma_find_char(s, i, '.');
                }
                match v {
                    Val::Table(t2) => dot_lookup(t2, s, k + 1),
                    _ => Err("Attribute "@ + key + " is not a table"@),
                }
            },
        }
    }
}

impl AttrMap {
    /// The value under a dotted name `a.b.c`: `c` in table `b` in table
    /// `a`. It is an error for a part before a `.` to name a value that is
    /// not a table.
    pub fn attr_dot(&self, name: &str) -> (r: Result<Option<&Attribute>, String>)
        ensures
            match (r, dot_lookup(self@, name@, 0)) {
                (Ok(Some(a)), Ok(Some(v))) => a@ == v,
                (Ok(None), Ok(None)) => true,
                (Err(m), Err(w)) => m@ == w,
                _ => false,
            },
    {
        let v = chars_of(name);
        let n = v.len();
        let mut cur: &AttrMap = self;
        let mut i: usize = 0;
        loop
            invariant
                v@ == name@,
                n == v@.len(),
                i <= n,
                dot_lookup(self@, name@, 0) == dot_lookup(cur@, name@, i as int),
            decreases n - i,
        {
            let mut k = i;
            while k < n && v[k] != '.'
                invariant
                    i <= k <= n,
                    n == v@.len(),
                    forall|j: int| i <= j < k ==> v@[j] != '.',
                    find_char(v@, i as int, '.') == find_char(v@, k as int, '.'),
                decreases n - k,
            {
                k = k + 1;
            }
            proof {
                lemma_find_char(v@, i as int, '.');
            }
            let key = substring(&v, i, k);
            match cur.get(key.as_str()) {
                None => return Ok(None),
                Some(a) => {
                    if k >= n {
                        return Ok(Some(a));
                    }
                    match a {
                        Attribute::Table(t) => {
                            cur = t;
                            i = k + 1;
                        },
                        _ => {
                            let mut m = owned("Attribute ");
                            push_str(&mut m, key.as_str());
                            push_str(&mut m, " is not a table");
                            return Err(m);
                        },
                    }
                },
            }
        }
    }
}

/// `t` with the value under the dotted name `s[i..]` set to `v` (tables
/// made where a part before a `.` is missing), with the value it held; an
/// error where a part before a `.` names a value that is not a table.
pub open spec fn dot_set(t: Seq<(Seq<char>, Val)>, s: Seq<char>, i: int, v: Val) -> Result<(Seq<(Seq<char>, Val)>, Option<Val>), Seq<char>>
    decreases s.len() - i,
{
    if !(0 <= i <= s.len()) {
        Ok((t, None))
    } else {
        let k = find_char(s, i, '.');
        let key = s.subrange(i, k);
        if k >= s.len() {
            Ok((upsert(t, key, v), lookup(t, key)))
        } else {
            proof {
                lemma_find_char(s, i, '.');
            }
            let inner: Option<Seq<(Seq<char>, Val)>> = match lookup(t, key) {
                None => Some(Seq::empty()),
                Some(Val::Table(t2)) => Some(t2),
                Some(_) => None,
            };
            match inner {
                None => Err("Attribute "@ + key + " is not a table"@),
                Some(t2) => match dot_set(t2, s, k + 1, v) {
                    Ok((t3, old)) => Ok((upsert(t, key, Val::Table(t3)), old)),
                    Err(e) => Err(e),
                },
            }
        }
    }
}

/// Each table that the dotted name `s[i..]` passes through has unique keys.
pub open spec fn path_unique(t: Seq<(Seq<char>, Val)>, s: Seq<char>, i: int) -> bool
    decreases s.len() - i,
{
    &&& unique_keys(t)
    &&& (0 <= i <= s.len() ==> {
        let k = find_char(s, i, '.');
        k < s.len() ==> match lookup(t, s.subrange(i, k)) {
            Some(Val::Table(t2)) => {
                proof {
                    lemma_find_char(s, i, '.');
                }
                path_unique(t2, s, k + 1)
            },
            _ => true,
        }
    })
}

/// A dotted set that succeeds gives back the value a dotted read gave
/// before it, and a dotted read after it gives the value set.
pub proof fn law_dotted_read_after_write(t: Seq<(Seq<char>, Val)>, s: Seq<char>, v: Val)
    requires
        path_unique(t, s, 0),
    ensures
        dot_set(t, s, 0, v) matches Ok((t2, old)) ==> dot_lookup(t2, s, 0) == Ok::<Option<Val>, Seq<char>>(Some(v))
            && dot_lookup(t, s, 0) == Ok::<Option<Val>, Seq<char>>(old),
{
    lemma_dotted_read_after_write(t, s, 0, v);
}

/// A dotted set keeps the tables along its path with unique keys.
pub proof fn lemma_dot_set_keeps_unique(t: Seq<(Seq<char>, Val)>, s: Seq<char>, i: int, v: Val)
    requires
        0 <= i <= s.len(),
        path_unique(t, s, i),
    ensures
        dot_set(t, s, i, v) matches Ok((t2, _)) ==> path_unique(t2, s, i),
    decreases s.len() - i,
{
    lemma_find_char(s, i, '.');
    let k = find_char(s, i, '.');
    let key = s.subrange(i, k);
    if k < s.len() {
        match lookup(t, key) {
            None => {
                let e: Seq<(Seq<char>, Val)> = Seq::empty();
                assert(path_unique(e, s, k + 1));
                lemma_dot_set_keeps_unique(e, s, k + 1, v);
                if let Ok((t3, old)) = dot_set(e, s, k + 1, v) {
                    law_read_after_write(t, key, Val::Table(t3));
                }
            },
            Some(Val::Table(t2)) => {
                lemma_dot_set_keeps_unique(t2, s, k + 1, v);
                if let Ok((t3, old)) = dot_set(t2, s, k + 1, v) {
                    law_read_after_write(t, key, Val::Table(t3));
                }
            },
            _ => {},
        }
    } else {
        law_read_after_write(t, key, v);
    }
}

pub proof fn lemma_dotted_read_after_write(t: Seq<(Seq<char>, Val)>, s: Seq<char>, i: int, v: Val)
    requires
        0 <= i <= s.len(),
        path_unique(t, s, i),
    ensures
        dot_set(t, s, i, v) matches Ok((t2, old)) ==> dot_lookup(t2, s, i) == Ok::<Option<Val>, Seq<char>>(Some(v))
            && dot_lookup(t, s, i) == Ok::<Option<Val>, Seq<char>>(old),
    decreases s.len() - i,
{
    lemma_find_char(s, i, '.');
    let k = find_char(s, i, '.');
    let key = s.subrange(i, k);
    if k < s.len() {
        match lookup(t, key) {
            None => {
                let e: Seq<(Seq<char>, Val)> = Seq::empty();
                assert(path_unique(e, s, k + 1));
                lemma_dotted_read_after_write(e, s, k + 1, v);
                if let Ok((t3, old)) = dot_set(e, s, k + 1, v) {
                    law_read_after_write(t, key, Val::Table(t3));
                    lemma_find_char(s, k + 1, '.');
                    assert(lookup(e, s.subrange(k + 1, find_char(s, k + 1, '.'))) is None);
                }
            },
            Some(Val::Table(t2)) => {
                lemma_dotted_read_after_write(t2, s, k + 1, v);
                if let Ok((t3, old)) = dot_set(t2, s, k + 1, v) {
                    law_read_after_write(t, key, Val::Table(t3));
                }
            },
            _ => {},
        }
    } else {
        law_read_after_write(t, key, v);
    }
}

/// The result of a dotted set agrees with the spec-level one.
pub open spec fn set_agrees(r: Result<Option<Attribute>, String>, before: Seq<(Seq<char>, Val)>, after: Seq<(Seq<char>, Val)>, s: Result<(Seq<(Seq<char>, Val)>, Option<Val>), Seq<char>>) -> bool {
    match (r, s) {
        (Ok(o), Ok((t, w))) => after == t && match (o, w) {
            (Some(a), Some(x)) => a@ == x,
            (None, None) => true,
            _ => false,
        },
        (Err(m), Err(e)) => m@ == e && after == before,
        _ => false,
    }
}

impl AttrMap {
    /// Sets the value under a dotted name `a.b.c`: `c` in table `b` in
    /// table `a`, making the tables that are missing; gives back the value
    /// it replaces. It is an error for a part before a `.` to name a value
    /// that is not a table; nothing changes then.
    pub fn set_attr_dot(&mut self, name: &str, val: Attribute) -> (r: Result<Option<Attribute>, String>)
        ensures
            set_agrees(r, old(self)@, final(self)@, dot_set(old(self)@, name@, 0, val@)),
    {
        let v = chars_of(name);
        self.set_dot_from(&v, 0, val)
    }

    fn set_dot_from(&mut self, v: &Vec<char>, i: usize, val: Attribute) -> (r: Result<Option<Attribute>, String>)
        requires
            i <= v.len(),
        ensures
            set_agrees(r, old(self)@, final(self)@, dot_set(old(self)@, v@, i as int, val@)),
        decreases v.len() - i,
    {
        let ghost m0 = self@;
        let n = v.len();
        let mut k = i;
        while k < n && v[k] != '.'
            invariant
                i <= k <= n,
                n == v@.len(),
                find_char(v@, i as int, '.') == find_char(v@, k as int, '.'),
            decreases n - k,
        {
            k = k + 1;
        }
        proof {
            lemma_find_char(v@, i as int, '.');
        }
        let key = substring(v, i, k);
        if k >= n {
            let old = self.insert(key, val);
            return Ok(old);
        }
        let present = match self.get(key.as_str()) {
            Some(Attribute::Table(_)) => 1u8,
            Some(_) => 2u8,
            None => 0u8,
        };
        if present == 2 {
            let mut m = owned("Attribute ");
            push_str(&mut m, key.as_str());
            push_str(&mut m, " is not a table");
            return Err(m);
        }
        if present == 0 {
            let mut t = AttrMap::new();
            let r = t.set_dot_from(v, k + 1, val);
            match r {
                Ok(o) => {
                    self.insert(key, Attribute::Table(t));
                    Ok(o)
                },
                Err(e) => Err(e),
            }
        } else {
            let ghost kv = key@;
            let taken = self.insert(key.clone(), Attribute::Table(AttrMap::new()));
            match taken {
                Some(Attribute::Table(mut t)) => {
                    let ghost t0 = t@;
                    let r = t.set_dot_from(v, k + 1, val);
                    let ghost m1 = self@;
                    self.insert(key, Attribute::Table(t));
                    proof {
                        crate::attrs::lemma_upsert_twice(m0, kv, Val::Table(Seq::empty()), Val::Table(t@));
                        if r is Err {
                            crate::attrs::lemma_upsert_twice(m0, kv, Val::Table(t0), Val::Table(t0));
                        }
                    }
                    r
                },
                _ => {
                    assert(false);
                    Err(owned(""))
                },
            }
        }
    }
}

// ---------------------------------------------------------------------------
// Comparing values.
// ---------------------------------------------------------------------------

/// The result of comparing two values.
#[derive(Clone, Copy, PartialEq, Eq, Debug, Structural)]
pub enum Relation {
    Less,
    Equal,
    Greater,
}

pub open spec fn compare_int(a: int, b: int) -> Relation {
    if a < b { Relation::Less } else if a == b { Relation::Equal } else { Relation::Greater }
}

/// Comparing the first of several keys, then the next where they are
/// equal.
pub open spec fn then(c: Relation, d: Relation) -> Relation {
    if c == Relation::Equal { d } else { c }
}

/// Lexicographic comparison of texts, character by character.
pub open spec fn compare_text(a: Seq<char>, b: Seq<char>) -> Relation
    decreases a.len(),
{
    if a.len() == 0 {
        if b.len() == 0 { Relation::Equal } else { Relation::Less }
    } else if b.len() == 0 {
        Relation::Greater
    } else {
        then(compare_int(a[0] as int, b[0] as int), compare_text(a.drop_first(), b.drop_first()))
    }
}

/// A float given by its bits is not a number.
pub open spec fn nan_bits(b: u64) -> bool {
    (b >> 52u64) & 0x7ffu64 == 0x7ffu64 && b & 0xf_ffff_ffff_ffffu64 != 0
}

/// The position of a float (given by its bits) on the number line: the
/// magnitude, negated for negative numbers; both zeros are 0.
pub open spec fn float_key(b: u64) -> int {
    let mag = (b & 0x7fff_ffff_ffff_ffffu64) as int;
    if b >> 63u64 == 1u64 { -mag } else { mag }
}

pub open spec fn compare_date(a: Date, b: Date) -> Relation {
    then(compare_int(a.year as int, b.year as int), then(compare_int(a.month as int, b.month as int), compare_int(a.day as int, b.day as int)))
}

pub open spec fn compare_time(a: Time, b: Time) -> Relation {
    then(compare_int(a.hour as int, b.hour as int), then(compare_int(a.min as int, b.min as int),
        then(compare_int(a.sec as int, b.sec as int), compare_int(a.nanosecond as int, b.nanosecond as int))))
}

/// Offsets: none before some; then by hours, minutes, and west before east.
pub open spec fn compare_offset(a: Option<Offset>, b: Option<Offset>) -> Relation {
    match (a, b) {
        (None, None) => Relation::Equal,
        (None, Some(_)) => Relation::Less,
        (Some(_), None) => Relation::Greater,
        (Some(x), Some(y)) => then(compare_int(x.hour as int, y.hour as int), then(compare_int(x.min as int, y.min as int),
            compare_int(if x.east { 1 } else { 0 }, if y.east { 1 } else { 0 }))),
    }
}

/// How two values compare: values of the same kind by their natural
/// order (texts character by character, dates and times field by field,
/// floats as numbers); `None` for values of different kinds, arrays,
/// tables and NaN.
pub open spec fn val_compare(a: Val, b: Val) -> Option<Relation> {
    match (a, b) {
        (Val::Bool(x), Val::Bool(y)) => Some(compare_int(if x { 1 } else { 0 }, if y { 1 } else { 0 })),
        (Val::Integer(x), Val::Integer(y)) => Some(compare_int(x as int, y as int)),
        (Val::Float(x), Val::Float(y)) => if nan_bits(x) || nan_bits(y) {
            None
        } else {
            Some(compare_int(float_key(x), float_key(y)))
        },
        (Val::Str(x), Val::Str(y)) => Some(compare_text(x, y)),
        (Val::Date(x), Val::Date(y)) => Some(compare_date(x, y)),
        (Val::Time(x), Val::Time(y)) => Some(compare_time(x, y)),
        (Val::DateTime(x), Val::DateTime(y)) => Some(then(compare_date(x.date, y.date), then(compare_time(x.time, y.time), compare_offset(x.offset, y.offset)))),
        _ => None,
    }
}

fn compare_u64(a: u64, b: u64) -> (c: Relation)
    ensures
        c == compare_int(a as int, b as int),
{
    if a < b { Relation::Less } else if a == b { Relation::Equal } else { Relation::Greater }
}

fn then_exec(c: Relation, d: Relation) -> (r: Relation)
    ensures
        r == then(c, d),
{
    match c {
        Relation::Equal => d,
        _ => c,
    }
}

fn compare_text_exec(a: &str, b: &str) -> (c: Relation)
    ensures
        c == compare_text(a@, b@),
{
    let x = chars_of(a);
    let y = chars_of(b);
    let mut k: usize = 0;
    assert(x@.skip(0) =~= a@);
    assert(y@.skip(0) =~= b@);
    loop
        invariant
            x@ == a@,
            y@ == b@,
            k <= x@.len(),
            k <= y@.len(),
            compare_text(a@, b@) == compare_text(x@.skip(k as int), y@.skip(k as int)),
        decreases x@.len() - k,
    {
        if k == x.len() {
            if k == y.len() {
                return Relation::Equal;
            }
            return Relation::Less;
        }
        if k == y.len() {
            return Relation::Greater;
        }
        let cx = x[k];
        let cy = y[k];
        proof {
            assert(x@.skip(k as int)[0] == x@[k as int]);
            assert(y@.skip(k as int)[0] == y@[k as int]);
            assert(x@.skip(k as int).drop_first() =~= x@.skip(k + 1));
            assert(y@.skip(k as int).drop_first() =~= y@.skip(k + 1));
        }
        if cx < cy {
            return Relation::Less;
        }
        if cx > cy {
            return Relation::Greater;
        }
        k = k + 1;
    }
}

fn compare_date_exec(a: Date, b: Date) -> (c: Relation)
    ensures
        c == compare_date(a, b),
{
    then_exec(compare_u64(a.year as u64, b.year as u64), then_exec(compare_u64(a.month as u64, b.month as u64), compare_u64(a.day as u64, b.day as u64)))
}

fn compare_time_exec(a: Time, b: Time) -> (c: Relation)
    ensures
        c == compare_time(a, b),
{
    then_exec(compare_u64(a.hour as u64, b.hour as u64), then_exec(compare_u64(a.min as u64, b.min as u64),
        then_exec(compare_u64(a.sec as u64, b.sec as u64), compare_u64(a.nanosecond as u64, b.nanosecond as u64))))
}

fn compare_offset_exec(a: Option<Offset>, b: Option<Offset>) -> (c: Relation)
    ensures
        c == compare_offset(a, b),
{
    match (a, b) {
        (None, None) => Relation::Equal,
        (None, Some(_)) => Relation::Less,
        (Some(_), None) => Relation::Greater,
        (Some(x), Some(y)) => then_exec(compare_u64(x.hour as u64, y.hour as u64), then_exec(compare_u64(x.min as u64, y.min as u64),
            compare_u64(if x.east { 1 } else { 0 }, if y.east { 1 } else { 0 }))),
    }
}

/// How two attributes compare (see `val_compare`).
pub fn attr_compare(a: &Attribute, b: &Attribute) -> (r: Option<Relation>)
    ensures
        r == val_compare(a@, b@),
{
    match (a, b) {
        (Attribute::Bool(x), Attribute::Bool(y)) => Some(compare_u64(if *x { 1 } else { 0 }, if *y { 1 } else { 0 })),
        (Attribute::Integer(x), Attribute::Integer(y)) => Some(if *x < *y { Relation::Less } else if *x == *y { Relation::Equal } else { Relation::Greater }),
        (Attribute::Float(x), Attribute::Float(y)) => {
            let nx = (*x >> 52u64) & 0x7ffu64 == 0x7ffu64 && *x & 0xf_ffff_ffff_ffffu64 != 0;
            let ny = (*y >> 52u64) & 0x7ffu64 == 0x7ffu64 && *y & 0xf_ffff_ffff_ffffu64 != 0;
            if nx || ny {
                None
            } else {
                let mx = *x & 0x7fff_ffff_ffff_ffffu64;
                let my = *y & 0x7fff_ffff_ffff_ffffu64;
                let negx = *x >> 63u64 == 1u64;
                let negy = *y >> 63u64 == 1u64;
                let c = if negx {
                    if negy { compare_u64(my, mx) } else if mx == 0 && my == 0 { Relation::Equal } else { Relation::Less }
                } else {
                    if !negy { compare_u64(mx, my) } else if mx == 0 && my == 0 { Relation::Equal } else { Relation::Greater }
                };
                Some(c)
            }
        },
        (Attribute::String(x), Attribute::String(y)) => Some(compare_text_exec(x.as_str(), y.as_str())),
        (Attribute::Date(x), Attribute::Date(y)) => Some(compare_date_exec(*x, *y)),
        (Attribute::Time(x), Attribute::Time(y)) => Some(compare_time_exec(*x, *y)),
        (Attribute::DateTime(x), Attribute::DateTime(y)) => Some(then_exec(compare_date_exec(x.date, y.date),
            then_exec(compare_time_exec(x.time, y.time), compare_offset_exec(x.offset, y.offset)))),
        _ => None,
    }
}

// ---------------------------------------------------------------------------
// Checking conditions on attributes.
// ---------------------------------------------------------------------------

/// Comparing attribute `var` with a condition that names an attribute or
/// holds a value; `Ok(None)` where an attribute is missing. With `strict`
/// the two must have the same type.
pub open spec fn partial_ord_spec(t: Seq<(Seq<char>, Val)>, var: Seq<char>, cond: CondV, strict: bool) -> Result<Option<Relation>, Seq<char>> {
    match dot_lookup(t, var, 0) {
        Err(e) => Err(e),
        Ok(None) => Ok(None),
        Ok(Some(a)) => {
            let b: Result<Option<Val>, Seq<char>> = match cond {
                CondV::Variable(v) => dot_lookup(t, v, 0),
                CondV::Literal(v) => Ok(Some(v)),
                _ => Err("Comparision of conditions not supported"@),
            };
            match b {
                Err(e) => Err(e),
                Ok(None) => Ok(None),
                Ok(Some(b)) => if strict && type_name_of(a) != type_name_of(b) {
                    Err("Cannot compare "@ + type_name_of(a) + " with "@ + type_name_of(b))
                } else {
                    Ok(val_compare(a, b))
                },
            }
        },
    }
}

/// Whether the condition holds for the attributes `t`; anything missing or
/// not comparable makes a comparison false.
pub open spec fn check_spec(t: Seq<(Seq<char>, Val)>, c: CondV) -> bool
    decreases c,
{
    match c {
        CondV::Eq(var, val) => partial_ord_spec(t, var, *val, false) == Ok::<Option<Relation>, Seq<char>>(Some(Relation::Equal)),
        CondV::Gt(var, val) => partial_ord_spec(t, var, *val, false) == Ok::<Option<Relation>, Seq<char>>(Some(Relation::Greater)),
        CondV::Lt(var, val) => partial_ord_spec(t, var, *val, false) == Ok::<Option<Relation>, Seq<char>>(Some(Relation::Less)),
        CondV::Variable(v) => match lookup(t, v) {
            Some(x) => <bool as FromAttributeRelaxed>::relaxed_val(x) == Some(true),
            None => false,
        },
        CondV::Literal(v) => <bool as FromAttributeRelaxed>::relaxed_val(v) == Some(true),
        CondV::Not(x) => !check_spec(t, *x),
        CondV::And(a, b) => check_spec(t, *a) && check_spec(t, *b),
        CondV::Or(a, b) => check_spec(t, *a) || check_spec(t, *b),
    }
}

/// The result of a comparison where missing attributes are errors.
pub open spec fn strict_compare(r: Result<Option<Relation>, Seq<char>>, var: Seq<char>, want: Relation) -> Result<bool, Seq<char>> {
    match r {
        Err(e) => Err(e),
        Ok(Some(x)) => Ok(x == want),
        Ok(None) => Err("Attrbute "@ + var + " doesn't exist"@),
    }
}

/// Whether the condition holds, where missing attributes are errors;
/// with `sup` compared values must have the same type and booleans must be
/// booleans.
pub open spec fn check_strict_spec(t: Seq<(Seq<char>, Val)>, c: CondV, sup: bool) -> Result<bool, Seq<char>>
    decreases c,
{
    match c {
        CondV::Eq(var, val) => strict_compare(partial_ord_spec(t, var, *val, sup), var, Relation::Equal),
        CondV::Gt(var, val) => strict_compare(partial_ord_spec(t, var, *val, sup), var, Relation::Greater),
        CondV::Lt(var, val) => strict_compare(partial_ord_spec(t, var, *val, sup), var, Relation::Less),
        CondV::Variable(v) => match lookup(t, v) {
            None => Err(missing_error(v)),
            Some(x) => as_bool(x, sup),
        },
        CondV::Literal(v) => as_bool(v, sup),
        CondV::Not(x) => match check_strict_spec(t, *x, sup) {
            Ok(b) => Ok(!b),
            Err(e) => Err(e),
        },
        CondV::And(a, b) => match check_strict_spec(t, *a, sup) {
            Err(e) => Err(e),
            Ok(x) => match check_strict_spec(t, *b, sup) {
                Err(e) => Err(e),
                Ok(y) => Ok(x && y),
            },
        },
        CondV::Or(a, b) => match check_strict_spec(t, *a, sup) {
            Err(e) => Err(e),
            Ok(x) => match check_strict_spec(t, *b, sup) {
                Err(e) => Err(e),
                Ok(y) => Ok(x || y),
            },
        },
    }
}

/// Wherever the strict check of a condition (or the super-strict one)
/// gives an answer, the lenient check gives the same answer.
pub proof fn law_strict_check_agrees(t: Seq<(Seq<char>, Val)>, c: CondV, sup: bool)
    ensures
        check_strict_spec(t, c, sup) matches Ok(b) ==> check_spec(t, c) == b,
    decreases c,
{
    match c {
        CondV::Not(x) => {
            law_strict_check_agrees(t, *x, sup);
        },
        CondV::And(a, b) => {
            law_strict_check_agrees(t, *a, sup);
            law_strict_check_agrees(t, *b, sup);
        },
        CondV::Or(a, b) => {
            law_strict_check_agrees(t, *a, sup);
            law_strict_check_agrees(t, *b, sup);
        },
        _ => {},
    }
}

/// A value read as a boolean: strictly with `sup`, relaxed otherwise.
pub open spec fn as_bool(v: Val, sup: bool) -> Result<bool, Seq<char>> {
    if sup {
        match <bool as FromAttribute>::from_val(v) {
            Some(b) => Ok(b),
            None => Err(strict_error(v, "bool"@)),
        }
    } else {
        match <bool as FromAttributeRelaxed>::relaxed_val(v) {
            Some(b) => Ok(b),
            None => Err(relaxed_error(v, "bool"@)),
        }
    }
}

fn as_bool_exec(v: &Attribute, sup: bool) -> (r: Result<bool, String>)
    ensures
        match (r, as_bool(v@, sup)) {
            (Ok(x), Ok(y)) => x == y,
            (Err(m), Err(w)) => m@ == w,
            _ => false,
        },
{
    assert(<bool as FromAttributeRelaxed>::relaxed_label() == "bool"@);
    assert(<bool as FromAttribute>::label() == "bool"@);
    if sup {
        <bool as FromAttribute>::try_from_attr(v)
    } else {
        <bool as FromAttributeRelaxed>::try_from_attr_relaxed(v)
    }
}

/// Compares attribute `var` with `cond` (see `partial_ord_spec`).
pub fn partial_ord(attrs: &AttrMap, var: &str, cond: &Condition, strict: bool) -> (r: Result<Option<Relation>, String>)
    ensures
        match (r, partial_ord_spec(attrs@, var@, cond@, strict)) {
            (Ok(x), Ok(y)) => x == y,
            (Err(m), Err(w)) => m@ == w,
            _ => false,
        },
{
    let a = match attrs.attr_dot(var) {
        Err(e) => return Err(e),
        Ok(None) => return Ok(None),
        Ok(Some(a)) => a,
    };
    let b = match cond {
        Condition::Variable(v) => match attrs.attr_dot(v.as_str()) {
            Err(e) => return Err(e),
            Ok(None) => return Ok(None),
            Ok(Some(b)) => b,
        },
        Condition::Literal(v) => v,
        _ => return Err(owned("Comparision of conditions not supported")),
    };
    if strict {
        let x = a.type_name_str();
        let y = b.type_name_str();
        if !str_eq(x, y) {
            let mut m = owned("Cannot compare ");
            push_str(&mut m, x);
            push_str(&mut m, " with ");
            push_str(&mut m, y);
            return Err(m);
        }
    }
    Ok(attr_compare(a, b))
}

fn strict_compare_exec(r: Result<Option<Relation>, String>, var: &str, want: Relation) -> (b: Result<bool, String>)
    ensures
        match (b, strict_compare(match r { Ok(x) => Ok(x), Err(m) => Err(m@) }, var@, want)) {
            (Ok(x), Ok(y)) => x == y,
            (Err(m), Err(w)) => m@ == w,
            _ => false,
        },
{
    match r {
        Err(e) => Err(e),
        Ok(Some(x)) => Ok(x == want),
        Ok(None) => {
            let mut m = owned("Attrbute ");
            push_str(&mut m, var);
            push_str(&mut m, " doesn't exist");
            Err(m)
        },
    }
}

impl AttrMap {
    /// Whether the condition holds for these attributes (see `check_spec`).
    pub fn check(&self, cond: &Condition) -> (b: bool)
        ensures
            b == check_spec(self@, cond@),
        decreases cond,
    {
        match cond {
            Condition::Eq(var, val) => match partial_ord(self, var.as_str(), val, false) {
                Ok(Some(x)) => x == Relation::Equal,
                _ => false,
            },
            Condition::Gt(var, val) => match partial_ord(self, var.as_str(), val, false) {
                Ok(Some(x)) => x == Relation::Greater,
                _ => false,
            },
            Condition::Lt(var, val) => match partial_ord(self, var.as_str(), val, false) {
                Ok(Some(x)) => x == Relation::Less,
                _ => false,
            },
            Condition::Variable(v) => match self.try_attr_relaxed::<bool>(v.as_str()) {
                Ok(b) => b,
                Err(_) => false,
            },
            Condition::Literal(v) => match <bool as FromAttributeRelaxed>::from_attr_relaxed(v) {
                Some(b) => b,
                None => false,
            },
            Condition::Not(x) => !self.check(x),
            Condition::And(a, b) => {
                let x = self.check(a);
                let y = self.check(b);
                x && y
            },
            Condition::Or(a, b) => {
                let x = self.check(a);
                let y = self.check(b);
                x || y
            },
        }
    }

    /// Whether the condition holds, where missing attributes are errors;
    /// with `sup` compared values must have the same type and booleans
    /// must be booleans (see `check_strict_spec`).
    pub fn check_strict_as(&self, cond: &Condition, sup: bool) -> (r: Result<bool, String>)
        ensures
            match (r, check_strict_spec(self@, cond@, sup)) {
                (Ok(x), Ok(y)) => x == y,
                (Err(m), Err(w)) => m@ == w,
                _ => false,
            },
        decreases cond,
    {
        match cond {
            Condition::Eq(var, val) => strict_compare_exec(partial_ord(self, var.as_str(), val, sup), var.as_str(), Relation::Equal),
            Condition::Gt(var, val) => strict_compare_exec(partial_ord(self, var.as_str(), val, sup), var.as_str(), Relation::Greater),
            Condition::Lt(var, val) => strict_compare_exec(partial_ord(self, var.as_str(), val, sup), var.as_str(), Relation::Less),
            Condition::Variable(v) => match self.get(v.as_str()) {
                None => {
                    let mut m = owned("Attribute Error: Attribute ");
                    push_str(&mut m, v.as_str());
                    push_str(&mut m, " not found in Node");
                    Err(m)
                },
                Some(x) => as_bool_exec(x, sup),
            },
            Condition::Literal(v) => as_bool_exec(v, sup),
            Condition::Not(x) => match self.check_strict_as(x, sup) {
                Ok(b) => Ok(!b),
                Err(e) => Err(e),
            },
            Condition::And(a, b) => {
                let x = match self.check_strict_as(a, sup) {
                    Ok(x) => x,
                    Err(e) => return Err(e),
                };
                let y = match self.check_strict_as(b, sup) {
                    Ok(y) => y,
                    Err(e) => return Err(e),
                };
                Ok(x && y)
            },
            Condition::Or(a, b) => {
                let x = match self.check_strict_as(a, sup) {
                    Ok(x) => x,
                    Err(e) => return Err(e),
                };
                let y = match self.check_strict_as(b, sup) {
                    Ok(y) => y,
                    Err(e) => return Err(e),
                };
                Ok(x || y)
            },
        }
    }
}

impl NodeInner {
    /// Whether the condition holds for the node's attributes.
    pub fn check(&self, cond: &Condition) -> (b: bool)
        ensures
            b == check_spec(self@.attrs, cond@),
    {
        self.attrs().check(cond)
    }

    /// Whether the condition holds, where missing attributes are errors.
    pub fn check_strict(&self, cond: &Condition) -> (r: Result<bool, String>)
        ensures
            match (r, check_strict_spec(self@.attrs, cond@, false)) {
                (Ok(x), Ok(y)) => x == y,
                (Err(m), Err(w)) => m@ == w,
                _ => false,
            },
    {
        self.attrs().check_strict_as(cond, false)
    }

    /// Whether the condition holds, where missing attributes and values of
    /// the wrong type are errors.
    pub fn check_super_strict(&self, cond: &Condition) -> (r: Result<bool, String>)
        ensures
            match (r, check_strict_spec(self@.attrs, cond@, true)) {
                (Ok(x), Ok(y)) => x == y,
                (Err(m), Err(w)) => m@ == w,
                _ => false,
            },
    {
        self.attrs().check_strict_as(cond, true)
    }
}


// ---------------------------------------------------------------------------
// Function results and arguments.
// ---------------------------------------------------------------------------

/// What a node, network or environment function returns: nothing, a value,
/// or an error message.
#[derive(Debug)]
pub enum FunctionRet {
    Empty,
    Value(Attribute),
    Error(String),
}

impl Default for FunctionRet {
    fn default() -> (r: Self)
        ensures
            r is Empty,
    {
        FunctionRet::Empty
    }
}

impl FunctionRet {
    /// The result as a `Result`: `Ok(None)` for nothing, `Ok(Some(v))` for a
    /// value, `Err(m)` for an error.
    pub fn res(self) -> (r: Result<Option<Attribute>, String>)
        ensures
            match self {
                FunctionRet::Empty => r matches Ok(None),
                FunctionRet::Value(a) => r matches Ok(Some(b)) && b@ == a@,
                FunctionRet::Error(e) => r matches Err(m) && m@ == e@,
            },
    {
        match self {
            FunctionRet::Empty => Ok(None),
            FunctionRet::Value(a) => Ok(Some(a)),
            FunctionRet::Error(e) => Err(e),
        }
    }
}

/// What a function is called with: positional arguments, keyword
/// arguments, and the order in which nodes are visited.
#[derive(Debug)]
pub struct FunctionCtx {
    pub args: Vec<Attribute>,
    pub kwargs: AttrMap,
    pub propagation: Propagation,
}

/// The entries `kv` set one after another in `e`.
pub open spec fn upserted(e: Seq<(Seq<char>, Val)>, kv: Seq<(Seq<char>, Val)>) -> Seq<(Seq<char>, Val)>
    decreases kv.len(),
{
    if kv.len() == 0 {
        e
    } else {
        upsert(upserted(e, kv.drop_last()), kv.last().0, kv.last().1)
    }
}

/// The views of attributes.
pub open spec fn vals_of(a: Seq<Attribute>) -> Seq<Val> {
    a.map_values(|x: Attribute| x@)
}

/// The argument that keyword `name` or position `ind` gives, the keyword
/// first.
pub open spec fn chosen_arg(args: Seq<Val>, kwargs: Seq<(Seq<char>, Val)>, ind: int, name: Seq<char>) -> Option<Val> {
    match lookup(kwargs, name) {
        Some(v) => Some(v),
        None => if 0 <= ind < args.len() { Some(args[ind]) } else { None },
    }
}

/// The message of an argument that does not convert.
pub open spec fn arg_error(ind: int, name: Seq<char>, label: Seq<char>, e: Seq<char>) -> Seq<char> {
    "Argument "@ + decimal((ind + 1) as nat) + " ("@ + name + " ["@ + label + "]): "@ + e
}

fn arg_message(ind: usize, name: &str, label: &str, e: &str) -> (m: String)
    requires
        ind < usize::MAX,
    ensures
        m@ == arg_error(ind as int, name@, label@, e@),
{
    let mut m = owned("Argument ");
    push_decimal(&mut m, (ind + 1) as u64);
    push_str(&mut m, " (");
    push_str(&mut m, name);
    push_str(&mut m, " [");
    push_str(&mut m, label);
    push_str(&mut m, "]): ");
    push_str(&mut m, e);
    m
}

impl Default for FunctionCtx {
    fn default() -> (c: Self)
        ensures
            c.args@.len() == 0,
            c.kwargs@.len() == 0,
            c.propagation@ == PropV::Sequential,
    {
        FunctionCtx { args: Vec::new(), kwargs: AttrMap::new(), propagation: Propagation::Sequential }
    }
}

impl FunctionCtx {
    /// A context with these arguments, keyword arguments set in order, and
    /// the sequential order.
    pub fn from_arg_kwarg(args: Vec<Attribute>, kwargs: Vec<(String, Attribute)>) -> (c: Self)
        ensures
            c.args@ == args@,
            c.kwargs@ == upserted(Seq::empty(), entries_view(kwargs@)),
            c.propagation@ == PropV::Sequential,
    {
        let mut m = AttrMap::new();
        let ghost all = entries_view(kwargs@);
        proof {
            crate::attrs::lemma_entries_view(kwargs@);
        }
        let mut i: usize = 0;
        while i < kwargs.len()
            invariant
                i <= kwargs.len(),
                all == entries_view(kwargs@),
                all.len() == kwargs.len(),
                forall|j: int| 0 <= j < kwargs.len() ==> #[trigger] all[j] == (kwargs@[j].0@, kwargs@[j].1@),
                m@ == upserted(Seq::empty(), all.take(i as int)),
            decreases kwargs.len() - i,
        {
            let k = kwargs[i].0.clone();
            let v = crate::attrs::clone_attr(&kwargs[i].1);
            m.insert(k, v);
            proof {
                assert(all.take(i + 1).drop_last() =~= all.take(i as int));
                assert(all.take(i + 1).last() == all[i as int]);
            }
            i = i + 1;
        }
        assert(all.take(i as int) =~= all);
        FunctionCtx { args, kwargs: m, propagation: Propagation::Sequential }
    }

    pub fn propagation(&self) -> (p: &Propagation)
        ensures
            p == &self.propagation,
    {
        &self.propagation
    }

    pub fn args(&self) -> (a: &[Attribute])
        ensures
            a@ == self.args@,
    {
        self.args.as_slice()
    }

    /// The positional argument at `ind`, if there is one.
    pub fn arg(&self, ind: usize) -> (r: Option<&Attribute>)
        ensures
            match r {
                Some(a) => ind < self.args@.len() && a == &self.args@[ind as int],
                None => ind >= self.args@.len(),
            },
    {
        if ind < self.args.len() {
            Some(&self.args[ind])
        } else {
            None
        }
    }

    pub fn kwargs(&self) -> (k: &AttrMap)
        ensures
            k == &self.kwargs,
    {
        &self.kwargs
    }

    /// The keyword argument `name`, if there is one.
    pub fn kwarg(&self, name: &str) -> (r: Option<&Attribute>)
        ensures
            match r {
                Some(a) => lookup(self.kwargs@, name@) == Some(a@),
                None => lookup(self.kwargs@, name@) is None,
            },
    {
        self.kwargs.get(name)
    }

    fn chosen(&self, ind: usize, name: &str) -> (r: Option<&Attribute>)
        ensures
            match r {
                Some(a) => chosen_arg(vals_of(self.args@), self.kwargs@, ind as int, name@) == Some(a@),
                None => chosen_arg(vals_of(self.args@), self.kwargs@, ind as int, name@) is None,
            },
    {
        match self.kwarg(name) {
            Some(a) => Some(a),
            None => self.arg(ind),
        }
    }

    /// The argument given by keyword `name`, else at position `ind`, as
    /// type `P`; `None` where neither is given, an error where it has
    /// another type.
    pub fn arg_kwarg<P: FromAttribute>(&self, ind: usize, name: &str) -> (r: Option<Result<P, String>>)
        requires
            ind < usize::MAX,
        ensures
            match (r, chosen_arg(vals_of(self.args@), self.kwargs@, ind as int, name@)) {
                (None, None) => true,
                (Some(Ok(x)), Some(v)) => P::from_val(v) == Some(x@),
                (Some(Err(m)), Some(v)) => P::from_val(v) is None
                    && m@ == arg_error(ind as int, name@, P::label(), P::strict_err(v)),
                _ => false,
            },
    {
        match self.chosen(ind, name) {
            None => None,
            Some(a) => match P::try_from_attr(a) {
                Ok(v) => Some(Ok(v)),
                Err(e) => Some(Err(arg_message(ind, name, P::type_label(), e.as_str()))),
            },
        }
    }

    /// The argument given by keyword `name`, else at position `ind`,
    /// converted to type `P`.
    pub fn arg_kwarg_relaxed<P: FromAttributeRelaxed>(&self, ind: usize, name: &str) -> (r: Option<Result<P, String>>)
        requires
            ind < usize::MAX,
        ensures
            match (r, chosen_arg(vals_of(self.args@), self.kwargs@, ind as int, name@)) {
                (None, None) => true,
                (Some(Ok(x)), Some(v)) => P::relaxed_val(v) == Some(x@),
                (Some(Err(m)), Some(v)) => P::relaxed_val(v) is None
                    && m@ == arg_error(ind as int, name@, P::relaxed_label(), P::relaxed_err(v)),
                _ => false,
            },
    {
        match self.chosen(ind, name) {
            None => None,
            Some(a) => match P::try_from_attr_relaxed(a) {
                Ok(v) => Some(Ok(v)),
                Err(e) => Some(Err(arg_message(ind, name, P::relaxed_type_label(), e.as_str()))),
            },
        }
    }
}

} // verus!
