//! The parser of attribute files: `key = value` lines, dotted keys that go
//! into nested tables, and `[group.subgroup]` headers that pick the table
//! the following lines write to.
use vstd::prelude::*;
use crate::attrs::{AttrMap, Attribute, Val, names_view, set_in, moved_in};
use crate::parser::{ParseError, ParseErrorType, PErr};
use crate::parser::tasks::{moved, located, lemma_moved_zero, lemma_moved_trans, lemma_moved_one, start_cursor, error_at, ra, read_attribute, attr_agrees};
use crate::parser::tokenizer::{Token, TaskToken, VecTokens, Kind};
use crate::values::FloatTable;

verus! {

/// Where the parser stands.
pub enum State {
    /// inside `[...]`, after a name or not
    AttrGroup(Option<String>),
    /// after a key
    Assignment(String),
    /// after a key whose value follows directly
    Variable(String),
    /// after a value, before the end of its line
    Newline,
    /// at the start of a line, or after a dot of a key
    Start,
}

pub enum StateV {
    AttrGroup(Option<Seq<char>>),
    Assignment(Seq<char>),
    Variable(Seq<char>),
    Newline,
    Start,
}

impl View for State {
    type V = StateV;

    open spec fn view(&self) -> StateV {
        match self {
            State::AttrGroup(None) => StateV::AttrGroup(None),
            State::AttrGroup(Some(s)) => StateV::AttrGroup(Some(s@)),
            State::Assignment(s) => StateV::Assignment(s@),
            State::Variable(s) => StateV::Variable(s@),
            State::Newline => StateV::Newline,
            State::Start => StateV::Start,
        }
    }
}

/// What the parser holds: the table read so far, the path of the current
/// group, the path of the table that keys go to, and the state.
pub struct Cfg {
    pub root: Seq<(Seq<char>, Val)>,
    pub grp: Seq<Seq<char>>,
    pub cur: Seq<Seq<char>>,
    pub st: StateV,
}

/// What a token does: go on (with how many more tokens were read), or
/// stop with an error.
pub enum AStep {
    Go(Cfg, int),
    Stop(PErr, int),
}

/// The table after entering the first `k` names of `grp` from the top.
pub open spec fn regroup(root: Seq<(Seq<char>, Val)>, grp: Seq<Seq<char>>, k: nat) -> Option<Seq<(Seq<char>, Val)>>
    decreases k,
{
    if k == 0 {
        Some(root)
    } else if k > grp.len() {
        None
    } else {
        match regroup(root, grp, (k - 1) as nat) {
            Some(r) => moved_in(r, grp.take(k - 1), grp[k - 1]),
            None => None,
        }
    }
}

/// A value read for key `name`: it goes to the current table.
pub open spec fn value_step(c: Cfg, name: Seq<char>, r: (Result<Option<Val>, PErr>, int)) -> AStep {
    match r.0 {
        Err(e) => AStep::Stop(e, r.1),
        Ok(None) => AStep::Stop(PErr::Syntax, r.1),
        Ok(Some(v)) => AStep::Go(Cfg { root: set_in(c.root, c.cur, name, v), st: StateV::Newline, ..c }, r.1),
    }
}

/// A name: a key at the start, or a group name inside `[...]`.
pub open spec fn name_step(c: Cfg, name: Seq<char>) -> AStep {
    match c.st {
        StateV::Start => AStep::Go(Cfg { st: StateV::Assignment(name), ..c }, 0),
        StateV::AttrGroup(None) => AStep::Go(Cfg { st: StateV::AttrGroup(Some(name)), ..c }, 0),
        _ => AStep::Stop(PErr::Syntax, 0),
    }
}

/// Entering table `name` from the current one; `grp` says whether it is a
/// group name, and `st` is the state after.
pub open spec fn enter_step(c: Cfg, name: Seq<char>, grp: bool, st: StateV) -> AStep {
    match moved_in(c.root, c.cur, name) {
        Some(r) => AStep::Go(Cfg {
            root: r,
            grp: if grp { c.grp.push(name) } else { c.grp },
            cur: c.cur.push(name),
            st: st,
        }, 0),
        None => AStep::Stop(PErr::Syntax, 0),
    }
}

/// What token `t` does in `c`, where `ts` are the tokens after it.
pub open spec fn astep(c: Cfg, t: Token, ts: Seq<Token>, fl: Seq<(Seq<char>, u64)>) -> AStep {
    match t.ty@ {
        Kind::WhiteSpace | Kind::Comment | Kind::Bool | Kind::Integer | Kind::Date | Kind::Float
        | Kind::DateTime | Kind::Time => AStep::Go(c, 0),
        Kind::NewLine => match c.st {
            StateV::Newline => match regroup(c.root, c.grp, c.grp.len()) {
                Some(r) => AStep::Go(Cfg { root: r, cur: c.grp, st: StateV::Start, ..c }, 0),
                None => AStep::Stop(PErr::Syntax, 0),
            },
            StateV::Start => AStep::Go(c, 0),
            _ => AStep::Stop(PErr::Syntax, 0),
        },
        Kind::BracketStart => match c.st {
            StateV::Start => AStep::Go(Cfg { grp: Seq::empty(), cur: Seq::empty(), st: StateV::AttrGroup(None), ..c }, 0),
            StateV::Variable(s) => value_step(c, s, ra(ts, Some(t), false, fl)),
            _ => AStep::Stop(PErr::Syntax, 0),
        },
        Kind::BraceStart => match c.st {
            StateV::Variable(s) => value_step(c, s, ra(ts, Some(t), false, fl)),
            _ => AStep::Stop(PErr::Syntax, 0),
        },
        Kind::Dot => match c.st {
            StateV::AttrGroup(Some(s)) => enter_step(c, s, true, StateV::AttrGroup(None)),
            StateV::Assignment(s) => enter_step(c, s, false, StateV::Start),
            _ => AStep::Stop(PErr::Syntax, 0),
        },
        Kind::BracketEnd => match c.st {
            StateV::AttrGroup(Some(n)) => enter_step(c, n, true, StateV::Start),
            _ => AStep::Stop(PErr::Syntax, 0),
        },
        Kind::Variable => name_step(c, t.content@),
        Kind::Assignment => match c.st {
            StateV::Assignment(s) => value_step(c, s, ra(ts, None, false, fl)),
            _ => AStep::Stop(PErr::Syntax, 0),
        },
        Kind::Str(s) => name_step(c, s),
        _ => AStep::Stop(PErr::InvalidToken, 0),
    }
}

/// Parsing the tokens `ts` from `c`: the table or the error, and how many
/// tokens were read. The tokens may end at the end of a line or after a
/// value.
pub open spec fn aparse(ts: Seq<Token>, c: Cfg, fl: Seq<(Seq<char>, u64)>) -> (Result<Seq<(Seq<char>, Val)>, PErr>, int)
    decreases ts.len(),
{
    if ts.len() == 0 {
        (match c.st {
            StateV::Start | StateV::Newline => Ok(c.root),
            _ => Err(PErr::Unclosed),
        }, 0)
    } else {
        let rest = ts.drop_first();
        match astep(c, ts[0], rest, fl) {
            AStep::Go(c2, u) => if 0 <= u <= rest.len() {
                let (r, u2) = aparse(rest.skip(u), c2, fl);
                (r, 1 + u + u2)
            } else {
                (Err(PErr::Syntax), 1 + u)
            },
            AStep::Stop(e, u) => (Err(e), 1 + u),
        }
    }
}

/// Where parsing starts: an empty table, at the top.
pub open spec fn cfg_init() -> Cfg {
    Cfg { root: Seq::empty(), grp: Seq::empty(), cur: Seq::empty(), st: StateV::Start }
}

/// The parser's state in exec form.
pub struct AttrParser {
    root: AttrMap,
    grp: Vec<String>,
    cur: Vec<String>,
    state: State,
}

impl View for AttrParser {
    type V = Cfg;

    closed spec fn view(&self) -> Cfg {
        Cfg { root: self.root@, grp: names_view(self.grp@), cur: names_view(self.cur@), st: self.state@ }
    }
}

/// A step `r` of the parser (now `p`, tokens `t0` before and `t1` after)
/// is the step `s`.
pub open spec fn step_agrees(r: Option<ParseError>, s: AStep, p: AttrParser, t0: VecTokens, t1: VecTokens) -> bool {
    match s {
        AStep::Go(c, u) => r is None && p@ == c && moved(t0, t1, u),
        AStep::Stop(e, u) => moved(t0, t1, u) && match r {
            Some(x) => x.ty@ == e && located(x, t1),
            None => false,
        },
    }
}

proof fn lemma_regroup_step(root: Seq<(Seq<char>, Val)>, grp: Seq<Seq<char>>, k: nat)
    requires
        k < grp.len(),
    ensures
        regroup(root, grp, (k + 1) as nat) == match regroup(root, grp, k) {
            Some(r) => moved_in(r, grp.take(k as int), grp[k as int]),
            None => None,
        },
{
}

impl AttrParser {
    pub fn new() -> (p: Self)
        ensures
            p@ == cfg_init(),
    {
        let p = AttrParser { root: AttrMap::new(), grp: Vec::new(), cur: Vec::new(), state: State::Start };
        assert(names_view(p.grp@) =~= Seq::<Seq<char>>::empty());
        p
    }

    fn take_state(&mut self) -> (s: State)
        ensures
            s@ == old(self)@.st,
            final(self)@ == (Cfg { st: StateV::Start, ..old(self)@ }),
    {
        let mut st = State::Start;
        std::mem::swap(&mut st, &mut self.state);
        st
    }

    /// A name read at the start of a line or inside `[...]`.
    fn step_name(&mut self, name: String, tokens: &VecTokens) -> (r: Option<ParseError>)
        ensures
            step_agrees(r, name_step(old(self)@, name@), *final(self), *tokens, *tokens),
    {
        proof {
            lemma_moved_zero(*tokens);
        }
        let st = self.take_state();
        match st {
            State::Start => {
                self.state = State::Assignment(name);
                None
            },
            State::AttrGroup(None) => {
                self.state = State::AttrGroup(Some(name));
                None
            },
            other => {
                self.state = other;
                Some(tokens.parse_error(ParseErrorType::SyntaxError))
            },
        }
    }

    /// Enters table `name` from the current one.
    fn step_enter(&mut self, name: String, grp: bool, st: State, tokens: &VecTokens) -> (r: Option<ParseError>)
        ensures
            step_agrees(r, enter_step(old(self)@, name@, grp, st@), *final(self), *tokens, *tokens),
    {
        proof {
            lemma_moved_zero(*tokens);
            assert(names_view(self.cur@).skip(0) =~= names_view(self.cur@));
        }
        if self.root.move_in(&self.cur, 0, name.as_str()) {
            let ghost c0 = names_view(self.cur@);
            let ghost g0 = names_view(self.grp@);
            if grp {
                self.grp.push(name.clone());
                assert(names_view(self.grp@) =~= g0.push(name@));
            }
            self.cur.push(name);
            assert(names_view(self.cur@) =~= c0.push(name@));
            self.state = st;
            None
        } else {
            Some(tokens.parse_error(ParseErrorType::SyntaxError))
        }
    }

    /// A value for key `name`: read from the tokens, it goes to the
    /// current table.
    fn step_value(&mut self, name: String, start: Option<Token>, tokens: &mut VecTokens, floats: &FloatTable) -> (r: Option<ParseError>)
        ensures
            step_agrees(r, value_step(old(self)@, name@, ra(old(tokens).rest(), start, false, floats@)), *final(self), *old(tokens), *final(tokens)),
    {
        match read_attribute(start, tokens, false, floats) {
            Err(e) => Some(e),
            Ok(None) => Some(tokens.parse_error(ParseErrorType::SyntaxError)),
            Ok(Some(v)) => {
                proof {
                    assert(names_view(self.cur@).skip(0) =~= names_view(self.cur@));
                }
                self.root.set_at(&self.cur, 0, name, v);
                self.state = State::Newline;
                None
            },
        }
    }

    /// The end of a line after a value: back to the current group.
    fn step_regroup(&mut self, tokens: &VecTokens) -> (r: Option<ParseError>)
        requires
            old(self)@.st == StateV::Newline,
        ensures
            step_agrees(r, match regroup(old(self)@.root, old(self)@.grp, old(self)@.grp.len()) {
                Some(rt) => AStep::Go(Cfg { root: rt, cur: old(self)@.grp, st: StateV::Start, ..old(self)@ }, 0),
                None => AStep::Stop(PErr::Syntax, 0),
            }, *final(self), *tokens, *tokens),
    {
        proof {
            lemma_moved_zero(*tokens);
        }
        let ghost g = names_view(self.grp@);
        let ghost root0 = self.root@;
        self.cur = Vec::new();
        let mut k: usize = 0;
        assert(names_view(self.cur@) =~= g.take(0));
        while k < self.grp.len()
            invariant
                k <= self.grp.len(),
                g == names_view(self.grp@),
                g == old(self)@.grp,
                root0 == old(self)@.root,
                g.len() == self.grp.len(),
                names_view(self.cur@) == g.take(k as int),
                regroup(root0, g, k as nat) == Some(self.root@),
                self.state@ == StateV::Newline,
            decreases self.grp.len() - k,
        {
            proof {
                lemma_regroup_step(root0, g, k as nat);
                assert(names_view(self.cur@).skip(0) =~= names_view(self.cur@));
                assert(g[k as int] == self.grp@[k as int]@);
            }
            let ghost before = self.root@;
            if !self.root.move_in(&self.cur, 0, self.grp[k].as_str()) {
                assert(regroup(root0, g, (k + 1) as nat) is None);
                proof {
                    lemma_regroup_none(root0, g, (k + 1) as nat, g.len());
                    lemma_moved_zero(*tokens);
                }
                return Some(tokens.parse_error(ParseErrorType::SyntaxError));
            }
            let name = self.grp[k].clone();
            self.cur.push(name);
            assert(names_view(self.cur@) =~= g.take(k + 1));
            k = k + 1;
        }
        assert(g.take(k as int) =~= g);
        self.state = State::Start;
        None
    }

    /// What token `t` does; `tokens` are those after it.
    fn step(&mut self, t: Token, tokens: &mut VecTokens, floats: &FloatTable) -> (r: Option<ParseError>)
        ensures
            step_agrees(r, astep(old(self)@, t, old(tokens).rest(), floats@), *final(self), *old(tokens), *final(tokens)),
    {
        proof {
            lemma_moved_zero(*tokens);
        }
        match t.ty {
            TaskToken::WhiteSpace | TaskToken::Comment | TaskToken::Bool | TaskToken::Integer
            | TaskToken::Date | TaskToken::Float | TaskToken::DateTime | TaskToken::Time => None,
            TaskToken::NewLine => match self.state {
                State::Newline => self.step_regroup(tokens),
                State::Start => None,
                _ => Some(tokens.parse_error(ParseErrorType::SyntaxError)),
            },
            TaskToken::BracketStart => {
                let st = self.take_state();
                match st {
                    State::Start => {
                        self.cur = Vec::new();
                        self.grp = Vec::new();
                        self.state = State::AttrGroup(None);
                        assert(names_view(self.cur@) =~= Seq::<Seq<char>>::empty());
                        assert(names_view(self.grp@) =~= Seq::<Seq<char>>::empty());
                        None
                    },
                    State::Variable(s) => self.step_value(s, Some(t), tokens, floats),
                    other => {
                        self.state = other;
                        Some(tokens.parse_error(ParseErrorType::SyntaxError))
                    },
                }
            },
            TaskToken::BraceStart => {
                let st = self.take_state();
                match st {
                    State::Variable(s) => self.step_value(s, Some(t), tokens, floats),
                    other => {
                        self.state = other;
                        Some(tokens.parse_error(ParseErrorType::SyntaxError))
                    },
                }
            },
            TaskToken::Dot => {
                let st = self.take_state();
                match st {
                    State::AttrGroup(Some(s)) => self.step_enter(s, true, State::AttrGroup(None), tokens),
                    State::Assignment(s) => self.step_enter(s, false, State::Start, tokens),
                    other => {
                        self.state = other;
                        Some(tokens.parse_error(ParseErrorType::SyntaxError))
                    },
                }
            },
            TaskToken::BracketEnd => {
                let st = self.take_state();
                match st {
                    State::AttrGroup(Some(n)) => self.step_enter(n, true, State::Start, tokens),
                    other => {
                        self.state = other;
                        Some(tokens.parse_error(ParseErrorType::SyntaxError))
                    },
                }
            },
            TaskToken::Variable => self.step_name(t.content, tokens),
            TaskToken::Assignment => {
                let st = self.take_state();
                match st {
                    State::Assignment(s) => self.step_value(s, None, tokens, floats),
                    other => {
                        self.state = other;
                        Some(tokens.parse_error(ParseErrorType::SyntaxError))
                    },
                }
            },
            TaskToken::String(s) => self.step_name(s, tokens),
            _ => Some(tokens.parse_error(ParseErrorType::InvalidToken)),
        }
    }
}

proof fn lemma_regroup_none(root: Seq<(Seq<char>, Val)>, g: Seq<Seq<char>>, k: nat, n: nat)
    requires
        regroup(root, g, k) is None,
        k <= n <= g.len(),
    ensures
        regroup(root, g, n) is None,
    decreases n - k,
{
    if k < n {
        lemma_regroup_step(root, g, k);
        lemma_regroup_none(root, g, (k + 1) as nat, n);
    }
}

/// Parses the tokens of an attribute file into a table. Each line holds
/// nothing, `key = value`, or a group header `[name.name...]`; a key may be
/// a dotted path of names, each a table inside the one before, created
/// where missing. Names are identifiers or quoted strings; values are read
/// as by `read_attribute`, on one line. Float literals take their values
/// from `floats`. A name that stands for another value than a table where a
/// table is wanted is a syntax error.
pub fn parse(tokens: Vec<Token>, floats: &FloatTable) -> (r: Result<AttrMap, ParseError>)
    ensures
        match (r, aparse(tokens@, cfg_init(), floats@).0) {
            (Ok(m), Ok(w)) => m@ == w,
            (Err(e), Err(x)) => e.ty@ == x && error_at(e, tokens@, aparse(tokens@, cfg_init(), floats@).1),
            _ => false,
        },
{
    let ghost ts = tokens@;
    let ghost total = aparse(ts, cfg_init(), floats@);
    let mut toks = VecTokens::new(tokens);
    let mut p = AttrParser::new();
    let ghost t0 = toks;
    let ghost mut used: int = 0;
    proof {
        lemma_moved_zero(t0);
    }
    loop
        invariant
            ts == tokens@,
            t0.rest() == ts,
            t0.cursor() == start_cursor(),
            total == aparse(ts, cfg_init(), floats@),
            moved(t0, toks, used),
            total.0 == aparse(toks.rest(), p@, floats@).0,
            total.1 == used + aparse(toks.rest(), p@, floats@).1,
        decreases toks.rest().len(),
    {
        let ghost ta = toks;
        let ghost pa = p@;
        let t = match toks.next() {
            Some(t) => t,
            None => {
                return match p.state {
                    State::Start | State::Newline => Ok(p.root),
                    _ => Err(toks.parse_error(ParseErrorType::Unclosed)),
                };
            },
        };
        let ghost tb = toks;
        proof {
            lemma_moved_one(ta, tb);
            lemma_moved_trans(t0, ta, tb, used, 1);
            used = used + 1;
        }
        let ghost step = astep(pa, t, tb.rest(), floats@);
        match p.step(t, &mut toks, floats) {
            None => {
                proof {
                    let u = step->Go_1;
                    lemma_moved_trans(t0, tb, toks, used, u);
                    used = used + u;
                    assert(tb.rest().skip(u) == toks.rest());
                }
            },
            Some(e) => {
                proof {
                    let u = step->Stop_1;
                    lemma_moved_trans(t0, tb, toks, used, u);
                }
                return Err(e);
            },
        }
    }
}

} // verus!
