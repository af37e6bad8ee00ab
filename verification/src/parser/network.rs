//! The parser of network files: one connection `a -> b` per line.
use vstd::prelude::*;
use crate::network::{StrPath, StrPathV};
use crate::parser::{ParseError, ParseErrorType, PErr};
use crate::parser::tasks::{moved, located, lemma_moved_zero, lemma_moved_trans, start_cursor, error_at};
use crate::parser::tokenizer::{Token, TaskToken, VecTokens, Kind, advance, advance_all};

verus! {

/// Where the parser stands on a line.
pub enum State {
    /// after a node name
    PathSep(String),
    /// after `->`
    Output(String),
    /// after the second node name
    Newline(String, String),
    /// at the start of a line
    Start,
}

pub enum NetV {
    PathSep(Seq<char>),
    Output(Seq<char>),
    Newline(Seq<char>, Seq<char>),
    Start,
}

impl View for State {
    type V = NetV;

    open spec fn view(&self) -> NetV {
        match self {
            State::PathSep(s) => NetV::PathSep(s@),
            State::Output(s) => NetV::Output(s@),
            State::Newline(s, e) => NetV::Newline(s@, e@),
            State::Start => NetV::Start,
        }
    }
}

/// A node name read in state `st`.
pub open spec fn net_name(st: NetV, name: Seq<char>) -> Result<NetV, PErr> {
    match st {
        NetV::Start => Ok(NetV::PathSep(name)),
        NetV::Output(s) => Ok(NetV::Newline(s, name)),
        _ => Err(PErr::Syntax),
    }
}

/// What token `t` does in state `st`: the new state and the connection it
/// completes, if any.
pub open spec fn net_step(st: NetV, t: Token) -> Result<(NetV, Option<StrPathV>), PErr> {
    match t.ty@ {
        Kind::WhiteSpace | Kind::Comment => Ok((st, None)),
        Kind::NewLine => match st {
            NetV::Newline(s, e) => Ok((NetV::Start, Some(StrPathV { start: s, end: e, attributes: None }))),
            NetV::Start => Ok((NetV::Start, None)),
            _ => Err(PErr::Syntax),
        },
        Kind::Variable | Kind::Integer | Kind::Bool => match net_name(st, t.content@) {
            Ok(s2) => Ok((s2, None)),
            Err(e) => Err(e),
        },
        Kind::Str(s) => match net_name(st, s) {
            Ok(s2) => Ok((s2, None)),
            Err(e) => Err(e),
        },
        Kind::PathSep => match st {
            NetV::PathSep(s) => Ok((NetV::Output(s), None)),
            _ => Err(PErr::Syntax),
        },
        _ => Err(PErr::InvalidToken),
    }
}

/// Parsing the tokens `ts` in state `st` after the connections `paths`:
/// the connections or the error, and how many tokens were read.
pub open spec fn net_parse(ts: Seq<Token>, st: NetV, paths: Seq<StrPathV>) -> (Result<Seq<StrPathV>, PErr>, int)
    decreases ts.len(),
{
    if ts.len() == 0 {
        (if st == NetV::Start { Ok(paths) } else { Err(PErr::Unclosed) }, 0)
    } else {
        match net_step(st, ts[0]) {
            Err(e) => (Err(e), 1),
            Ok((s2, p)) => {
                let (r, u) = net_parse(ts.drop_first(), s2, match p {
                    Some(x) => paths.push(x),
                    None => paths,
                });
                (r, 1 + u)
            },
        }
    }
}

pub open spec fn paths_view(p: Seq<StrPath>) -> Seq<StrPathV> {
    p.map_values(|x: StrPath| x@)
}

/// A node name read in state `st`.
fn take_name(st: State, name: String, tokens: &VecTokens) -> (r: Result<State, ParseError>)
    ensures
        match (r, net_name(st@, name@)) {
            (Ok(s), Ok(v)) => s@ == v,
            (Err(e), Err(x)) => e.ty@ == x && located(e, *tokens),
            _ => false,
        },
{
    match st {
        State::Start => Ok(State::PathSep(name)),
        State::Output(s) => Ok(State::Newline(s, name)),
        _ => Err(tokens.parse_error(ParseErrorType::SyntaxError)),
    }
}

/// Parses the tokens of a network file into connections: each line holds
/// nothing, or a node name, `->` and a node name. Names are identifiers,
/// integers, booleans or quoted strings; the last line needs its newline.
pub fn parse(tokens: Vec<Token>) -> (r: Result<Vec<StrPath>, ParseError>)
    ensures
        match (r, net_parse(tokens@, NetV::Start, Seq::empty()).0) {
            (Ok(v), Ok(w)) => paths_view(v@) == w,
            (Err(e), Err(x)) => e.ty@ == x && error_at(e, tokens@, net_parse(tokens@, NetV::Start, Seq::empty()).1),
            _ => false,
        },
{
    let ghost ts = tokens@;
    let ghost total = net_parse(ts, NetV::Start, Seq::empty());
    let mut toks = VecTokens::new(tokens);
    let ghost t0 = toks;
    let mut state = State::Start;
    let mut paths: Vec<StrPath> = Vec::new();
    let ghost mut used: int = 0;
    proof {
        lemma_moved_zero(t0);
        assert(paths_view(paths@) =~= Seq::<StrPathV>::empty());
    }
    loop
        invariant
            ts == tokens@,
            t0.rest() == ts,
            t0.cursor() == start_cursor(),
            total == net_parse(ts, NetV::Start, Seq::empty()),
            moved(t0, toks, used),
            total.0 == net_parse(toks.rest(), state@, paths_view(paths@)).0,
            total.1 == used + net_parse(toks.rest(), state@, paths_view(paths@)).1,
        decreases toks.rest().len(),
    {
        let ghost ta = toks;
        let t = match toks.next() {
            Some(t) => t,
            None => {
                return match state {
                    State::Start => Ok(paths),
                    _ => Err(toks.parse_error(ParseErrorType::Unclosed)),
                };
            },
        };
        proof {
            let s = ta.rest();
            assert(s.skip(1) =~= s.drop_first());
            assert(s.take(1).drop_first() =~= Seq::<Token>::empty());
            assert(advance_all(advance(ta.cursor(), s[0]), Seq::<Token>::empty()) == advance(ta.cursor(), s[0]));
            assert(moved(ta, toks, 1));
            lemma_moved_trans(t0, ta, toks, used, 1);
            used = used + 1;
        }
        match t.ty {
            TaskToken::WhiteSpace | TaskToken::Comment => {},
            TaskToken::NewLine => {
                let mut st = State::Start;
                std::mem::swap(&mut st, &mut state);
                match st {
                    State::Newline(s, e) => {
                        let ghost before = paths@;
                        paths.push(StrPath::new(s, e));
                        assert(paths_view(paths@) =~= paths_view(before).push(paths@.last()@));
                    },
                    State::Start => {},
                    _ => return Err(toks.parse_error(ParseErrorType::SyntaxError)),
                }
            },
            TaskToken::Variable | TaskToken::Integer | TaskToken::Bool => {
                let mut st = State::Start;
                std::mem::swap(&mut st, &mut state);
                state = match take_name(st, t.content, &toks) {
                    Ok(s) => s,
                    Err(e) => return Err(e),
                };
            },
            TaskToken::String(s) => {
                let mut st = State::Start;
                std::mem::swap(&mut st, &mut state);
                state = match take_name(st, s, &toks) {
                    Ok(s) => s,
                    Err(e) => return Err(e),
                };
            },
            TaskToken::PathSep => {
                let mut st = State::Start;
                std::mem::swap(&mut st, &mut state);
                match st {
                    State::PathSep(s) => {
                        state = State::Output(s);
                    },
                    _ => return Err(toks.parse_error(ParseErrorType::SyntaxError)),
                }
            },
            _ => return Err(toks.parse_error(ParseErrorType::InvalidToken)),
        }
    }
}

} // verus!
