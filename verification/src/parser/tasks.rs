//! The parser of task scripts: from tokens to tasks.
use vstd::prelude::*;
use crate::attrs::{AttrMap, Attribute, Val, upsert};
use crate::parser::{ParseError, ParseErrorType, PErr};
use crate::parser::tokenizer::{
    Token, TaskToken, VecTokens, Kind, Cursor, advance, advance_all, first_kept, text_to_eol,
    token_value, lemma_first_kept, lemma_advance_all_push,
};
use crate::values::FloatTable;
use crate::tasks::{TaskInput, InputV, Task, TaskV, TaskType, TaskTypeV, TaskKeyword, FunctionCall, kw_upsert, opt_str_view};
use crate::network::{StrPath, StrPathV};
use crate::functions::{Propagation, PropV, Condition, CondV};
use crate::text::{owned, push_str, str_eq};

verus! {

// ---------------------------------------------------------------------------
// Reading positions.
// ---------------------------------------------------------------------------

/// `t` is what is left of `s` after reading `used` of its tokens.
pub open spec fn moved(s: VecTokens, t: VecTokens, used: int) -> bool {
    &&& 0 <= used <= s.rest().len()
    &&& t.rest() == s.rest().skip(used)
    &&& t.cursor() == advance_all(s.cursor(), s.rest().take(used))
}

/// `e` points at the token read last from `t`.
pub open spec fn located(e: ParseError, t: VecTokens) -> bool {
    &&& e.line == t.cursor().line
    &&& e.col == t.cursor().colstart
    &&& e.linestr@ == t.cursor().linestr + text_to_eol(t.rest())
}

pub proof fn lemma_advance_all_concat(c: Cursor, xs: Seq<Token>, ys: Seq<Token>)
    ensures
        advance_all(c, xs + ys) == advance_all(advance_all(c, xs), ys),
    decreases xs.len(),
{
    if xs.len() > 0 {
        assert((xs + ys).drop_first() =~= xs.drop_first() + ys);
        lemma_advance_all_concat(advance(c, xs[0]), xs.drop_first(), ys);
    } else {
        assert(xs + ys =~= ys);
    }
}

pub proof fn lemma_moved_trans(a: VecTokens, b: VecTokens, c: VecTokens, u1: int, u2: int)
    requires
        moved(a, b, u1),
        moved(b, c, u2),
    ensures
        moved(a, c, u1 + u2),
{
    let s = a.rest();
    assert(s.skip(u1).skip(u2) =~= s.skip(u1 + u2));
    assert(s.take(u1 + u2) =~= s.take(u1) + s.skip(u1).take(u2));
    lemma_advance_all_concat(a.cursor(), s.take(u1), s.skip(u1).take(u2));
}

pub proof fn lemma_moved_zero(a: VecTokens)
    ensures
        moved(a, a, 0),
{
    assert(a.rest().skip(0) =~= a.rest());
    assert(a.rest().take(0) =~= Seq::<Token>::empty());
}

/// Reads the next token that is not white space or a comment (nor, with
/// `newline`, a newline).
fn next_token(tokens: &mut VecTokens, newline: bool) -> (r: Option<Token>)
    ensures
        match first_kept(old(tokens).rest(), newline) {
            None => r is None && moved(*old(tokens), *final(tokens), old(tokens).rest().len() as int),
            Some(k) => r == Some(old(tokens).rest()[k]) && moved(*old(tokens), *final(tokens), k + 1),
        },
{
    proof {
        lemma_first_kept(old(tokens).rest(), newline);
    }
    let r = tokens.next_no_ws(newline);
    proof {
        let s = old(tokens).rest();
        assert(s.skip(s.len() as int) =~= Seq::<Token>::empty());
        assert(s.take(s.len() as int) =~= s);
    }
    r
}

// ---------------------------------------------------------------------------
// Attribute values.
// ---------------------------------------------------------------------------

/// The value of a single token, where tokens that are no values are errors.
pub open spec fn tok_attr(t: Token, fl: Seq<(Seq<char>, u64)>) -> Result<Option<Val>, PErr> {
    match token_value(t.ty@, t.content@, fl) {
        Ok(Some(v)) => Ok(Some(v)),
        Ok(None) => Err(PErr::Value("Not an Attribute"@)),
        Err(e) => Err(PErr::Value(e)),
    }
}

/// Reading a value that starts with token `t`, from the tokens `ts`:
/// the result, and how many of `ts` are read.
pub open spec fn ra_tok(ts: Seq<Token>, t: Token, newline: bool, fl: Seq<(Seq<char>, u64)>) -> (Result<Option<Val>, PErr>, int)
    decreases ts.len(), 1int,
{
    if !newline && t.ty@ is NewLine {
        (Err(PErr::Unclosed), 0)
    } else if t.ty@ is BracketStart {
        ra_arr(ts, Seq::empty(), false, newline, fl)
    } else if t.ty@ is BraceStart {
        ra_tab(ts, Seq::empty(), false, false, None, newline, fl)
    } else {
        (tok_attr(t, fl), 0)
    }
}

/// The rest of an array, after the values `vals`; `want_comma` after a value.
pub open spec fn ra_arr(ts: Seq<Token>, vals: Seq<Val>, want_comma: bool, newline: bool, fl: Seq<(Seq<char>, u64)>) -> (Result<Option<Val>, PErr>, int)
    decreases ts.len(), 0int,
{
    match first_kept(ts, newline) {
        None => (Err(PErr::Unclosed), ts.len() as int),
        Some(k) => {
            proof {
                lemma_first_kept(ts, newline);
            }
            let t = ts[k];
            let rest = ts.skip(k + 1);
            if want_comma {
                if t.ty@ is Comma {
                    let (r, u) = ra_arr(rest, vals, false, newline, fl);
                    (r, k + 1 + u)
                } else if t.ty@ is BracketEnd {
                    (Ok(Some(Val::Array(vals))), k + 1)
                } else {
                    (Err(PErr::Syntax), k + 1)
                }
            } else {
                let (r, u) = ra_tok(rest, t, newline, fl);
                match r {
                    Err(e) => (Err(e), k + 1 + u),
                    Ok(a) => if 0 <= u <= rest.len() {
                        let (r2, u2) = ra_arr(
                            rest.skip(u),
                            match a {
                                Some(x) => vals.push(x),
                                None => vals,
                            },
                            a is Some,
                            newline,
                            fl,
                        );
                        (r2, k + 1 + u + u2)
                    } else {
                        (Err(PErr::Syntax), k + 1 + u)
                    },
                }
            }
        },
    }
}

/// The rest of a table, after the entries `vals`: `want_eq` after a key,
/// `want_comma` after a value, `name` the key whose value comes next.
pub open spec fn ra_tab(
    ts: Seq<Token>,
    vals: Seq<(Seq<char>, Val)>,
    want_eq: bool,
    want_comma: bool,
    name: Option<Seq<char>>,
    newline: bool,
    fl: Seq<(Seq<char>, u64)>,
) -> (Result<Option<Val>, PErr>, int)
    decreases ts.len(), 0int,
{
    match first_kept(ts, newline) {
        None => (Err(PErr::Unclosed), ts.len() as int),
        Some(k) => {
            proof {
                lemma_first_kept(ts, newline);
            }
            let t = ts[k];
            let rest = ts.skip(k + 1);
            if want_eq {
                if t.ty@ is Assignment {
                    let (r, u) = ra_tab(rest, vals, false, want_comma, name, newline, fl);
                    (r, k + 1 + u)
                } else {
                    (Err(PErr::Syntax), k + 1)
                }
            } else if want_comma {
                if t.ty@ is Comma {
                    let (r, u) = ra_tab(rest, vals, false, false, name, newline, fl);
                    (r, k + 1 + u)
                } else if t.ty@ is BraceEnd {
                    (Ok(Some(Val::Table(vals))), k + 1)
                } else {
                    (Err(PErr::Syntax), k + 1)
                }
            } else {
                match name {
                    Some(key) => {
                        let (r, u) = ra_tok(rest, t, newline, fl);
                        match r {
                            Err(e) => (Err(e), k + 1 + u),
                            Ok(Some(a)) => if 0 <= u <= rest.len() {
                                let (r2, u2) = ra_tab(rest.skip(u), upsert(vals, key, a), false, true, None, newline, fl);
                                (r2, k + 1 + u + u2)
                            } else {
                                (Err(PErr::Syntax), k + 1 + u)
                            },
                            Ok(None) => (Err(PErr::Syntax), k + 1 + u),
                        }
                    },
                    None => match t.ty@ {
                        Kind::Variable => {
                            let (r, u) = ra_tab(rest, vals, true, false, Some(t.content@), newline, fl);
                            (r, k + 1 + u)
                        },
                        Kind::Str(s) => {
                            let (r, u) = ra_tab(rest, vals, true, false, Some(s), newline, fl);
                            (r, k + 1 + u)
                        },
                        _ => (Err(PErr::Value("Key can only be string"@)), k + 1),
                    },
                }
            }
        },
    }
}

/// Reading a value: from `start`, or else from the next token that is not
/// white space.
pub open spec fn ra(ts: Seq<Token>, start: Option<Token>, newline: bool, fl: Seq<(Seq<char>, u64)>) -> (Result<Option<Val>, PErr>, int) {
    match start {
        Some(t) => ra_tok(ts, t, newline, fl),
        None => match first_kept(ts, newline) {
            None => (Ok(None), ts.len() as int),
            Some(k) => {
                let (r, u) = ra_tok(ts.skip(k + 1), ts[k], newline, fl);
                (r, k + 1 + u)
            },
        },
    }
}

/// The result of reading a value agrees with the spec-level result `s`,
/// errors pointing at where reading stopped.
pub open spec fn attr_agrees(r: Result<Option<Attribute>, ParseError>, s: Result<Option<Val>, PErr>, at: VecTokens) -> bool {
    match (r, s) {
        (Ok(Some(a)), Ok(Some(v))) => a@ == v,
        (Ok(None), Ok(None)) => true,
        (Err(e), Err(p)) => e.ty@ == p && located(e, at),
        _ => false,
    }
}

/// The value of a single token, where tokens that are no values are errors.
fn token_attr(t: &Token, tokens: &VecTokens, floats: &FloatTable) -> (r: Result<Option<Attribute>, ParseError>)
    ensures
        attr_agrees(r, tok_attr(*t, floats@), *tokens),
{
    match t.attribute(floats) {
        Ok(Some(v)) => Ok(Some(v)),
        Ok(None) => {
            proof {
                reveal_strlit("Not an Attribute");
            }
            Err(tokens.parse_error(ParseErrorType::ValueError("Not an Attribute")))
        },
        Err(e) => Err(tokens.parse_error(ParseErrorType::ValueError(e))),
    }
}

/// Reads the rest of an array, after its `[`.
fn read_array(tokens: &mut VecTokens, newline: bool, floats: &FloatTable) -> (r: Result<Option<Attribute>, ParseError>)
    ensures
        moved(*old(tokens), *final(tokens), ra_arr(old(tokens).rest(), Seq::empty(), false, newline, floats@).1),
        attr_agrees(r, ra_arr(old(tokens).rest(), Seq::empty(), false, newline, floats@).0, *final(tokens)),
    decreases old(tokens).rest().len(), 0int,
{
    let ghost t1 = *tokens;
    let ghost total = ra_arr(t1.rest(), Seq::empty(), false, newline, floats@);
    let mut vals: Vec<Attribute> = Vec::new();
    let mut want_comma = false;
    let ghost mut used: int = 0;
    proof {
        lemma_moved_zero(t1);
        crate::attrs::lemma_attrs_view(vals@);
        assert(crate::attrs::attrs_view(vals@) =~= Seq::<Val>::empty());
    }
    loop
        invariant
            t1 == *old(tokens),
            total == ra_arr(t1.rest(), Seq::empty(), false, newline, floats@),
            moved(t1, *tokens, used),
            total.0 == ra_arr(tokens.rest(), crate::attrs::attrs_view(vals@), want_comma, newline, floats@).0,
            total.1 == used + ra_arr(tokens.rest(), crate::attrs::attrs_view(vals@), want_comma, newline, floats@).1,
        decreases tokens.rest().len(),
    {
        let ghost ta = *tokens;
        proof {
            lemma_first_kept(ta.rest(), newline);
        }
        let t = match next_token(tokens, newline) {
            Some(t) => t,
            None => {
                proof {
                    lemma_moved_trans(t1, ta, *tokens, used, ta.rest().len() as int);
                }
                return Err(tokens.parse_error(ParseErrorType::Unclosed));
            },
        };
        let ghost k = first_kept(ta.rest(), newline)->0;
        proof {
            lemma_moved_trans(t1, ta, *tokens, used, k + 1);
            used = used + k + 1;
        }
        if want_comma {
            match t.ty {
                TaskToken::Comma => {
                    want_comma = false;
                    continue;
                },
                TaskToken::BracketEnd => {
                    return Ok(Some(Attribute::Array(vals)));
                },
                _ => {
                    return Err(tokens.parse_error(ParseErrorType::SyntaxError));
                },
            }
        }
        let ghost tb = *tokens;
        let a = read_attribute(Some(t), tokens, newline, floats);
        let ghost u = ra_tok(tb.rest(), t, newline, floats@).1;
        proof {
            lemma_moved_trans(t1, tb, *tokens, used, u);
            used = used + u;
        }
        match a {
            Err(e) => return Err(e),
            Ok(Some(a)) => {
                let ghost before = vals@;
                vals.push(a);
                want_comma = true;
                proof {
                    assert(vals@.drop_last() =~= before);
                }
            },
            Ok(None) => {},
        }
    }
}

/// Reads the rest of a table, after its `{`.
fn read_table(tokens: &mut VecTokens, newline: bool, floats: &FloatTable) -> (r: Result<Option<Attribute>, ParseError>)
    ensures
        moved(*old(tokens), *final(tokens), ra_tab(old(tokens).rest(), Seq::empty(), false, false, None, newline, floats@).1),
        attr_agrees(r, ra_tab(old(tokens).rest(), Seq::empty(), false, false, None, newline, floats@).0, *final(tokens)),
    decreases old(tokens).rest().len(), 0int,
{
    let ghost t1 = *tokens;
    let ghost total = ra_tab(t1.rest(), Seq::empty(), false, false, None, newline, floats@);
    let mut vals = AttrMap::new();
    let mut want_eq = false;
    let mut want_comma = false;
    let mut name: Option<String> = None;
    let ghost mut used: int = 0;
    proof {
        lemma_moved_zero(t1);
    }
    loop
        invariant
            t1 == *old(tokens),
            total == ra_tab(t1.rest(), Seq::empty(), false, false, None, newline, floats@),
            moved(t1, *tokens, used),
            total.0 == ra_tab(tokens.rest(), vals@, want_eq, want_comma, crate::tasks::opt_str_view(name), newline, floats@).0,
            total.1 == used + ra_tab(tokens.rest(), vals@, want_eq, want_comma, crate::tasks::opt_str_view(name), newline, floats@).1,
        decreases tokens.rest().len(),
    {
        let ghost ta = *tokens;
        proof {
            lemma_first_kept(ta.rest(), newline);
        }
        let t = match next_token(tokens, newline) {
            Some(t) => t,
            None => {
                proof {
                    lemma_moved_trans(t1, ta, *tokens, used, ta.rest().len() as int);
                }
                return Err(tokens.parse_error(ParseErrorType::Unclosed));
            },
        };
        let ghost k = first_kept(ta.rest(), newline)->0;
        proof {
            lemma_moved_trans(t1, ta, *tokens, used, k + 1);
            used = used + k + 1;
        }
        if want_eq {
            match t.ty {
                TaskToken::Assignment => {
                    want_eq = false;
                    continue;
                },
                _ => {
                    return Err(tokens.parse_error(ParseErrorType::SyntaxError));
                },
            }
        }
        if want_comma {
            match t.ty {
                TaskToken::Comma => {
                    want_comma = false;
                    continue;
                },
                TaskToken::BraceEnd => {
                    return Ok(Some(Attribute::Table(vals)));
                },
                _ => {
                    return Err(tokens.parse_error(ParseErrorType::SyntaxError));
                },
            }
        }
        let mut taken: Option<String> = None;
        std::mem::swap(&mut taken, &mut name);
        match taken {
            Some(key) => {
                let ghost tb = *tokens;
                let a = read_attribute(Some(t), tokens, newline, floats);
                let ghost u = ra_tok(tb.rest(), t, newline, floats@).1;
                proof {
                    lemma_moved_trans(t1, tb, *tokens, used, u);
                    used = used + u;
                }
                match a {
                    Err(e) => return Err(e),
                    Ok(Some(a)) => {
                        vals.insert(key, a);
                        want_eq = false;
                        want_comma = true;
                    },
                    Ok(None) => return Err(tokens.parse_error(ParseErrorType::SyntaxError)),
                }
            },
            None => {
                want_eq = true;
                match t.ty {
                    TaskToken::Variable => {
                        name = Some(t.content);
                    },
                    TaskToken::String(s) => {
                        name = Some(s);
                    },
                    _ => {
                        proof {
                            reveal_strlit("Key can only be string");
                        }
                        return Err(tokens.parse_error(ParseErrorType::ValueError("Key can only be string")));
                    },
                }
            },
        }
    }
}

/// Reads an attribute value: an array `[a, b, ...]`, a table
/// `{key = value, ...}` or a single value. With `start` the value starts
/// with that token, else with the next token that is not white space;
/// newlines inside arrays and tables are allowed with `newline`. Float
/// literals take their values from `floats`.
pub fn read_attribute(start: Option<Token>, tokens: &mut VecTokens, newline: bool, floats: &FloatTable) -> (r: Result<Option<Attribute>, ParseError>)
    ensures
        moved(*old(tokens), *final(tokens), ra(old(tokens).rest(), start, newline, floats@).1),
        attr_agrees(r, ra(old(tokens).rest(), start, newline, floats@).0, *final(tokens)),
    decreases old(tokens).rest().len(), 1int,
{
    let ghost t0 = *tokens;
    let tk = match start {
        Some(t) => {
            proof {
                lemma_moved_zero(t0);
            }
            t
        },
        None => match next_token(tokens, newline) {
            None => return Ok(None),
            Some(t) => t,
        },
    };
    let ghost t1 = *tokens;
    let ghost u1: int = t0.rest().len() - t1.rest().len();
    proof {
        assert(moved(t0, t1, u1));
    }
    match tk.ty {
        TaskToken::NewLine if !newline => {
            proof {
                lemma_moved_zero(t1);
                lemma_moved_trans(t0, t1, t1, u1, 0);
            }
            Err(tokens.parse_error(ParseErrorType::Unclosed))
        },
        TaskToken::BracketStart => {
            let r = read_array(tokens, newline, floats);
            proof {
                lemma_moved_trans(t0, t1, *tokens, u1, ra_arr(t1.rest(), Seq::empty(), false, newline, floats@).1);
            }
            r
        },
        TaskToken::BraceStart => {
            let r = read_table(tokens, newline, floats);
            proof {
                lemma_moved_trans(t0, t1, *tokens, u1, ra_tab(t1.rest(), Seq::empty(), false, false, None, newline, floats@).1);
            }
            r
        },
        _ => {
            proof {
                lemma_moved_zero(t1);
                lemma_moved_trans(t0, t1, t1, u1, 0);
            }
            token_attr(&tk, tokens, floats)
        },
    }
}

// ---------------------------------------------------------------------------
// Inputs, variables and propagations.
// ---------------------------------------------------------------------------

/// Reading the input of a task or an argument: a variable name or a value.
pub open spec fn ri(ts: Seq<Token>, start: Option<Token>, fl: Seq<(Seq<char>, u64)>) -> (Result<InputV, PErr>, int) {
    let (tk, u0) = match start {
        Some(t) => (Some(t), 0int),
        None => match first_kept(ts, true) {
            None => (None, ts.len() as int),
            Some(k) => (Some(ts[k]), k + 1),
        },
    };
    match tk {
        None => (Ok(InputV::Empty), u0),
        Some(t) => if t.ty@ is Variable {
            (Ok(InputV::Variable(t.content@)), u0)
        } else {
            let (r, u) = ra(ts.skip(u0), Some(t), true, fl);
            (
                match r {
                    Ok(Some(a)) => Ok(InputV::Literal(a)),
                    Ok(None) => Ok(InputV::Empty),
                    Err(e) => Err(e),
                },
                u0 + u,
            )
        },
    }
}

/// Reads the input of a task or an argument, starting with `start` or
/// else with the next token that is not white space.
pub fn read_input(start: Option<Token>, tokens: &mut VecTokens, floats: &FloatTable) -> (r: Result<TaskInput, ParseError>)
    ensures
        moved(*old(tokens), *final(tokens), ri(old(tokens).rest(), start, floats@).1),
        match (r, ri(old(tokens).rest(), start, floats@).0) {
            (Ok(i), Ok(v)) => i@ == v,
            (Err(e), Err(p)) => e.ty@ == p && located(e, *final(tokens)),
            _ => false,
        },
{
    let ghost t0 = *tokens;
    let tk = match start {
        Some(t) => {
            proof {
                lemma_moved_zero(t0);
            }
            t
        },
        None => match next_token(tokens, true) {
            None => return Ok(TaskInput::Empty),
            Some(t) => t,
        },
    };
    let ghost t1 = *tokens;
    let ghost u1: int = t0.rest().len() - t1.rest().len();
    match tk.ty {
        TaskToken::Variable => {
            proof {
                lemma_moved_zero(t1);
                lemma_moved_trans(t0, t1, t1, u1, 0);
            }
            Ok(TaskInput::Variable(tk.content))
        },
        _ => {
            let ghost tk2 = tk;
            let r = read_attribute(Some(tk), tokens, true, floats);
            proof {
                lemma_moved_trans(t0, t1, *tokens, u1, ra(t1.rest(), Some(tk2), true, floats@).1);
            }
            match r {
                Ok(Some(a)) => Ok(TaskInput::Literal(a)),
                Ok(None) => Ok(TaskInput::Empty),
                Err(e) => Err(e),
            }
        },
    }
}

/// Reading the rest of a dotted name `a.b.c`, after `acc`.
pub open spec fn rv(ts: Seq<Token>, acc: Seq<char>) -> (Result<Seq<char>, PErr>, int)
    decreases ts.len(),
{
    match first_kept(ts, true) {
        Some(k) => {
            proof {
                lemma_first_kept(ts, true);
            }
            if ts[k].ty@ is Dot {
                let r1 = ts.skip(k + 1);
                match first_kept(r1, true) {
                    Some(k2) => {
                        proof {
                            lemma_first_kept(r1, true);
                        }
                        if r1[k2].ty@ is Variable {
                            let (r, u) = rv(r1.skip(k2 + 1), acc + "."@ + r1[k2].content@);
                            (r, k + 1 + k2 + 1 + u)
                        } else {
                            (Err(PErr::Syntax), k + 1)
                        }
                    },
                    None => (Err(PErr::Syntax), k + 1),
                }
            } else {
                (Ok(acc), 0)
            }
        },
        None => (Ok(acc), 0),
    }
}

/// Reads a dotted name that starts with `pre`: each `.` must be followed
/// by a name.
pub fn read_variable(pre: &str, tokens: &mut VecTokens) -> (r: Result<String, ParseError>)
    ensures
        moved(*old(tokens), *final(tokens), rv(old(tokens).rest(), pre@).1),
        match (r, rv(old(tokens).rest(), pre@).0) {
            (Ok(s), Ok(v)) => s@ == v,
            (Err(e), Err(p)) => e.ty@ == p && located(e, *final(tokens)),
            _ => false,
        },
{
    let ghost t0 = *tokens;
    let ghost total = rv(t0.rest(), pre@);
    let mut name = owned(pre);
    let ghost mut used: int = 0;
    proof {
        lemma_moved_zero(t0);
        reveal_strlit(".");
    }
    loop
        invariant
            t0 == *old(tokens),
            total == rv(t0.rest(), pre@),
            moved(t0, *tokens, used),
            total.0 == rv(tokens.rest(), name@).0,
            total.1 == used + rv(tokens.rest(), name@).1,
        decreases tokens.rest().len(),
    {
        let ghost ta = *tokens;
        proof {
            lemma_first_kept(ta.rest(), true);
            lemma_moved_zero(ta);
        }
        if tokens.next_no_ws_if(true, TaskToken::Dot).is_some() {
            let ghost k = first_kept(ta.rest(), true)->0;
            let ghost tb = *tokens;
            proof {
                lemma_moved_trans(t0, ta, tb, used, k + 1);
                lemma_first_kept(tb.rest(), true);
                lemma_moved_zero(tb);
            }
            match tokens.next_no_ws_if(true, TaskToken::Variable) {
                Some(t) => {
                    let ghost k2 = first_kept(tb.rest(), true)->0;
                    proof {
                        lemma_moved_trans(t0, tb, *tokens, used + k + 1, k2 + 1);
                        used = used + k + 1 + k2 + 1;
                    }
                    push_str(&mut name, ".");
                    push_str(&mut name, t.content.as_str());
                },
                None => {
                    proof {
                        lemma_moved_trans(t0, tb, *tokens, used + k + 1, 0);
                    }
                    return Err(tokens.parse_error(ParseErrorType::SyntaxError));
                },
            }
        } else {
            proof {
                lemma_moved_trans(t0, ta, *tokens, used, 0);
            }
            return Ok(name);
        }
    }
}

/// The propagation a word names.
pub open spec fn prop_named(n: Seq<char>) -> Option<PropV> {
    if n == "sequential"@ {
        Some(PropV::Sequential)
    } else if n == "inverse"@ {
        Some(PropV::Inverse)
    } else if n == "inputsfirst"@ {
        Some(PropV::InputsFirst)
    } else if n == "outputfirst"@ {
        Some(PropV::OutputFirst)
    } else {
        None
    }
}

/// Reading `<name>` after its `<`: `Ok(None)` where the tokens end.
pub open spec fn rp(ts: Seq<Token>) -> (Result<Option<PropV>, PErr>, int) {
    match first_kept(ts, true) {
        None => (Ok(None), ts.len() as int),
        Some(k) => {
            let t = ts[k];
            let name = match t.ty@ {
                Kind::Variable => Some(t.content@),
                Kind::Str(s) => Some(s),
                _ => None,
            };
            match name {
                None => (Err(PErr::InvalidPropagation), k + 1),
                Some(n) => match prop_named(n) {
                    None => (Err(PErr::InvalidPropagation), k + 1),
                    Some(p) => {
                        let r1 = ts.skip(k + 1);
                        match first_kept(r1, true) {
                            None => (Ok(None), k + 1 + r1.len()),
                            Some(k2) => if r1[k2].ty@ is AngleEnd {
                                (Ok(Some(p)), k + 1 + k2 + 1)
                            } else {
                                (Err(PErr::Unclosed), k + 1 + k2 + 1)
                            },
                        }
                    },
                },
            }
        },
    }
}

/// Reads a propagation by name, `<sequential>`, `<inverse>`,
/// `<inputsfirst>` or `<outputfirst>`, after its `<`.
pub fn read_propagation(tokens: &mut VecTokens) -> (r: Result<Option<Propagation>, ParseError>)
    ensures
        moved(*old(tokens), *final(tokens), rp(old(tokens).rest()).1),
        match (r, rp(old(tokens).rest()).0) {
            (Ok(Some(p)), Ok(Some(v))) => p@ == v,
            (Ok(None), Ok(None)) => true,
            (Err(e), Err(x)) => e.ty@ == x && located(e, *final(tokens)),
            _ => false,
        },
{
    let ghost t0 = *tokens;
    proof {
        lemma_first_kept(t0.rest(), true);
    }
    let tk = match next_token(tokens, true) {
        None => return Ok(None),
        Some(t) => t,
    };
    let ghost k = first_kept(t0.rest(), true)->0;
    let ghost t1 = *tokens;
    let prop = match tk.ty {
        TaskToken::Variable => tk.content,
        TaskToken::String(s) => s,
        _ => return Err(tokens.parse_error(ParseErrorType::InvalidPropagation)),
    };
    proof {
        reveal_strlit("sequential");
        reveal_strlit("inverse");
        reveal_strlit("inputsfirst");
        reveal_strlit("outputfirst");
    }
    let p = if str_eq(prop.as_str(), "sequential") {
        Propagation::Sequential
    } else if str_eq(prop.as_str(), "inverse") {
        Propagation::Inverse
    } else if str_eq(prop.as_str(), "inputsfirst") {
        Propagation::InputsFirst
    } else if str_eq(prop.as_str(), "outputfirst") {
        Propagation::OutputFirst
    } else {
        return Err(tokens.parse_error(ParseErrorType::InvalidPropagation));
    };
    proof {
        lemma_first_kept(t1.rest(), true);
    }
    match next_token(tokens, true) {
        None => {
            proof {
                lemma_moved_trans(t0, t1, *tokens, k + 1, t1.rest().len() as int);
            }
            Ok(None)
        },
        Some(t) => {
            let ghost k2 = first_kept(t1.rest(), true)->0;
            proof {
                lemma_moved_trans(t0, t1, *tokens, k + 1, k2 + 1);
            }
            match t.ty {
                TaskToken::AngleEnd => Ok(Some(p)),
                _ => Err(tokens.parse_error(ParseErrorType::Unclosed)),
            }
        },
    }
}

// ---------------------------------------------------------------------------
// Conditions.
// ---------------------------------------------------------------------------

/// A comparison.
#[derive(Clone, Copy, PartialEq, Eq, Debug, Structural)]
pub enum CompType {
    Eq,
    Lt,
    Gt,
}

/// Where the reading of a condition stands.
pub enum CondState {
    /// at the start, after this many `=`
    FirstVar(i64),
    /// after a leading `!`
    Not,
    /// after a whole condition
    Cond(Condition),
    /// after `&` (true) or `|` (false)
    SecondVar(Condition, bool),
    /// after a comparison sign
    SecondValue(Condition, CompType),
}

pub enum CondStateV {
    FirstVar(int),
    Not,
    Cond(CondV),
    SecondVar(CondV, bool),
    SecondValue(CondV, CompType),
}

impl View for CondState {
    type V = CondStateV;

    open spec fn view(&self) -> CondStateV {
        match self {
            CondState::FirstVar(i) => CondStateV::FirstVar(*i as int),
            CondState::Not => CondStateV::Not,
            CondState::Cond(c) => CondStateV::Cond(c@),
            CondState::SecondVar(c, a) => CondStateV::SecondVar(c@, *a),
            CondState::SecondValue(c, t) => CondStateV::SecondValue(c@, *t),
        }
    }
}

/// The propagation of a condition read after `strict` signs `=`.
pub open spec fn conditional(strict: int, c: CondV) -> PropV {
    if strict == 0 {
        PropV::Conditional(c)
    } else if strict == 1 {
        PropV::ConditionalStrict(c)
    } else {
        PropV::ConditionalSuperStrict(c)
    }
}

/// Two conditions joined by `&` (`and`) or `|`.
pub open spec fn joined(f: CondV, c: CondV, and: bool) -> CondV {
    if and {
        CondV::And(Box::new(f), Box::new(c))
    } else {
        CondV::Or(Box::new(f), Box::new(c))
    }
}

/// The comparison of attribute `var` with `c`.
pub open spec fn compared(ct: CompType, var: Seq<char>, c: CondV) -> CondV {
    match ct {
        CompType::Eq => CondV::Eq(var, Box::new(c)),
        CompType::Lt => CondV::Lt(var, Box::new(c)),
        CompType::Gt => CondV::Gt(var, Box::new(c)),
    }
}

/// A single operand of a condition, read from token `tk` and the tokens
/// `ts` after it: a dotted variable name or a value.
pub open spec fn cond_operand(ts: Seq<Token>, tk: Token, fl: Seq<(Seq<char>, u64)>) -> (Result<CondV, PErr>, int) {
    if tk.ty@ is Variable {
        let (r, u) = rv(ts, tk.content@);
        (
            match r {
                Ok(n) => Ok(CondV::Variable(n)),
                Err(e) => Err(e),
            },
            u,
        )
    } else {
        (
            match token_value(tk.ty@, tk.content@, fl) {
                Ok(Some(a)) => Ok(CondV::Literal(a)),
                Ok(None) => Err(PErr::InvalidPropagation),
                Err(e) => Err(PErr::Value(e)),
            },
            0,
        )
    }
}

/// What one token does to the reading of a condition: go on in a new
/// state (with the strictness and how many more tokens were read), or end.
pub enum CondStep {
    Go(CondStateV, int, int),
    Stop(Result<Option<PropV>, PErr>, int),
}

/// The step for token `tk` in state `st`, with `ts` the tokens after it.
pub open spec fn rc_step(ts: Seq<Token>, tk: Token, st: CondStateV, strict: int, fl: Seq<(Seq<char>, u64)>) -> CondStep {
    match tk.ty@ {
        Kind::Assignment => match st {
            CondStateV::FirstVar(i) => if i > 1 {
                CondStep::Stop(Err(PErr::Syntax), 0)
            } else {
                CondStep::Go(CondStateV::FirstVar(i + 1), strict, 0)
            },
            CondStateV::Cond(c) => CondStep::Go(CondStateV::SecondValue(c, CompType::Eq), strict, 0),
            _ => CondStep::Stop(Err(PErr::Syntax), 0),
        },
        Kind::AngleStart => match st {
            CondStateV::Cond(c) => CondStep::Go(CondStateV::SecondValue(c, CompType::Lt), strict, 0),
            _ => CondStep::Stop(Err(PErr::Syntax), 0),
        },
        Kind::AngleEnd => match st {
            CondStateV::Cond(c) => CondStep::Go(CondStateV::SecondValue(c, CompType::Gt), strict, 0),
            _ => CondStep::Stop(Err(PErr::Syntax), 0),
        },
        Kind::And => match st {
            CondStateV::Cond(c) => CondStep::Go(CondStateV::SecondVar(c, true), strict, 0),
            _ => CondStep::Stop(Err(PErr::Syntax), 0),
        },
        Kind::Or => match st {
            CondStateV::Cond(c) => CondStep::Go(CondStateV::SecondVar(c, false), strict, 0),
            _ => CondStep::Stop(Err(PErr::Syntax), 0),
        },
        Kind::Not => match st {
            CondStateV::FirstVar(i) => CondStep::Go(CondStateV::Not, i, 0),
            CondStateV::SecondVar(f, a) => match first_kept(ts, true) {
                None => CondStep::Stop(Err(PErr::Syntax), ts.len() as int),
                Some(k2) => {
                    let var = match ts[k2].ty@ {
                        Kind::Variable => Some(tk.content@),
                        Kind::Str(s) => Some(s),
                        _ => None,
                    };
                    match var {
                        None => CondStep::Stop(Err(PErr::Syntax), k2 + 1),
                        Some(v) => CondStep::Go(
                            CondStateV::Cond(joined(f, CondV::Not(Box::new(CondV::Variable(v))), a)),
                            strict,
                            k2 + 1,
                        ),
                    }
                },
            },
            _ => CondStep::Stop(Err(PErr::Syntax), 0),
        },
        Kind::ParenEnd => match st {
            CondStateV::Cond(c) => CondStep::Stop(Ok(Some(conditional(strict, c))), 0),
            _ => CondStep::Stop(Err(PErr::Unclosed), 0),
        },
        _ => {
            let (cd, u) = cond_operand(ts, tk, fl);
            match cd {
                Err(e) => CondStep::Stop(Err(e), u),
                Ok(cd) => match st {
                    CondStateV::FirstVar(i) => CondStep::Go(CondStateV::Cond(cd), i, u),
                    CondStateV::Not => CondStep::Go(CondStateV::Cond(CondV::Not(Box::new(cd))), strict, u),
                    CondStateV::SecondVar(f, a) => CondStep::Go(CondStateV::Cond(joined(f, cd, a)), strict, u),
                    CondStateV::SecondValue(c, ct) => match c {
                        CondV::Variable(v) => CondStep::Go(CondStateV::Cond(compared(ct, v, cd)), strict, u),
                        _ => CondStep::Stop(Err(PErr::InvalidPropagation), u),
                    },
                    CondStateV::Cond(_) => CondStep::Stop(Err(PErr::Syntax), u),
                },
            }
        },
    }
}

/// In a condition, a variable `v` followed by an operator token `op` (`<`,
/// `>` or `=`) and an operand token `tk` is read as the comparison of `v`
/// with that operand that the operator names, whatever the strictness and
/// the surrounding tokens.
pub proof fn law_comparison_follows_operator(
    ts_op: Seq<Token>,
    op: Token,
    ts: Seq<Token>,
    tk: Token,
    v: Seq<char>,
    strict: int,
    fl: Seq<(Seq<char>, u64)>,
)
    requires
        op.ty@ is AngleStart || op.ty@ is AngleEnd || op.ty@ is Assignment,
        !(tk.ty@ is AngleStart || tk.ty@ is AngleEnd || tk.ty@ is Assignment || tk.ty@ is And || tk.ty@ is Or
            || tk.ty@ is Not || tk.ty@ is ParenEnd),
        cond_operand(ts, tk, fl).0 is Ok,
    ensures
        ({
            let e = cond_operand(ts, tk, fl).0->Ok_0;
            let u = cond_operand(ts, tk, fl).1;
            match rc_step(ts_op, op, CondStateV::Cond(CondV::Variable(v)), strict, fl) {
                CondStep::Go(st2, s2, u0) => {
                    &&& s2 == strict
                    &&& u0 == 0
                    &&& op.ty@ is AngleStart ==> rc_step(ts, tk, st2, strict, fl)
                        == CondStep::Go(CondStateV::Cond(CondV::Lt(v, Box::new(e))), strict, u)
                    &&& op.ty@ is AngleEnd ==> rc_step(ts, tk, st2, strict, fl)
                        == CondStep::Go(CondStateV::Cond(CondV::Gt(v, Box::new(e))), strict, u)
                    &&& op.ty@ is Assignment ==> rc_step(ts, tk, st2, strict, fl)
                        == CondStep::Go(CondStateV::Cond(CondV::Eq(v, Box::new(e))), strict, u)
                },
                CondStep::Stop(_, _) => false,
            }
        }),
{
}

/// In a condition, a condition `c` read so far followed by `&` (or `|`)
/// and an operand token `tk` is read as `c` and (or) that operand.
pub proof fn law_join_follows_operator(
    ts_op: Seq<Token>,
    op: Token,
    ts: Seq<Token>,
    tk: Token,
    c: CondV,
    strict: int,
    fl: Seq<(Seq<char>, u64)>,
)
    requires
        op.ty@ is And || op.ty@ is Or,
        !(tk.ty@ is AngleStart || tk.ty@ is AngleEnd || tk.ty@ is Assignment || tk.ty@ is And || tk.ty@ is Or
            || tk.ty@ is Not || tk.ty@ is ParenEnd),
        cond_operand(ts, tk, fl).0 is Ok,
    ensures
        ({
            let e = cond_operand(ts, tk, fl).0->Ok_0;
            let u = cond_operand(ts, tk, fl).1;
            match rc_step(ts_op, op, CondStateV::Cond(c), strict, fl) {
                CondStep::Go(st2, s2, u0) => {
                    &&& s2 == strict
                    &&& u0 == 0
                    &&& op.ty@ is And ==> rc_step(ts, tk, st2, strict, fl)
                        == CondStep::Go(CondStateV::Cond(CondV::And(Box::new(c), Box::new(e))), strict, u)
                    &&& op.ty@ is Or ==> rc_step(ts, tk, st2, strict, fl)
                        == CondStep::Go(CondStateV::Cond(CondV::Or(Box::new(c), Box::new(e))), strict, u)
                },
                CondStep::Stop(_, _) => false,
            }
        }),
{
}

/// Reading the rest of a condition `(...)` in state `st`; `strict` counts
/// the leading signs `=`. `Ok(None)` where the tokens end.
pub open spec fn rc(ts: Seq<Token>, st: CondStateV, strict: int, fl: Seq<(Seq<char>, u64)>) -> (Result<Option<PropV>, PErr>, int)
    decreases ts.len(),
{
    match first_kept(ts, true) {
        None => (Ok(None), ts.len() as int),
        Some(k) => {
            proof {
                lemma_first_kept(ts, true);
            }
            let rest = ts.skip(k + 1);
            match rc_step(rest, ts[k], st, strict, fl) {
                CondStep::Go(st2, strict2, u) => if 0 <= u <= rest.len() {
                    let (r, u2) = rc(rest.skip(u), st2, strict2, fl);
                    (r, k + 1 + u + u2)
                } else {
                    (Err(PErr::Syntax), k + 1 + u)
                },
                CondStep::Stop(r, u) => (r, k + 1 + u),
            }
        },
    }
}

/// Reads a single operand of a condition, starting with token `tk`.
fn read_operand(tk: &Token, tokens: &mut VecTokens, floats: &FloatTable) -> (r: Result<Condition, ParseError>)
    ensures
        moved(*old(tokens), *final(tokens), cond_operand(old(tokens).rest(), *tk, floats@).1),
        match (r, cond_operand(old(tokens).rest(), *tk, floats@).0) {
            (Ok(c), Ok(v)) => c@ == v,
            (Err(e), Err(p)) => e.ty@ == p && located(e, *final(tokens)),
            _ => false,
        },
{
    match tk.ty {
        TaskToken::Variable => match read_variable(tk.content.as_str(), tokens) {
            Ok(n) => Ok(Condition::Variable(n)),
            Err(e) => Err(e),
        },
        _ => {
            proof {
                lemma_moved_zero(*tokens);
            }
            match tk.attribute(floats) {
                Ok(Some(a)) => Ok(Condition::Literal(a)),
                Ok(None) => Err(tokens.parse_error(ParseErrorType::InvalidPropagation)),
                Err(e) => Err(tokens.parse_error(ParseErrorType::ValueError(e))),
            }
        },
    }
}

/// What one token does to the reading of a condition, in exec form.
pub enum CondStepExec {
    Go(CondState, i64),
    Stop(Result<Option<Propagation>, ParseError>),
}

/// Takes token `tk` in state `state`.
fn cond_step(tk: Token, state: CondState, strict: i64, tokens: &mut VecTokens, floats: &FloatTable) -> (r: CondStepExec)
    requires
        0 <= strict <= 2,
        state@ matches CondStateV::FirstVar(i) ==> 0 <= i <= 2,
    ensures
        match rc_step(old(tokens).rest(), tk, state@, strict as int, floats@) {
            CondStep::Go(st2, s2, u) => r matches CondStepExec::Go(st, s) && st@ == st2 && s == s2
                && moved(*old(tokens), *final(tokens), u)
                && 0 <= s <= 2 && (st@ matches CondStateV::FirstVar(i) ==> 0 <= i <= 2),
            CondStep::Stop(res, u) => r matches CondStepExec::Stop(x) && moved(*old(tokens), *final(tokens), u)
                && match (x, res) {
                    (Ok(Some(p)), Ok(Some(v))) => p@ == v,
                    (Ok(None), Ok(None)) => true,
                    (Err(e), Err(y)) => e.ty@ == y && located(e, *final(tokens)),
                    _ => false,
                },
        },
{
    let ghost tb = *tokens;
    proof {
        lemma_moved_zero(tb);
    }
    match tk.ty {
        TaskToken::Assignment => match state {
            CondState::FirstVar(i) => {
                if i > 1 {
                    return CondStepExec::Stop(Err(tokens.parse_error(ParseErrorType::SyntaxError)));
                }
                CondStepExec::Go(CondState::FirstVar(i + 1), strict)
            },
            CondState::Cond(s) => CondStepExec::Go(CondState::SecondValue(s, CompType::Eq), strict),
            _ => CondStepExec::Stop(Err(tokens.parse_error(ParseErrorType::SyntaxError))),
        },
        TaskToken::AngleStart => match state {
            CondState::Cond(s) => CondStepExec::Go(CondState::SecondValue(s, CompType::Lt), strict),
            _ => CondStepExec::Stop(Err(tokens.parse_error(ParseErrorType::SyntaxError))),
        },
        TaskToken::AngleEnd => match state {
            CondState::Cond(s) => CondStepExec::Go(CondState::SecondValue(s, CompType::Gt), strict),
            _ => CondStepExec::Stop(Err(tokens.parse_error(ParseErrorType::SyntaxError))),
        },
        TaskToken::And => match state {
            CondState::Cond(s) => CondStepExec::Go(CondState::SecondVar(s, true), strict),
            _ => CondStepExec::Stop(Err(tokens.parse_error(ParseErrorType::SyntaxError))),
        },
        TaskToken::Or => match state {
            CondState::Cond(s) => CondStepExec::Go(CondState::SecondVar(s, false), strict),
            _ => CondStepExec::Stop(Err(tokens.parse_error(ParseErrorType::SyntaxError))),
        },
        TaskToken::Not => match state {
            CondState::FirstVar(i) => CondStepExec::Go(CondState::Not, i),
            CondState::SecondVar(f, a) => {
                proof {
                    lemma_first_kept(tb.rest(), true);
                }
                match next_token(tokens, true) {
                    Some(t) => {
                        let var = match t.ty {
                            TaskToken::Variable => tk.content,
                            TaskToken::String(s) => s,
                            _ => return CondStepExec::Stop(Err(tokens.parse_error(ParseErrorType::SyntaxError))),
                        };
                        let ghost vv = var@;
                        let inner = Condition::Variable(var);
                        assert(inner@ == CondV::Variable(vv));
                        let cv = Condition::Not(Box::new(inner));
                        assert(cv@ == CondV::Not(Box::new(CondV::Variable(vv))));
                        let cond = if a {
                            Condition::And(Box::new(f), Box::new(cv))
                        } else {
                            Condition::Or(Box::new(f), Box::new(cv))
                        };
                        CondStepExec::Go(CondState::Cond(cond), strict)
                    },
                    None => CondStepExec::Stop(Err(tokens.parse_error(ParseErrorType::SyntaxError))),
                }
            },
            _ => CondStepExec::Stop(Err(tokens.parse_error(ParseErrorType::SyntaxError))),
        },
        TaskToken::ParenEnd => {
            if let CondState::Cond(s) = state {
                let prop = if strict == 0 {
                    Propagation::Conditional(s)
                } else if strict == 1 {
                    Propagation::ConditionalStrict(s)
                } else {
                    Propagation::ConditionalSuperStrict(s)
                };
                CondStepExec::Stop(Ok(Some(prop)))
            } else {
                CondStepExec::Stop(Err(tokens.parse_error(ParseErrorType::Unclosed)))
            }
        },
        _ => {
            let cd = match read_operand(&tk, tokens, floats) {
                Ok(c) => c,
                Err(e) => return CondStepExec::Stop(Err(e)),
            };
            match state {
                CondState::FirstVar(i) => CondStepExec::Go(CondState::Cond(cd), i),
                CondState::Not => CondStepExec::Go(CondState::Cond(Condition::Not(Box::new(cd))), strict),
                CondState::SecondVar(f, a) => {
                    let cond = if a {
                        Condition::And(Box::new(f), Box::new(cd))
                    } else {
                        Condition::Or(Box::new(f), Box::new(cd))
                    };
                    CondStepExec::Go(CondState::Cond(cond), strict)
                },
                CondState::SecondValue(s, ct) => {
                    let var = match s {
                        Condition::Variable(v) => v,
                        _ => return CondStepExec::Stop(Err(tokens.parse_error(ParseErrorType::InvalidPropagation))),
                    };
                    let cond = match ct {
                        CompType::Eq => Condition::Eq(var, Box::new(cd)),
                        CompType::Lt => Condition::Lt(var, Box::new(cd)),
                        CompType::Gt => Condition::Gt(var, Box::new(cd)),
                    };
                    CondStepExec::Go(CondState::Cond(cond), strict)
                },
                CondState::Cond(_) => CondStepExec::Stop(Err(tokens.parse_error(ParseErrorType::SyntaxError))),
            }
        },
    }
}

/// Reads a condition after its `(`: operands (dotted names or values)
/// compared with `=`, `<` or `>`, negated with `!`, joined with `&` or `|`
/// from left to right, up to `)`. One or two leading `=` make it strict or
/// super strict.
pub fn read_conditional(tokens: &mut VecTokens, floats: &FloatTable) -> (r: Result<Option<Propagation>, ParseError>)
    ensures
        moved(*old(tokens), *final(tokens), rc(old(tokens).rest(), CondStateV::FirstVar(0), 0, floats@).1),
        match (r, rc(old(tokens).rest(), CondStateV::FirstVar(0), 0, floats@).0) {
            (Ok(Some(p)), Ok(Some(v))) => p@ == v,
            (Ok(None), Ok(None)) => true,
            (Err(e), Err(x)) => e.ty@ == x && located(e, *final(tokens)),
            _ => false,
        },
{
    let ghost t0 = *tokens;
    let ghost total = rc(t0.rest(), CondStateV::FirstVar(0), 0, floats@);
    let mut state = CondState::FirstVar(0);
    let mut strict: i64 = 0;
    let ghost mut used: int = 0;
    proof {
        lemma_moved_zero(t0);
    }
    loop
        invariant
            t0 == *old(tokens),
            total == rc(t0.rest(), CondStateV::FirstVar(0), 0, floats@),
            moved(t0, *tokens, used),
            0 <= strict <= 2,
            state@ matches CondStateV::FirstVar(i) ==> 0 <= i <= 2,
            total.0 == rc(tokens.rest(), state@, strict as int, floats@).0,
            total.1 == used + rc(tokens.rest(), state@, strict as int, floats@).1,
        decreases tokens.rest().len(),
    {
        let ghost ta = *tokens;
        let ghost sv = state@;
        proof {
            lemma_first_kept(ta.rest(), true);
        }
        let tk = match next_token(tokens, true) {
            None => {
                proof {
                    lemma_moved_trans(t0, ta, *tokens, used, ta.rest().len() as int);
                }
                return Ok(None);
            },
            Some(t) => t,
        };
        let ghost k = first_kept(ta.rest(), true)->0;
        let ghost tb = *tokens;
        proof {
            lemma_moved_trans(t0, ta, tb, used, k + 1);
            used = used + k + 1;
        }
        let ghost step = rc_step(tb.rest(), tk, sv, strict as int, floats@);
        match cond_step(tk, state, strict, tokens, floats) {
            CondStepExec::Go(st, s) => {
                proof {
                    let u = step->Go_2;
                    lemma_moved_trans(t0, tb, *tokens, used, u);
                    used = used + u;
                }
                state = st;
                strict = s;
            },
            CondStepExec::Stop(r) => {
                proof {
                    let u = step->Stop_1;
                    lemma_moved_trans(t0, tb, *tokens, used, u);
                }
                return r;
            },
        }
    }
}

// ---------------------------------------------------------------------------
// Task scripts: the states of the parser.
// ---------------------------------------------------------------------------

/// Where the parser stands.
pub enum State {
    /// between tasks
    Start,
    /// after `help`, and the keyword asked about if any
    Help(Option<TaskKeyword>),
    /// after `node` or `network`
    Propagation,
    /// inside `[...]` after `node`/`network`
    PropagationList,
    /// inside `[a -> b]`
    PropagationPath,
    /// where an attribute name can come
    Attribute,
    /// after an attribute name
    Assignment,
    /// after `=`
    Rhs,
    /// after a function name
    Function(String),
    /// inside the arguments of a call
    FuncArgs(FunctionCall),
    /// inside the keyword arguments of a call, after a key if any
    FuncKeyArgs(Option<String>, FunctionCall),
}

pub enum StV {
    Start,
    Help(Option<TaskKeyword>),
    Propagation,
    PropagationList,
    PropagationPath,
    Attribute,
    Assignment,
    Rhs,
    Function(Seq<char>),
    FuncArgs(InputV),
    FuncKeyArgs(Option<Seq<char>>, InputV),
}

impl View for State {
    type V = StV;

    open spec fn view(&self) -> StV {
        match self {
            State::Start => StV::Start,
            State::Help(k) => StV::Help(*k),
            State::Propagation => StV::Propagation,
            State::PropagationList => StV::PropagationList,
            State::PropagationPath => StV::PropagationPath,
            State::Attribute => StV::Attribute,
            State::Assignment => StV::Assignment,
            State::Rhs => StV::Rhs,
            State::Function(s) => StV::Function(s@),
            State::FuncArgs(fc) => StV::FuncArgs(fc@),
            State::FuncKeyArgs(k, fc) => StV::FuncKeyArgs(opt_str_view(*k), fc@),
        }
    }
}

/// The whole state of the parser.
pub struct Parser {
    pub kw: Option<TaskKeyword>,
    pub data: Vec<String>,
    pub prop: Option<Propagation>,
    pub output: Option<String>,
    pub prev: Vec<State>,
    pub state: State,
    pub tasks: Vec<Task>,
}

#[verifier::ext_equal]
pub struct PS {
    pub kw: Option<TaskKeyword>,
    pub data: Seq<Seq<char>>,
    pub prop: Option<PropV>,
    pub output: Option<Seq<char>>,
    pub prev: Seq<StV>,
    pub st: StV,
    pub tasks: Seq<TaskV>,
}

pub open spec fn tasks_view(t: Seq<Task>) -> Seq<TaskV> {
    t.map_values(|x: Task| x@)
}

pub open spec fn states_view(t: Seq<State>) -> Seq<StV> {
    t.map_values(|x: State| x@)
}

impl View for Parser {
    type V = PS;

    open spec fn view(&self) -> PS {
        PS {
            kw: self.kw,
            data: crate::functions::string_seq_view(self.data@),
            prop: match self.prop {
                Some(p) => Some(p@),
                None => None,
            },
            output: opt_str_view(self.output),
            prev: states_view(self.prev@),
            st: self.state@,
            tasks: tasks_view(self.tasks@),
        }
    }
}

// ---------------------------------------------------------------------------
// Task scripts: one token at a time.
// ---------------------------------------------------------------------------

/// What a token does: go on (with how many more tokens were read), stop
/// with a result, or end the loop early.
pub enum PStep {
    Go(PS, int),
    Stop(Result<Seq<TaskV>, PErr>, int),
    Halt(PS, int),
}

pub open spec fn with_state(ps: PS, st: StV) -> PS {
    PS { st: st, ..ps }
}

pub open spec fn prop_or_default(p: Option<PropV>) -> PropV {
    match p {
        Some(x) => x,
        None => PropV::Sequential,
    }
}

/// The task type of the current keyword, for node and network tasks (and
/// environment tasks with `env`); the propagation is used up.
pub open spec fn kw_type(ps: PS, env: bool) -> Option<(TaskTypeV, PS)> {
    match ps.kw {
        Some(TaskKeyword::Node) => Some((TaskTypeV::Node(prop_or_default(ps.prop)), PS { prop: Some(PropV::Sequential), ..ps })),
        Some(TaskKeyword::Network) => Some((TaskTypeV::Network(prop_or_default(ps.prop)), PS { prop: Some(PropV::Sequential), ..ps })),
        Some(TaskKeyword::Env) => if env {
            Some((TaskTypeV::Env, ps))
        } else {
            None
        },
        _ => None,
    }
}

/// A task of type `ty` with `input`, for the attribute named last.
pub open spec fn push_task(ps: PS, ty: TaskTypeV, input: InputV) -> PS {
    PS { tasks: ps.tasks.push(TaskV { ty: ty, attribute: ps.output, input: input }), output: None, ..ps }
}

/// A call with one more argument.
pub open spec fn call_arg(c: InputV, a: InputV) -> InputV {
    match c {
        InputV::Function(n, args, kw) => InputV::Function(n, args.push(a), kw),
        _ => c,
    }
}

/// A call with keyword argument `k` set to `v`.
pub open spec fn call_kwarg(c: InputV, k: Seq<char>, v: InputV) -> InputV {
    match c {
        InputV::Function(n, args, kw) => InputV::Function(n, args, kw_upsert(kw, k, v)),
        _ => c,
    }
}

/// The kind of the next token that is not white space, if any.
pub open spec fn peek_kind(ts: Seq<Token>) -> Option<Kind> {
    match first_kept(ts, true) {
        Some(k) => Some(ts[k].ty@),
        None => None,
    }
}

/// A keyword.
pub open spec fn pstep_keyword(ps: PS, kw: TaskKeyword) -> PStep {
    let before: Result<PS, PErr> = match ps.st {
        StV::Start => Ok(ps),
        StV::Attribute | StV::Assignment => match ps.kw {
            None => Err(PErr::Logical("Last kw can't be none if it's in Attribute or Assignment state"@)),
            Some(last) => {
                let ps1 = PS { kw: Some(kw), ..ps };
                match last {
                    TaskKeyword::Exit => Ok(ps1),
                    TaskKeyword::Node => Ok(push_task(PS { prop: Some(PropV::Sequential), ..ps1 }, TaskTypeV::Node(prop_or_default(ps.prop)), InputV::Empty)),
                    TaskKeyword::Network => Ok(push_task(PS { prop: Some(PropV::Sequential), ..ps1 }, TaskTypeV::Network(prop_or_default(ps.prop)), InputV::Empty)),
                    TaskKeyword::Env => Ok(push_task(ps1, TaskTypeV::Env, InputV::Empty)),
                    _ => Err(PErr::Syntax),
                }
            },
        },
        StV::Help(None) => Err(PErr::Syntax),
        StV::Help(Some(hkw)) => Ok(PS { tasks: ps.tasks.push(TaskV { ty: TaskTypeV::Help(Some(hkw), None), attribute: None, input: InputV::Empty }), ..ps }),
        _ => Err(PErr::Syntax),
    };
    if ps.st == StV::Help(None) {
        PStep::Go(with_state(ps, StV::Help(Some(kw))), 0)
    } else {
        match before {
            Err(e) => PStep::Stop(Err(e), 0),
            Ok(ps2) => match kw {
                TaskKeyword::Node | TaskKeyword::Network => PStep::Go(PS { st: StV::Propagation, kw: Some(kw), ..ps2 }, 0),
                TaskKeyword::Env => PStep::Go(PS { st: StV::Attribute, kw: Some(kw), ..ps2 }, 0),
                TaskKeyword::Help => PStep::Go(PS { st: StV::Help(None), kw: Some(kw), ..ps2 }, 0),
                TaskKeyword::Exit => PStep::Stop(Ok(ps2.tasks.push(TaskV { ty: TaskTypeV::Exit, attribute: None, input: InputV::Empty })), 0),
                TaskKeyword::End => PStep::Stop(Ok(ps2.tasks), 0),
                _ => PStep::Stop(Err(PErr::Syntax), 0),
            },
        }
    }
}

/// A `{` or a `[` that starts a value.
pub open spec fn pstep_open(ps: PS, t: Token, ts: Seq<Token>, fl: Seq<(Seq<char>, u64)>) -> PStep {
    match ps.st {
        StV::Rhs => {
            let (r, u) = ra(ts, Some(t), true, fl);
            match r {
                Err(e) => PStep::Stop(Err(e), u),
                Ok(None) => PStep::Stop(Err(PErr::Syntax), u),
                Ok(Some(a)) => match kw_type(ps, false) {
                    None => PStep::Stop(Err(PErr::Syntax), u),
                    Some((ty, ps2)) => PStep::Go(with_state(push_task(ps2, ty, InputV::Literal(a)), StV::Start), u),
                },
            }
        },
        StV::FuncArgs(fc) => {
            let (r, u) = ri(ts, Some(t), fl);
            match r {
                Err(e) => PStep::Stop(Err(e), u),
                Ok(inp) => if 0 <= u <= ts.len() && peek_kind(ts.skip(u)) == Some(Kind::Assignment) {
                    PStep::Stop(Err(PErr::Syntax), u)
                } else {
                    PStep::Go(with_state(ps, StV::FuncArgs(call_arg(fc, inp))), u)
                },
            }
        },
        StV::FuncKeyArgs(None, _) => PStep::Stop(Err(PErr::Syntax), 0),
        StV::FuncKeyArgs(Some(name), fc) => {
            let (r, u) = ri(ts, Some(t), fl);
            match r {
                Err(e) => PStep::Stop(Err(e), u),
                Ok(inp) => PStep::Go(with_state(ps, StV::FuncKeyArgs(None, call_kwarg(fc, name, inp))), u),
            }
        },
        _ => PStep::Stop(Err(PErr::Syntax), 0),
    }
}

/// A `)` that ends a call.
pub open spec fn pstep_paren_end(ps: PS) -> PStep {
    let fc = match ps.st {
        StV::FuncArgs(fc) => Some(fc),
        StV::FuncKeyArgs(None, fc) => Some(fc),
        _ => None,
    };
    match fc {
        None => PStep::Stop(Err(PErr::Syntax), 0),
        Some(fc) => {
            let ps1 = if ps.prev.len() == 0 { PS { kw: None, ..ps } } else { ps };
            match ps.kw {
                None => PStep::Stop(Err(PErr::Logical("current keyword can't be empty"@)), 0),
                Some(kw) => {
                    let ty = match kw {
                        TaskKeyword::Node => Some(TaskTypeV::Node(prop_or_default(ps.prop))),
                        TaskKeyword::Network => Some(TaskTypeV::Network(prop_or_default(ps.prop))),
                        _ => None,
                    };
                    match ty {
                        None => PStep::Stop(Err(PErr::Syntax), 0),
                        Some(ty) => {
                            let ps2 = PS { prop: Some(PropV::Sequential), ..ps1 };
                            if ps.prev.len() == 0 {
                                PStep::Go(with_state(push_task(ps2, ty, fc), StV::Start), 0)
                            } else {
                                let ps3 = PS { prev: ps.prev.drop_last(), ..ps2 };
                                match ps.prev.last() {
                                    StV::FuncArgs(pfc) => PStep::Go(with_state(ps3, StV::FuncArgs(call_arg(pfc, fc))), 0),
                                    StV::FuncKeyArgs(Some(a), pfc) => PStep::Go(with_state(ps3, StV::FuncKeyArgs(None, call_kwarg(pfc, a, fc))), 0),
                                    _ => PStep::Stop(Err(PErr::Logical("Prev State should be function arg to get here"@)), 0),
                                }
                            }
                        },
                    }
                },
            }
        },
    }
}

/// A `]` that ends a list of nodes or a path.
pub open spec fn pstep_bracket_end(ps: PS) -> PStep {
    match ps.st {
        StV::PropagationList => PStep::Go(PS { prop: Some(PropV::List(ps.data)), data: Seq::empty(), st: StV::Attribute, ..ps }, 0),
        StV::PropagationPath => if ps.data.len() < 2 {
            PStep::Stop(Err(PErr::Syntax), 0)
        } else {
            PStep::Go(PS {
                prop: Some(PropV::Path(StrPathV { start: ps.data[0], end: ps.data[1], attributes: None })),
                data: Seq::empty(),
                st: StV::Attribute,
                ..ps
            }, 0)
        },
        _ => PStep::Stop(Err(PErr::Syntax), 0),
    }
}

/// A variable name (read with its dotted parts).
pub open spec fn pstep_variable(ps: PS, t: Token, ts: Seq<Token>) -> PStep {
    let (r, u) = rv(ts, t.content@);
    match r {
        Err(e) => PStep::Stop(Err(e), u),
        Ok(var) => match ps.st {
            StV::Help(hkw) => PStep::Go(with_state(PS { tasks: ps.tasks.push(TaskV { ty: TaskTypeV::Help(hkw, Some(var)), attribute: None, input: InputV::Empty }), ..ps }, StV::Start), u),
            StV::PropagationList | StV::PropagationPath => PStep::Go(PS { data: ps.data.push(var), ..ps }, u),
            StV::Attribute => PStep::Go(PS { output: Some(var), st: StV::Assignment, ..ps }, u),
            StV::Rhs => match kw_type(ps, false) {
                None => PStep::Stop(Err(PErr::Syntax), u),
                Some((ty, ps2)) => PStep::Go(with_state(push_task(ps2, ty, InputV::Variable(var)), StV::Start), u),
            },
            StV::FuncArgs(fc) => if 0 <= u <= ts.len() {
                match peek_kind(ts.skip(u)) {
                    Some(Kind::Comma) | Some(Kind::ParenEnd) => PStep::Go(with_state(ps, StV::FuncArgs(call_arg(fc, InputV::Variable(var)))), u),
                    Some(Kind::Assignment) => PStep::Go(with_state(ps, StV::FuncKeyArgs(Some(var), fc)), u),
                    _ => PStep::Go(ps, u),
                }
            } else {
                PStep::Go(ps, u)
            },
            StV::FuncKeyArgs(None, fc) => PStep::Go(with_state(ps, StV::FuncKeyArgs(Some(var), fc)), u),
            StV::FuncKeyArgs(Some(name), fc) => PStep::Go(with_state(ps, StV::FuncKeyArgs(None, call_kwarg(fc, name, InputV::Variable(var)))), u),
            _ => PStep::Stop(Err(PErr::Syntax), u),
        },
    }
}

/// A function name.
pub open spec fn pstep_function(ps: PS, name: Seq<char>) -> PStep {
    match ps.st {
        StV::Attribute | StV::Propagation | StV::Rhs => if ps.kw == Some(TaskKeyword::Env) {
            PStep::Stop(Err(PErr::Value("Env Rhs can only be literal for now"@)), 0)
        } else {
            PStep::Go(with_state(ps, StV::Function(name)), 0)
        },
        StV::FuncArgs(_) | StV::FuncKeyArgs(Some(_), _) => PStep::Go(PS { prev: ps.prev.push(ps.st), st: StV::Function(name), ..ps }, 0),
        _ => PStep::Stop(Err(PErr::Syntax), 0),
    }
}

/// A quoted string.
pub open spec fn pstep_string(ps: PS, s: Seq<char>, ts: Seq<Token>) -> PStep {
    match ps.st {
        StV::PropagationList | StV::PropagationPath => PStep::Go(PS { data: ps.data.push(s), ..ps }, 0),
        StV::Rhs => match kw_type(ps, true) {
            None => PStep::Stop(Err(PErr::Syntax), 0),
            Some((ty, ps2)) => PStep::Go(with_state(push_task(ps2, ty, InputV::Literal(Val::Str(s))), StV::Start), 0),
        },
        StV::FuncArgs(fc) => match peek_kind(ts) {
            Some(Kind::Comma) | Some(Kind::ParenEnd) => PStep::Go(with_state(ps, StV::FuncArgs(call_arg(fc, InputV::Literal(Val::Str(s))))), 0),
            Some(Kind::Assignment) => PStep::Go(with_state(ps, StV::FuncKeyArgs(Some(s), fc)), 0),
            _ => PStep::Go(ps, 0),
        },
        StV::FuncKeyArgs(None, fc) => PStep::Go(with_state(ps, StV::FuncKeyArgs(Some(s), fc)), 0),
        StV::FuncKeyArgs(Some(name), fc) => PStep::Go(with_state(ps, StV::FuncKeyArgs(None, call_kwarg(fc, name, InputV::Literal(Val::Str(s))))), 0),
        _ => PStep::Stop(Err(PErr::Syntax), 0),
    }
}

/// Any other token: a value, or a node name in a list.
pub open spec fn pstep_other(ps: PS, t: Token, fl: Seq<(Seq<char>, u64)>) -> PStep {
    match ps.st {
        StV::PropagationList | StV::PropagationPath => match t.ty@ {
            Kind::Bool | Kind::Integer => PStep::Go(PS { data: ps.data.push(t.content@), ..ps }, 0),
            _ => PStep::Stop(Err(PErr::Value("Invalid Node Name"@)), 0),
        },
        StV::Rhs => match kw_type(ps, true) {
            None => PStep::Stop(Err(PErr::Syntax), 0),
            Some((ty, ps2)) => match tok_attr(t, fl) {
                Ok(Some(v)) => PStep::Go(with_state(push_task(ps2, ty, InputV::Literal(v)), StV::Start), 0),
                Ok(None) => PStep::Stop(Err(PErr::Syntax), 0),
                Err(e) => PStep::Stop(Err(e), 0),
            },
        },
        StV::FuncArgs(fc) => match tok_attr(t, fl) {
            Ok(Some(v)) => PStep::Go(with_state(ps, StV::FuncArgs(call_arg(fc, InputV::Literal(v)))), 0),
            Ok(None) => PStep::Stop(Err(PErr::Syntax), 0),
            Err(e) => PStep::Stop(Err(e), 0),
        },
        StV::FuncKeyArgs(name, fc) => match tok_attr(t, fl) {
            Ok(Some(v)) => match name {
                Some(n) => PStep::Go(with_state(ps, StV::FuncKeyArgs(None, call_kwarg(fc, n, InputV::Literal(v)))), 0),
                None => PStep::Stop(Err(PErr::Syntax), 0),
            },
            Ok(None) => PStep::Stop(Err(PErr::Syntax), 0),
            Err(e) => PStep::Stop(Err(e), 0),
        },
        _ => PStep::Stop(Err(PErr::Syntax), 0),
    }
}

/// What token `t` does in state `ps`, with `ts` the tokens after it.
#[verifier::opaque]
pub open spec fn pstep(ps: PS, t: Token, ts: Seq<Token>, fl: Seq<(Seq<char>, u64)>) -> PStep {
    match t.ty@ {
        Kind::NewLine | Kind::Comment | Kind::WhiteSpace => PStep::Go(ps, 0),
        Kind::Keyword(kw) => pstep_keyword(ps, kw),
        Kind::AngleStart => match ps.st {
            StV::Propagation => {
                let (r, u) = rp(ts);
                match r {
                    Ok(Some(p)) => PStep::Go(PS { prop: Some(p), st: StV::Attribute, ..ps }, u),
                    Ok(None) => PStep::Halt(ps, u),
                    Err(e) => PStep::Stop(Err(e), u),
                }
            },
            _ => PStep::Stop(Err(PErr::Syntax), 0),
        },
        Kind::ParenStart => match ps.st {
            StV::Propagation => {
                let (r, u) = rc(ts, CondStateV::FirstVar(0), 0, fl);
                match r {
                    Ok(Some(p)) => PStep::Go(PS { prop: Some(p), st: StV::Attribute, ..ps }, u),
                    Ok(None) => PStep::Halt(ps, u),
                    Err(e) => PStep::Stop(Err(e), u),
                }
            },
            StV::Function(name) => PStep::Go(with_state(ps, StV::FuncArgs(InputV::Function(name, Seq::empty(), Seq::empty()))), 0),
            _ => PStep::Stop(Err(PErr::Syntax), 0),
        },
        Kind::BraceStart => pstep_open(ps, t, ts, fl),
        Kind::BracketStart => match ps.st {
            StV::Propagation => PStep::Go(with_state(ps, StV::PropagationList), 0),
            _ => pstep_open(ps, t, ts, fl),
        },
        Kind::PathSep => match ps.st {
            StV::PropagationList => PStep::Go(with_state(ps, StV::PropagationPath), 0),
            _ => PStep::Stop(Err(PErr::Syntax), 0),
        },
        Kind::Comma => match ps.st {
            StV::PropagationList | StV::FuncArgs(_) | StV::FuncKeyArgs(_, _) => PStep::Go(ps, 0),
            _ => PStep::Stop(Err(PErr::Syntax), 0),
        },
        Kind::Dot => match ps.st {
            StV::Propagation => PStep::Go(with_state(ps, StV::Attribute), 0),
            StV::Attribute => PStep::Go(ps, 0),
            _ => PStep::Stop(Err(PErr::Syntax), 0),
        },
        Kind::ParenEnd => pstep_paren_end(ps),
        Kind::BraceEnd => PStep::Stop(Err(PErr::Syntax), 0),
        Kind::BracketEnd => pstep_bracket_end(ps),
        Kind::Variable => pstep_variable(ps, t, ts),
        Kind::Function => pstep_function(ps, t.content@),
        Kind::Assignment => match ps.st {
            StV::Assignment => PStep::Go(with_state(ps, StV::Rhs), 0),
            StV::FuncKeyArgs(Some(_), _) => PStep::Go(ps, 0),
            _ => PStep::Stop(Err(PErr::Syntax), 0),
        },
        Kind::Str(s) => pstep_string(ps, s, ts),
        _ => pstep_other(ps, t, fl),
    }
}

/// The task type of a statement left open at the end of the tokens.
pub open spec fn finish_type(kw: TaskKeyword, prop: Option<PropV>) -> Option<TaskTypeV> {
    match kw {
        TaskKeyword::Env => Some(TaskTypeV::Env),
        TaskKeyword::Node => Some(TaskTypeV::Node(prop_or_default(prop))),
        TaskKeyword::Network => Some(TaskTypeV::Network(prop_or_default(prop))),
        TaskKeyword::Help => Some(TaskTypeV::Help(None, None)),
        TaskKeyword::Exit => Some(TaskTypeV::Exit),
        _ => None,
    }
}

/// The result when the tokens end in state `ps`.
pub open spec fn pfinish(ps: PS) -> Result<Seq<TaskV>, PErr> {
    match ps.st {
        StV::Start => Ok(ps.tasks),
        StV::Assignment | StV::Attribute => match ps.kw {
            Some(kw) => match finish_type(kw, ps.prop) {
                Some(ty) => Ok(ps.tasks.push(TaskV { ty: ty, attribute: ps.output, input: InputV::Empty })),
                None => Err(PErr::Unclosed),
            },
            None => Err(PErr::Unclosed),
        },
        _ => Err(PErr::Unclosed),
    }
}

/// Parsing the tokens `ts` from state `ps`: the tasks or the error, and
/// how many tokens were read.
pub open spec fn pparse(ts: Seq<Token>, ps: PS, fl: Seq<(Seq<char>, u64)>) -> (Result<Seq<TaskV>, PErr>, int)
    decreases ts.len(),
{
    if ts.len() == 0 {
        (pfinish(ps), 0)
    } else {
        let rest = ts.drop_first();
        match pstep(ps, ts[0], rest, fl) {
            PStep::Go(ps2, u) => if 0 <= u <= rest.len() {
                let (r, u2) = pparse(rest.skip(u), ps2, fl);
                (r, 1 + u + u2)
            } else {
                (Err(PErr::Syntax), 1 + u)
            },
            PStep::Stop(r, u) => (r, 1 + u),
            PStep::Halt(ps2, u) => (pfinish(ps2), 1 + u),
        }
    }
}

/// The state the parser starts in.
pub open spec fn ps_init() -> PS {
    PS {
        kw: None,
        data: Seq::empty(),
        prop: None,
        output: None,
        prev: Seq::empty(),
        st: StV::Start,
        tasks: Seq::empty(),
    }
}

// ---------------------------------------------------------------------------
// Task scripts: the executable parser.
// ---------------------------------------------------------------------------

/// What a token did, in exec form.
pub enum StepExec {
    Go,
    Stop(Result<Vec<Task>, ParseError>),
    Halt,
}

/// The step `r` taken by the parser (now `p`, with tokens `t0` before and
/// `t1` after) is the step `s`.
pub open spec fn step_agrees(r: StepExec, s: PStep, p: Parser, t0: VecTokens, t1: VecTokens) -> bool {
    match s {
        PStep::Go(ps, u) => r is Go && p@ == ps && moved(t0, t1, u),
        PStep::Halt(ps, u) => r is Halt && p@ == ps && moved(t0, t1, u),
        PStep::Stop(res, u) => moved(t0, t1, u) && match (r, res) {
            (StepExec::Stop(Ok(v)), Ok(w)) => tasks_view(v@) == w,
            (StepExec::Stop(Err(e)), Err(x)) => e.ty@ == x && located(e, t1),
            _ => false,
        },
    }
}

impl Parser {
    pub fn new() -> (p: Self)
        ensures
            p@ == ps_init(),
    {
        let p = Parser {
            kw: None,
            data: Vec::new(),
            prop: None,
            output: None,
            prev: Vec::new(),
            state: State::Start,
            tasks: Vec::new(),
        };
        assert(p@ =~= ps_init());
        p
    }

    /// The propagation given, or the default one; it is then reset to the
    /// default.
    fn take_prop(&mut self) -> (r: Propagation)
        ensures
            r@ == prop_or_default(old(self)@.prop),
            final(self)@ == (PS { prop: Some(PropV::Sequential), ..old(self)@ }),
    {
        let mut p = Some(Propagation::Sequential);
        std::mem::swap(&mut p, &mut self.prop);
        match p {
            Some(x) => x,
            None => Propagation::Sequential,
        }
    }

    /// Adds a task for the attribute named last.
    fn add_task(&mut self, ty: TaskType, input: TaskInput)
        ensures
            final(self)@ == push_task(old(self)@, ty@, input@),
    {
        let mut out = None;
        std::mem::swap(&mut out, &mut self.output);
        let ghost before = self.tasks@;
        self.tasks.push(Task { ty, attribute: out, input });
        assert(tasks_view(self.tasks@) =~= tasks_view(before).push(self.tasks@.last()@));
    }

    /// Adds a task that needs no attribute.
    fn add_plain_task(&mut self, t: Task)
        ensures
            final(self)@ == (PS { tasks: old(self)@.tasks.push(t@), ..old(self)@ }),
    {
        let ghost before = self.tasks@;
        self.tasks.push(t);
        assert(tasks_view(self.tasks@) =~= tasks_view(before).push(t@));
    }

    /// The task type of the current keyword (see `kw_type`).
    fn kw_type(&mut self, env: bool) -> (r: Option<TaskType>)
        ensures
            match kw_type(old(self)@, env) {
                None => r is None && final(self)@ == old(self)@,
                Some((ty, ps2)) => r matches Some(t) && t@ == ty && final(self)@ == ps2,
            },
    {
        match self.kw {
            Some(TaskKeyword::Node) => {
                let p = self.take_prop();
                Some(TaskType::Node(p))
            },
            Some(TaskKeyword::Network) => {
                let p = self.take_prop();
                Some(TaskType::Network(p))
            },
            Some(TaskKeyword::Env) => if env {
                Some(TaskType::Env)
            } else {
                None
            },
            _ => None,
        }
    }

    /// Sets the state.
    fn set_state(&mut self, st: State)
        ensures
            final(self)@ == with_state(old(self)@, st@),
    {
        self.state = st;
    }

    /// Takes the state out, leaving `Start`.
    fn take_state(&mut self) -> (st: State)
        ensures
            st@ == old(self)@.st,
            final(self)@ == with_state(old(self)@, StV::Start),
    {
        let mut st = State::Start;
        std::mem::swap(&mut st, &mut self.state);
        st
    }

    /// Takes the tasks out.
    fn take_tasks(&mut self) -> (t: Vec<Task>)
        ensures
            tasks_view(t@) == old(self)@.tasks,
    {
        let mut t = Vec::new();
        std::mem::swap(&mut t, &mut self.tasks);
        t
    }

    /// A keyword.
    fn step_keyword(&mut self, kw: TaskKeyword, tokens: &VecTokens) -> (r: StepExec)
        ensures
            step_agrees(r, pstep_keyword(old(self)@, kw), *final(self), *tokens, *tokens),
    {
        proof {
            lemma_moved_zero(*tokens);
        }
        let ghost ps0 = self@;
        let st = self.take_state();
        match st {
            State::Start => {
                self.set_state(State::Start);
                assert(self@ == ps0);
            },
            State::Attribute | State::Assignment => {
                self.set_state(st);
                assert(self@ == ps0);
                let last = match self.kw {
                    Some(k) => k,
                    None => {
                        proof {
                            reveal_strlit("Last kw can't be none if it's in Attribute or Assignment state");
                        }
                        return StepExec::Stop(Err(tokens.parse_error(ParseErrorType::LogicalError(
                            "Last kw can't be none if it's in Attribute or Assignment state",
                        ))));
                    },
                };
                self.kw = Some(kw);
                match last {
                    TaskKeyword::Exit => {},
                    TaskKeyword::Node => {
                        let p = self.take_prop();
                        self.add_task(TaskType::Node(p), TaskInput::Empty);
                    },
                    TaskKeyword::Network => {
                        let p = self.take_prop();
                        self.add_task(TaskType::Network(p), TaskInput::Empty);
                    },
                    TaskKeyword::Env => {
                        self.add_task(TaskType::Env, TaskInput::Empty);
                    },
                    _ => return StepExec::Stop(Err(tokens.parse_error(ParseErrorType::SyntaxError))),
                }
            },
            State::Help(None) => {
                self.set_state(State::Help(Some(kw)));
                return StepExec::Go;
            },
            State::Help(Some(hkw)) => {
                self.set_state(State::Help(Some(hkw)));
                assert(self@ == ps0);
                self.add_plain_task(Task::help(Some(hkw), None));
            },
            _ => return StepExec::Stop(Err(tokens.parse_error(ParseErrorType::SyntaxError))),
        }
        match kw {
            TaskKeyword::Node | TaskKeyword::Network => {
                self.set_state(State::Propagation);
            },
            TaskKeyword::Env => {
                self.set_state(State::Attribute);
            },
            TaskKeyword::Help => {
                self.set_state(State::Help(None));
            },
            TaskKeyword::Exit => {
                self.add_plain_task(Task::exit());
                return StepExec::Stop(Ok(self.take_tasks()));
            },
            TaskKeyword::End => {
                return StepExec::Stop(Ok(self.take_tasks()));
            },
            _ => return StepExec::Stop(Err(tokens.parse_error(ParseErrorType::SyntaxError))),
        }
        self.kw = Some(kw);
        StepExec::Go
    }
}

impl Parser {
    /// A `{` or `[` that starts a value.
    fn step_open(&mut self, t: Token, tokens: &mut VecTokens, floats: &FloatTable) -> (r: StepExec)
        ensures
            step_agrees(r, pstep_open(old(self)@, t, old(tokens).rest(), floats@), *final(self), *old(tokens), *final(tokens)),
    {
        let ghost t0 = *tokens;
        let ghost tk = t;
        proof {
            lemma_moved_zero(t0);
        }
        let st = self.take_state();
        match st {
            State::Rhs => {
                self.set_state(State::Rhs);
                let a = match read_attribute(Some(t), tokens, true, floats) {
                    Err(e) => return StepExec::Stop(Err(e)),
                    Ok(None) => return StepExec::Stop(Err(tokens.parse_error(ParseErrorType::SyntaxError))),
                    Ok(Some(a)) => a,
                };
                let ty = match self.kw_type(false) {
                    None => return StepExec::Stop(Err(tokens.parse_error(ParseErrorType::SyntaxError))),
                    Some(ty) => ty,
                };
                self.add_task(ty, TaskInput::Literal(a));
                self.set_state(State::Start);
                StepExec::Go
            },
            State::FuncArgs(fc) => {
                let mut fc = fc;
                let inp = match read_input(Some(t), tokens, floats) {
                    Err(e) => return StepExec::Stop(Err(e)),
                    Ok(i) => i,
                };
                fc.push_arg(inp);
                self.set_state(State::FuncArgs(fc));
                proof {
                    lemma_first_kept(tokens.rest(), true);
                }
                match tokens.peek_next_no_ws(true) {
                    Some(n) => match n.ty {
                        TaskToken::Assignment => return StepExec::Stop(Err(tokens.parse_error(ParseErrorType::SyntaxError))),
                        _ => {},
                    },
                    None => {},
                }
                StepExec::Go
            },
            State::FuncKeyArgs(None, _) => StepExec::Stop(Err(tokens.parse_error(ParseErrorType::SyntaxError))),
            State::FuncKeyArgs(Some(name), fc) => {
                let mut fc = fc;
                let inp = match read_input(Some(t), tokens, floats) {
                    Err(e) => return StepExec::Stop(Err(e)),
                    Ok(i) => i,
                };
                fc.set_kwarg(name, inp);
                self.set_state(State::FuncKeyArgs(None, fc));
                StepExec::Go
            },
            _ => StepExec::Stop(Err(tokens.parse_error(ParseErrorType::SyntaxError))),
        }
    }

    /// A `)` that ends a call.
    fn step_paren_end(&mut self, tokens: &VecTokens) -> (r: StepExec)
        ensures
            step_agrees(r, pstep_paren_end(old(self)@), *final(self), *tokens, *tokens),
    {
        proof {
            lemma_moved_zero(*tokens);
        }
        let ghost ps0 = self@;
        let st = self.take_state();
        let fc = match st {
            State::FuncArgs(fc) => fc,
            State::FuncKeyArgs(None, fc) => fc,
            _ => return StepExec::Stop(Err(tokens.parse_error(ParseErrorType::SyntaxError))),
        };
        let kw = if self.prev.len() == 0 {
            let k = self.kw;
            self.kw = None;
            k
        } else {
            self.kw
        };
        let kw = match kw {
            None => {
                proof {
                    reveal_strlit("current keyword can't be empty");
                }
                return StepExec::Stop(Err(tokens.parse_error(ParseErrorType::LogicalError("current keyword can't be empty"))));
            },
            Some(k) => k,
        };
        let ty = match kw {
            TaskKeyword::Node => TaskType::Node(self.take_prop()),
            TaskKeyword::Network => TaskType::Network(self.take_prop()),
            _ => return StepExec::Stop(Err(tokens.parse_error(ParseErrorType::SyntaxError))),
        };
        let ghost prev0 = self.prev@;
        match self.prev.pop() {
            Some(State::FuncArgs(pfc)) => {
                proof {
                    assert(states_view(self.prev@) =~= states_view(prev0).drop_last());
                }
                let mut pfc = pfc;
                pfc.push_arg(TaskInput::Function(fc));
                self.set_state(State::FuncArgs(pfc));
            },
            Some(State::FuncKeyArgs(Some(a), pfc)) => {
                proof {
                    assert(states_view(self.prev@) =~= states_view(prev0).drop_last());
                }
                let mut pfc = pfc;
                pfc.set_kwarg(a, TaskInput::Function(fc));
                self.set_state(State::FuncKeyArgs(None, pfc));
            },
            Some(_) => {
                proof {
                    reveal_strlit("Prev State should be function arg to get here");
                }
                return StepExec::Stop(Err(tokens.parse_error(ParseErrorType::LogicalError(
                    "Prev State should be function arg to get here",
                ))));
            },
            None => {
                self.add_task(ty, TaskInput::Function(fc));
                self.set_state(State::Start);
            },
        }
        StepExec::Go
    }

    /// A `]` that ends a list of nodes or a path.
    fn step_bracket_end(&mut self, tokens: &VecTokens) -> (r: StepExec)
        ensures
            step_agrees(r, pstep_bracket_end(old(self)@), *final(self), *tokens, *tokens),
    {
        proof {
            lemma_moved_zero(*tokens);
        }
        let st = self.take_state();
        match st {
            State::PropagationList => {
                let mut data = Vec::new();
                std::mem::swap(&mut data, &mut self.data);
                self.prop = Some(Propagation::List(data));
                self.set_state(State::Attribute);
                assert(crate::functions::string_seq_view(self.data@) =~= Seq::<Seq<char>>::empty());
                StepExec::Go
            },
            State::PropagationPath => {
                if self.data.len() < 2 {
                    return StepExec::Stop(Err(tokens.parse_error(ParseErrorType::SyntaxError)));
                }
                let start = self.data[0].clone();
                let end = self.data[1].clone();
                self.data = Vec::new();
                self.prop = Some(Propagation::Path(StrPath::new(start, end)));
                self.set_state(State::Attribute);
                assert(crate::functions::string_seq_view(self.data@) =~= Seq::<Seq<char>>::empty());
                StepExec::Go
            },
            _ => StepExec::Stop(Err(tokens.parse_error(ParseErrorType::SyntaxError))),
        }
    }
}

impl Parser {
    /// A variable name.
    fn step_variable(&mut self, t: Token, tokens: &mut VecTokens) -> (r: StepExec)
        ensures
            step_agrees(r, pstep_variable(old(self)@, t, old(tokens).rest()), *final(self), *old(tokens), *final(tokens)),
    {
        let var = match read_variable(t.content.as_str(), tokens) {
            Err(e) => return StepExec::Stop(Err(e)),
            Ok(v) => v,
        };
        let st = self.take_state();
        match st {
            State::Help(hkw) => {
                self.add_plain_task(Task::help(hkw, Some(var)));
                self.set_state(State::Start);
                StepExec::Go
            },
            State::PropagationList => {
                self.set_state(State::PropagationList);
                let ghost before = self.data@;
                self.data.push(var);
                assert(crate::functions::string_seq_view(self.data@) =~= crate::functions::string_seq_view(before).push(var@));
                StepExec::Go
            },
            State::PropagationPath => {
                self.set_state(State::PropagationPath);
                let ghost before = self.data@;
                self.data.push(var);
                assert(crate::functions::string_seq_view(self.data@) =~= crate::functions::string_seq_view(before).push(var@));
                StepExec::Go
            },
            State::Attribute => {
                self.output = Some(var);
                self.set_state(State::Assignment);
                StepExec::Go
            },
            State::Rhs => {
                self.set_state(State::Rhs);
                let ty = match self.kw_type(false) {
                    None => return StepExec::Stop(Err(tokens.parse_error(ParseErrorType::SyntaxError))),
                    Some(ty) => ty,
                };
                self.add_task(ty, TaskInput::Variable(var));
                self.set_state(State::Start);
                StepExec::Go
            },
            State::FuncArgs(fc) => {
                let mut fc = fc;
                proof {
                    lemma_first_kept(tokens.rest(), true);
                }
                let next = match tokens.peek_next_no_ws(true) {
                    Some(n) => match n.ty {
                        TaskToken::Comma | TaskToken::ParenEnd => 1u8,
                        TaskToken::Assignment => 2u8,
                        _ => 0u8,
                    },
                    None => 0u8,
                };
                if next == 1 {
                    fc.push_arg(TaskInput::Variable(var));
                    self.set_state(State::FuncArgs(fc));
                } else if next == 2 {
                    self.set_state(State::FuncKeyArgs(Some(var), fc));
                } else {
                    self.set_state(State::FuncArgs(fc));
                }
                StepExec::Go
            },
            State::FuncKeyArgs(None, fc) => {
                self.set_state(State::FuncKeyArgs(Some(var), fc));
                StepExec::Go
            },
            State::FuncKeyArgs(Some(name), fc) => {
                let mut fc = fc;
                fc.set_kwarg(name, TaskInput::Variable(var));
                self.set_state(State::FuncKeyArgs(None, fc));
                StepExec::Go
            },
            _ => StepExec::Stop(Err(tokens.parse_error(ParseErrorType::SyntaxError))),
        }
    }

    /// A function name.
    fn step_function(&mut self, name: String, tokens: &VecTokens) -> (r: StepExec)
        ensures
            step_agrees(r, pstep_function(old(self)@, name@), *final(self), *tokens, *tokens),
    {
        proof {
            lemma_moved_zero(*tokens);
        }
        let st = self.take_state();
        match st {
            State::Attribute | State::Propagation | State::Rhs => {
                match self.kw {
                    Some(TaskKeyword::Env) => {
                        proof {
                            reveal_strlit("Env Rhs can only be literal for now");
                        }
                        StepExec::Stop(Err(tokens.parse_error(ParseErrorType::ValueError("Env Rhs can only be literal for now"))))
                    },
                    _ => {
                        self.set_state(State::Function(name));
                        StepExec::Go
                    },
                }
            },
            State::FuncArgs(fc) => {
                let ghost before = self.prev@;
                self.prev.push(State::FuncArgs(fc));
                assert(states_view(self.prev@) =~= states_view(before).push(self.prev@.last()@));
                self.set_state(State::Function(name));
                StepExec::Go
            },
            State::FuncKeyArgs(Some(a), fc) => {
                let ghost before = self.prev@;
                self.prev.push(State::FuncKeyArgs(Some(a), fc));
                assert(states_view(self.prev@) =~= states_view(before).push(self.prev@.last()@));
                self.set_state(State::Function(name));
                StepExec::Go
            },
            _ => StepExec::Stop(Err(tokens.parse_error(ParseErrorType::SyntaxError))),
        }
    }

    /// A quoted string with value `s`.
    fn step_string(&mut self, s: String, tokens: &VecTokens) -> (r: StepExec)
        ensures
            step_agrees(r, pstep_string(old(self)@, s@, tokens.rest()), *final(self), *tokens, *tokens),
    {
        proof {
            lemma_moved_zero(*tokens);
        }
        let st = self.take_state();
        match st {
            State::PropagationList => {
                self.set_state(State::PropagationList);
                let ghost before = self.data@;
                self.data.push(s);
                assert(crate::functions::string_seq_view(self.data@) =~= crate::functions::string_seq_view(before).push(self.data@.last()@));
                StepExec::Go
            },
            State::PropagationPath => {
                self.set_state(State::PropagationPath);
                let ghost before = self.data@;
                self.data.push(s);
                assert(crate::functions::string_seq_view(self.data@) =~= crate::functions::string_seq_view(before).push(self.data@.last()@));
                StepExec::Go
            },
            State::Rhs => {
                self.set_state(State::Rhs);
                let ty = match self.kw_type(true) {
                    None => return StepExec::Stop(Err(tokens.parse_error(ParseErrorType::SyntaxError))),
                    Some(ty) => ty,
                };
                self.add_task(ty, TaskInput::Literal(Attribute::String(s)));
                self.set_state(State::Start);
                StepExec::Go
            },
            State::FuncArgs(fc) => {
                let mut fc = fc;
                proof {
                    lemma_first_kept(tokens.rest(), true);
                }
                let next = match tokens.peek_next_no_ws(true) {
                    Some(n) => match n.ty {
                        TaskToken::Comma | TaskToken::ParenEnd => 1u8,
                        TaskToken::Assignment => 2u8,
                        _ => 0u8,
                    },
                    None => 0u8,
                };
                if next == 1 {
                    fc.push_arg(TaskInput::Literal(Attribute::String(s)));
                    self.set_state(State::FuncArgs(fc));
                } else if next == 2 {
                    self.set_state(State::FuncKeyArgs(Some(s), fc));
                } else {
                    self.set_state(State::FuncArgs(fc));
                }
                StepExec::Go
            },
            State::FuncKeyArgs(None, fc) => {
                self.set_state(State::FuncKeyArgs(Some(s), fc));
                StepExec::Go
            },
            State::FuncKeyArgs(Some(name), fc) => {
                let mut fc = fc;
                fc.set_kwarg(name, TaskInput::Literal(Attribute::String(s)));
                self.set_state(State::FuncKeyArgs(None, fc));
                StepExec::Go
            },
            _ => StepExec::Stop(Err(tokens.parse_error(ParseErrorType::SyntaxError))),
        }
    }

    /// Any other token.
    fn step_other(&mut self, t: Token, tokens: &VecTokens, floats: &FloatTable) -> (r: StepExec)
        ensures
            step_agrees(r, pstep_other(old(self)@, t, floats@), *final(self), *tokens, *tokens),
    {
        proof {
            lemma_moved_zero(*tokens);
        }
        let st = self.take_state();
        match st {
            State::PropagationList | State::PropagationPath => {
                self.set_state(st);
                match t.ty {
                    TaskToken::Bool | TaskToken::Integer => {
                        let ghost before = self.data@;
                        self.data.push(t.content);
                        assert(crate::functions::string_seq_view(self.data@) =~= crate::functions::string_seq_view(before).push(self.data@.last()@));
                        StepExec::Go
                    },
                    _ => {
                        proof {
                            reveal_strlit("Invalid Node Name");
                        }
                        StepExec::Stop(Err(tokens.parse_error(ParseErrorType::ValueError("Invalid Node Name"))))
                    },
                }
            },
            State::Rhs => {
                self.set_state(State::Rhs);
                let ty = match self.kw_type(true) {
                    None => return StepExec::Stop(Err(tokens.parse_error(ParseErrorType::SyntaxError))),
                    Some(ty) => ty,
                };
                match token_attr(&t, tokens, floats) {
                    Ok(Some(v)) => {
                        self.add_task(ty, TaskInput::Literal(v));
                        self.set_state(State::Start);
                        StepExec::Go
                    },
                    Ok(None) => StepExec::Stop(Err(tokens.parse_error(ParseErrorType::SyntaxError))),
                    Err(e) => StepExec::Stop(Err(e)),
                }
            },
            State::FuncArgs(fc) => {
                let mut fc = fc;
                match token_attr(&t, tokens, floats) {
                    Ok(Some(v)) => {
                        fc.push_arg(TaskInput::Literal(v));
                        self.set_state(State::FuncArgs(fc));
                        StepExec::Go
                    },
                    Ok(None) => StepExec::Stop(Err(tokens.parse_error(ParseErrorType::SyntaxError))),
                    Err(e) => StepExec::Stop(Err(e)),
                }
            },
            State::FuncKeyArgs(name, fc) => {
                let mut fc = fc;
                match token_attr(&t, tokens, floats) {
                    Ok(Some(v)) => match name {
                        Some(n) => {
                            fc.set_kwarg(n, TaskInput::Literal(v));
                            self.set_state(State::FuncKeyArgs(None, fc));
                            StepExec::Go
                        },
                        None => StepExec::Stop(Err(tokens.parse_error(ParseErrorType::SyntaxError))),
                    },
                    Ok(None) => StepExec::Stop(Err(tokens.parse_error(ParseErrorType::SyntaxError))),
                    Err(e) => StepExec::Stop(Err(e)),
                }
            },
            _ => StepExec::Stop(Err(tokens.parse_error(ParseErrorType::SyntaxError))),
        }
    }
}

impl Parser {
    /// Takes token `t`.
    fn step(&mut self, t: Token, tokens: &mut VecTokens, floats: &FloatTable) -> (r: StepExec)
        ensures
            step_agrees(r, pstep(old(self)@, t, old(tokens).rest(), floats@), *final(self), *old(tokens), *final(tokens)),
    {
        let ghost t0 = *tokens;
        proof {
            lemma_moved_zero(t0);
            reveal(pstep);
        }
        match &t.ty {
            TaskToken::NewLine | TaskToken::Comment | TaskToken::WhiteSpace => StepExec::Go,
            TaskToken::Keyword(kw) => self.step_keyword(*kw, tokens),
            TaskToken::AngleStart => match self.state {
                State::Propagation => match read_propagation(tokens) {
                    Ok(Some(p)) => {
                        self.prop = Some(p);
                        self.set_state(State::Attribute);
                        StepExec::Go
                    },
                    Ok(None) => StepExec::Halt,
                    Err(e) => StepExec::Stop(Err(e)),
                },
                _ => StepExec::Stop(Err(tokens.parse_error(ParseErrorType::SyntaxError))),
            },
            TaskToken::ParenStart => {
                let st = self.take_state();
                match st {
                    State::Propagation => {
                        self.set_state(State::Propagation);
                        match read_conditional(tokens, floats) {
                            Ok(Some(p)) => {
                                self.prop = Some(p);
                                self.set_state(State::Attribute);
                                StepExec::Go
                            },
                            Ok(None) => StepExec::Halt,
                            Err(e) => StepExec::Stop(Err(e)),
                        }
                    },
                    State::Function(name) => {
                        self.set_state(State::FuncArgs(FunctionCall::new(name)));
                        StepExec::Go
                    },
                    _ => StepExec::Stop(Err(tokens.parse_error(ParseErrorType::SyntaxError))),
                }
            },
            TaskToken::BraceStart => self.step_open(t, tokens, floats),
            TaskToken::BracketStart => match self.state {
                State::Propagation => {
                    self.set_state(State::PropagationList);
                    StepExec::Go
                },
                _ => self.step_open(t, tokens, floats),
            },
            TaskToken::PathSep => match self.state {
                State::PropagationList => {
                    self.set_state(State::PropagationPath);
                    StepExec::Go
                },
                _ => StepExec::Stop(Err(tokens.parse_error(ParseErrorType::SyntaxError))),
            },
            TaskToken::Comma => match self.state {
                State::PropagationList | State::FuncArgs(_) | State::FuncKeyArgs(_, _) => StepExec::Go,
                _ => StepExec::Stop(Err(tokens.parse_error(ParseErrorType::SyntaxError))),
            },
            TaskToken::Dot => match self.state {
                State::Propagation => {
                    self.set_state(State::Attribute);
                    StepExec::Go
                },
                State::Attribute => StepExec::Go,
                _ => StepExec::Stop(Err(tokens.parse_error(ParseErrorType::SyntaxError))),
            },
            TaskToken::ParenEnd => self.step_paren_end(tokens),
            TaskToken::BraceEnd => StepExec::Stop(Err(tokens.parse_error(ParseErrorType::SyntaxError))),
            TaskToken::BracketEnd => self.step_bracket_end(tokens),
            TaskToken::Variable => self.step_variable(t, tokens),
            TaskToken::Function => self.step_function(t.content, tokens),
            TaskToken::Assignment => match self.state {
                State::Assignment => {
                    self.set_state(State::Rhs);
                    StepExec::Go
                },
                State::FuncKeyArgs(Some(_), _) => StepExec::Go,
                _ => StepExec::Stop(Err(tokens.parse_error(ParseErrorType::SyntaxError))),
            },
            TaskToken::String(s) => {
                let s2 = s.clone();
                self.step_string(s2, tokens)
            },
            _ => self.step_other(t, tokens, floats),
        }
    }

    /// The result when the tokens end.
    fn finish(&mut self, tokens: &VecTokens) -> (r: Result<Vec<Task>, ParseError>)
        ensures
            match (r, pfinish(old(self)@)) {
                (Ok(v), Ok(w)) => tasks_view(v@) == w,
                (Err(e), Err(x)) => e.ty@ == x && located(e, *tokens),
                _ => false,
            },
    {
        let st = self.take_state();
        match st {
            State::Start => Ok(self.take_tasks()),
            State::Assignment | State::Attribute => match self.kw {
                Some(kw) => {
                    let ty = match kw {
                        TaskKeyword::Env => TaskType::Env,
                        TaskKeyword::Node => TaskType::Node(self.take_prop()),
                        TaskKeyword::Network => TaskType::Network(self.take_prop()),
                        TaskKeyword::Help => TaskType::Help(None, None),
                        TaskKeyword::Exit => TaskType::Exit,
                        _ => return Err(tokens.parse_error(ParseErrorType::Unclosed)),
                    };
                    self.add_task(ty, TaskInput::Empty);
                    Ok(self.take_tasks())
                },
                None => Err(tokens.parse_error(ParseErrorType::Unclosed)),
            },
            _ => Err(tokens.parse_error(ParseErrorType::Unclosed)),
        }
    }
}

/// The position where reading starts.
pub open spec fn start_cursor() -> Cursor {
    Cursor { line: 0, colstart: 0, colend: 0, linestr: Seq::empty() }
}

/// `e` points at the last of the first `used` tokens of `ts`.
pub open spec fn error_at(e: ParseError, ts: Seq<Token>, used: int) -> bool {
    let c = advance_all(start_cursor(), ts.take(used));
    &&& e.line == c.line
    &&& e.col == c.colstart
    &&& e.linestr@ == c.linestr + text_to_eol(ts.skip(used))
}

pub proof fn lemma_moved_one(a: VecTokens, b: VecTokens)
    requires
        a.rest().len() > 0,
        b.rest() == a.rest().drop_first(),
        b.cursor() == advance(a.cursor(), a.rest()[0]),
    ensures
        moved(a, b, 1),
{
    let s = a.rest();
    assert(s.skip(1) =~= s.drop_first());
    assert(s.take(1).drop_first() =~= Seq::<Token>::empty());
    assert(s.take(1)[0] == s[0]);
    assert(advance_all(advance(a.cursor(), s[0]), Seq::<Token>::empty()) == advance(a.cursor(), s[0]));
}

/// Parses the tokens of a task script into tasks. Float literals take
/// their values from `floats`.
pub fn parse(tokens: Vec<Token>, floats: &FloatTable) -> (r: Result<Vec<Task>, ParseError>)
    ensures
        match (r, pparse(tokens@, ps_init(), floats@).0) {
            (Ok(v), Ok(w)) => tasks_view(v@) == w,
            (Err(e), Err(x)) => e.ty@ == x && error_at(e, tokens@, pparse(tokens@, ps_init(), floats@).1),
            _ => false,
        },
{
    let ghost ts = tokens@;
    let ghost total = pparse(ts, ps_init(), floats@);
    let mut toks = VecTokens::new(tokens);
    let mut p = Parser::new();
    let ghost t0 = toks;
    let ghost mut used: int = 0;
    proof {
        lemma_moved_zero(t0);
    }
    loop
        invariant
            ts == tokens@,
            t0.rest() == ts,
            t0.cursor() == start_cursor(),
            total == pparse(ts, ps_init(), floats@),
            moved(t0, toks, used),
            total.0 == pparse(toks.rest(), p@, floats@).0,
            total.1 == used + pparse(toks.rest(), p@, floats@).1,
        decreases toks.rest().len(),
    {
        let ghost ta = toks;
        let ghost pa = p@;
        let t = match toks.next() {
            Some(t) => t,
            None => {
                return p.finish(&toks);
            },
        };
        let ghost tb = toks;
        proof {
            lemma_moved_one(ta, tb);
            lemma_moved_trans(t0, ta, tb, used, 1);
            used = used + 1;
        }
        let ghost step = pstep(pa, t, tb.rest(), floats@);
        match p.step(t, &mut toks, floats) {
            StepExec::Go => {
                proof {
                    let u = step->Go_1;
                    lemma_moved_trans(t0, tb, toks, used, u);
                    used = used + u;
                }
            },
            StepExec::Halt => {
                proof {
                    let u = step->Halt_1;
                    lemma_moved_trans(t0, tb, toks, used, u);
                }
                return p.finish(&toks);
            },
            StepExec::Stop(r) => {
                proof {
                    let u = step->Stop_1;
                    lemma_moved_trans(t0, tb, toks, used, u);
                }
                return r;
            },
        }
    }
}

} // verus!
