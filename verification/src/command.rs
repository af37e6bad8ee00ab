//! Values that a command writes back on its standard output: lines
//! `nadi:var:key=value` set attributes.
use vstd::prelude::*;
use crate::attrs::{Attribute, Val, entries_view, lemma_entries_view, clone_attr};
use crate::parser::{ParseError, parse_error_text};
use crate::parser::attrs::{aparse, cfg_init, parse};
use crate::parser::tasks::error_at;
use crate::parser::tokenizer::{Token, Outcome, tokenize, token_views, count_newlines, column_of, get_tokens};
use crate::text::{chars_of, decimal, owned, substring};
use crate::values::FloatTable;
use crate::tasks::picked;

verus! {

/// The message of a tokenizer error at place `p` of `s`.
pub open spec fn token_error_text(s: Seq<char>, p: int) -> Seq<char> {
    "TokenError: Error at line "@ + decimal(count_newlines(s.subrange(0, p))) + " col "@ + decimal(
        column_of(s, p) as nat,
    )
}

/// What reading `key=value` from `txt` can give: the tokenizer's error, the
/// parser's error, the message that no value was read, or the first entry
/// that the text sets.
pub open spec fn key_val_gives(txt: Seq<char>, fl: Seq<(Seq<char>, u64)>, r: Result<(Seq<char>, Val), Seq<char>>) -> bool {
    match tokenize(txt).1 {
        Outcome::Stopped(p) => r == Err::<(Seq<char>, Val), Seq<char>>(token_error_text(txt, p)),
        Outcome::Failed(p) => r == Err::<(Seq<char>, Val), Seq<char>>(token_error_text(txt, p)),
        Outcome::Done => exists|ts: Seq<Token>| #[trigger] token_views(ts) == tokenize(txt).0 && {
            let (res, used) = aparse(ts, cfg_init(), fl);
            match res {
                Ok(w) => if w.len() == 0 {
                    r == Err::<(Seq<char>, Val), Seq<char>>("No values read"@)
                } else {
                    r == Ok::<(Seq<char>, Val), Seq<char>>(w[0])
                },
                Err(x) => exists|e: ParseError| #[trigger] parse_error_text(e) == r->Err_0 && r is Err && e.ty@ == x
                    && error_at(e, ts, used),
            }
        },
    }
}

/// A pair by its views.
pub open spec fn kv_view(r: Result<(String, Attribute), String>) -> Result<(Seq<char>, Val), Seq<char>> {
    match r {
        Ok(kv) => Ok((kv.0@, kv.1@)),
        Err(m) => Err(m@),
    }
}

/// Reads one `key=value` (as in an attribute file) from `txt`: the first
/// entry it sets, or the error (see `key_val_gives`). Float literals take
/// their values from `floats`.
pub fn key_val(txt: &str, floats: &FloatTable) -> (r: Result<(String, Attribute), String>)
    ensures
        key_val_gives(txt@, floats@, kv_view(r)),
{
    let tokens = match get_tokens(txt) {
        Ok(t) => t,
        Err(e) => {
            return Err(e.to_string());
        },
    };
    let ghost ts = tokens@;
    assert(token_views(ts) == tokenize(txt@).0);
    let m = match parse(tokens, floats) {
        Ok(m) => m,
        Err(e) => {
            let s = e.to_string();
            assert(parse_error_text(e) == s@);
            return Err(s);
        },
    };
    let es = m.entries();
    proof {
        lemma_entries_view(es@);
    }
    if es.len() == 0 {
        return Err(owned("No values read"));
    }
    let k = es[0].0.clone();
    let v = clone_attr(&es[0].1);
    Ok((k, v))
}

/// The lines of `s[i..]` as a reader gives them: split at `\n`, a `\r`
/// before it dropped, and no empty line after a last `\n`.
pub open spec fn lines_from(s: Seq<char>, i: int) -> Seq<Seq<char>>
    decreases s.len() - i,
{
    if i < 0 || i >= s.len() {
        Seq::empty()
    } else {
        let k = crate::values::find_char(s, i, '\n');
        if k < s.len() {
            proof {
                crate::values::lemma_find_char(s, i, '\n');
            }
            let line = if k > i && s[k - 1] == '\r' { s.subrange(i, k - 1) } else { s.subrange(i, k) };
            seq![line] + lines_from(s, k + 1)
        } else {
            seq![s.subrange(i, s.len() as int)]
        }
    }
}

/// The mark of a line that sets a value.
pub open spec fn var_mark() -> Seq<char> {
    seq!['n', 'a', 'd', 'i', ':', 'v', 'a', 'r', ':']
}

/// The texts after the mark of the lines of `ls` that start with it, in
/// order.
pub open spec fn var_texts(ls: Seq<Seq<char>>) -> Seq<Seq<char>>
    decreases ls.len(),
{
    if ls.len() == 0 {
        Seq::empty()
    } else {
        let l = ls[0];
        let rest = var_texts(ls.drop_first());
        if l.len() >= 9 && l.take(9) == var_mark() {
            seq![l.skip(9)] + rest
        } else {
            rest
        }
    }
}

/// What reading the texts `vs` one after another can give: a pair for each,
/// or the error of the first that fails.
pub open spec fn vars_give(vs: Seq<Seq<char>>, fl: Seq<(Seq<char>, u64)>, r: Result<Seq<(Seq<char>, Val)>, Seq<char>>) -> bool {
    match r {
        Ok(kvs) => kvs.len() == vs.len() && forall|i: int| 0 <= i < vs.len() ==> key_val_gives(vs[i], fl, Ok(#[trigger] kvs[i])),
        Err(m) => exists|k: int, kvs: Seq<(Seq<char>, Val)>|
            #![trigger picked(kvs), vs[k]]
            0 <= k < vs.len() && kvs.len() == k && key_val_gives(vs[k], fl, Err(m))
                && forall|i: int| 0 <= i < k ==> key_val_gives(vs[i], fl, Ok(#[trigger] kvs[i])),
    }
}

/// Pairs by their views.
pub open spec fn kvs_view(v: Seq<(String, Attribute)>) -> Seq<(Seq<char>, Val)> {
    v.map_values(|kv: (String, Attribute)| (kv.0@, kv.1@))
}

/// The end of the line that starts at `i` (a `\r` before its `\n` left
/// out) and where the next line starts.
fn line_at(v: &Vec<char>, i: usize) -> (r: (usize, usize))
    requires
        i < v.len(),
    ensures
        i <= r.0 <= v.len(),
        i < r.1 <= v.len(),
        lines_from(v@, i as int) == seq![v@.subrange(i as int, r.0 as int)] + lines_from(v@, r.1 as int),
{
    let mut k = i;
    while k < v.len() && v[k] != '\n'
        invariant
            i <= k <= v.len(),
            crate::values::find_char(v@, i as int, '\n') == crate::values::find_char(v@, k as int, '\n'),
        decreases v.len() - k,
    {
        k = k + 1;
    }
    proof {
        crate::values::lemma_find_char(v@, i as int, '\n');
    }
    let e = if k < v.len() && k > i && v[k - 1] == '\r' { k - 1 } else { k };
    let next = if k < v.len() { k + 1 } else { v.len() };
    proof {
        if k >= v.len() {
            assert(lines_from(v@, next as int) == Seq::<Seq<char>>::empty());
            assert(seq![v@.subrange(i as int, e as int)] + Seq::<Seq<char>>::empty() =~= seq![v@.subrange(i as int, e as int)]);
        }
    }
    (e, next)
}

/// Whether `v[i..e]` starts with the mark of a line that sets a value.
fn marked_at(v: &Vec<char>, i: usize, e: usize) -> (b: bool)
    requires
        i <= e <= v.len(),
    ensures
        b == (v@.subrange(i as int, e as int).len() >= 9 && v@.subrange(i as int, e as int).take(9) == var_mark()),
{
    if e - i < 9 {
        return false;
    }
    let mark = ['n', 'a', 'd', 'i', ':', 'v', 'a', 'r', ':'];
    let ghost line = v@.subrange(i as int, e as int);
    let mut j: usize = 0;
    while j < 9
        invariant
            e - i >= 9,
            e <= v.len(),
            j <= 9,
            line == v@.subrange(i as int, e as int),
            mark@ == var_mark(),
            forall|q: int| 0 <= q < j ==> line[q] == var_mark()[q],
        decreases 9 - j,
    {
        if v[i + j] != mark[j] {
            assert(line[j as int] != var_mark()[j as int]);
            assert(line.take(9)[j as int] != var_mark()[j as int]);
            return false;
        }
        j = j + 1;
    }
    assert(line.take(9) =~= var_mark());
    true
}

/// The values that the output `out` of a command sets: for each line that
/// starts with `nadi:var:`, in order, the `key=value` after it; the first
/// that cannot be read is the error.
pub fn var_lines(out: &str, floats: &FloatTable) -> (r: Result<Vec<(String, Attribute)>, String>)
    ensures
        vars_give(var_texts(lines_from(out@, 0)), floats@, match r {
            Ok(v) => Ok(kvs_view(v@)),
            Err(m) => Err(m@),
        }),
{
    let v = chars_of(out);
    let ghost all = var_texts(lines_from(v@, 0));
    let mut res: Vec<(String, Attribute)> = Vec::new();
    let mut i: usize = 0;
    assert(all == Seq::<Seq<char>>::empty() + var_texts(lines_from(v@, 0)));
    while i < v.len()
        invariant
            v@ == out@,
            i <= v.len(),
            all == var_texts(lines_from(v@, 0)),
            all == all.take(res@.len() as int) + var_texts(lines_from(v@, i as int)),
            res@.len() <= all.len(),
            forall|j: int| 0 <= j < res@.len() ==> key_val_gives(all[j], floats@, Ok(#[trigger] kvs_view(res@)[j])),
        decreases v.len() - i,
    {
        let ghost ls_i = lines_from(v@, i as int);
        let (e, next) = line_at(&v, i);
        let ghost line = v@.subrange(i as int, e as int);
        proof {
            assert((seq![line] + lines_from(v@, next as int)).drop_first() =~= lines_from(v@, next as int));
            assert((seq![line] + lines_from(v@, next as int))[0] == line);
        }
        let marked = marked_at(&v, i, e);
        if marked {
            let text = substring(&v, i + 9, e);
            assert(text@ =~= line.skip(9));
            let ghost before = res@;
            match key_val(text.as_str(), floats) {
                Ok(kv) => {
                    res.push(kv);
                    proof {
                        assert(var_texts(ls_i) == seq![line.skip(9)] + var_texts(lines_from(v@, next as int)));
                        assert(all[before.len() as int] == line.skip(9));
                        assert(all.take(res@.len() as int) =~= all.take(before.len() as int).push(line.skip(9)));
                        assert(all =~= all.take(res@.len() as int) + var_texts(lines_from(v@, next as int)));
                        assert forall|j: int| 0 <= j < res@.len() implies key_val_gives(all[j], floats@, Ok(#[trigger] kvs_view(res@)[j])) by {
                            if j < before.len() {
                                assert(kvs_view(res@)[j] == kvs_view(before)[j]);
                            }
                        }
                    }
                },
                Err(m) => {
                    proof {
                        assert(var_texts(ls_i) == seq![line.skip(9)] + var_texts(lines_from(v@, next as int)));
                        assert(all[res@.len() as int] == line.skip(9));
                        let k2 = res@.len() as int;
                        assert(key_val_gives(all[k2], floats@, Err(m@)));
                        let kvs = kvs_view(res@);
                        assert(picked(kvs));
                        assert(kvs.len() == k2);
                        assert(forall|q: int| 0 <= q < k2 ==> key_val_gives(all[q], floats@, Ok(#[trigger] kvs[q])));
                        assert(0 <= k2 < all.len());
                        assert(vars_give(all, floats@, Err(m@)));
                    }
                    return Err(m);
                },
            }
        } else {
            proof {
                assert(var_texts(ls_i) == var_texts(lines_from(v@, next as int)));
            }
        }
        i = next;
    }
    proof {
        assert(lines_from(v@, i as int) == Seq::<Seq<char>>::empty());
        assert(var_texts(Seq::<Seq<char>>::empty()) == Seq::<Seq<char>>::empty());
        assert(all.take(res@.len() as int) =~= all);
        assert(kvs_view(res@).len() == all.len());
    }
    Ok(res)
}

} // verus!
