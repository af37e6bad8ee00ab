//! Reading attribute values from the text of tokens.
use vstd::prelude::*;
use crate::attrs::{Date, Time, DateTime, Attribute, Val, pad2, date_text, time_text, datetime_text};
use crate::text::{digit, is_digit, chars_of, str_eq, decimal, digit_char};

verus! {

/// Decimal value of a sequence of digits.
pub open spec fn dec_value(s: Seq<char>) -> nat
    decreases s.len(),
{
    if s.len() == 0 {
        0
    } else {
        dec_value(s.drop_last()) * 10 + ((s.last() as u32 - '0' as u32) as nat)
    }
}

/// A non-empty run of ASCII digits.
pub open spec fn all_digits(s: Seq<char>) -> bool {
    s.len() > 0 && forall|i: int| 0 <= i < s.len() ==> is_digit(#[trigger] s[i])
}

/// Decimal integer with an optional sign, in the range of `i64`
/// (`i64::from_str`).
pub open spec fn parse_i64(s: Seq<char>) -> Option<i64> {
    if s.len() > 0 && (s[0] == '+' || s[0] == '-') {
        let d = s.drop_first();
        let v: int = if s[0] == '-' { -(dec_value(d) as int) } else { dec_value(d) as int };
        if all_digits(d) && i64::MIN <= v <= i64::MAX { Some(v as i64) } else { None }
    } else if all_digits(s) && dec_value(s) <= i64::MAX {
        Some(dec_value(s) as i64)
    } else {
        None
    }
}

/// Unsigned decimal digits whose value is at most `bound`.
pub open spec fn parse_bounded(s: Seq<char>, bound: nat) -> Option<nat> {
    if all_digits(s) && dec_value(s) <= bound { Some(dec_value(s)) } else { None }
}

proof fn lemma_dec_value_prefix(s: Seq<char>, k: int)
    requires
        0 <= k <= s.len(),
        forall|i: int| 0 <= i < s.len() ==> is_digit(#[trigger] s[i]),
    ensures
        dec_value(s.subrange(0, k)) <= dec_value(s),
    decreases s.len() - k,
{
    if k < s.len() {
        lemma_dec_value_prefix(s, k + 1);
        assert(s.subrange(0, k + 1).drop_last() =~= s.subrange(0, k));
    } else {
        assert(s.subrange(0, k) =~= s);
    }
}

/// The value of the digits `v[from..to]` if they are all digits, not
/// empty, and at most `bound`.
pub fn digits_value(v: &Vec<char>, from: usize, to: usize, bound: u64) -> (r: Option<u64>)
    requires
        from <= to <= v.len(),
    ensures
        match parse_bounded(v@.subrange(from as int, to as int), bound as nat) {
            Some(x) => r == Some(x as u64),
            None => r is None,
        },
{
    let ghost s = v@.subrange(from as int, to as int);
    if from == to {
        return None;
    }
    let mut k = from;
    while k < to
        invariant
            from <= k <= to <= v.len(),
            s == v@.subrange(from as int, to as int),
            forall|j: int| 0 <= j < k - from ==> is_digit(#[trigger] s[j]),
        decreases to - k,
    {
        if !digit(v[k]) {
            assert(!is_digit(s[k - from]));
            return None;
        }
        k = k + 1;
    }
    let mut acc: u64 = 0;
    let mut k = from;
    assert(s.subrange(0, 0) =~= Seq::<char>::empty());
    while k < to
        invariant
            from <= k <= to <= v.len(),
            s == v@.subrange(from as int, to as int),
            forall|j: int| 0 <= j < s.len() ==> is_digit(#[trigger] s[j]),
            acc == dec_value(s.subrange(0, k - from)),
            acc <= bound,
        decreases to - k,
    {
        assert(is_digit(s[k - from]));
        let d = (v[k] as u32 - '0' as u32) as u64;
        assert(s.subrange(0, k + 1 - from).drop_last() =~= s.subrange(0, k - from));
        if d > bound || acc > (bound - d) / 10 {
            assert(acc * 10 + d > bound) by (nonlinear_arith)
                requires d > bound || acc > (bound - d) / 10, d <= 9;
            proof {
                lemma_dec_value_prefix(s, k + 1 - from);
            }
            return None;
        }
        assert(acc * 10 + d <= bound) by (nonlinear_arith)
            requires d <= bound, acc <= (bound - d) / 10;
        acc = acc * 10 + d;
        k = k + 1;
    }
    assert(s.subrange(0, s.len() as int) =~= s);
    Some(acc)
}

/// `i64::from_str` on `v[from..to]`.
pub fn parse_i64_exec(v: &Vec<char>, from: usize, to: usize) -> (r: Option<i64>)
    requires
        from <= to <= v.len(),
    ensures
        r == parse_i64(v@.subrange(from as int, to as int)),
{
    let ghost s = v@.subrange(from as int, to as int);
    if from < to && (v[from] == '+' || v[from] == '-') {
        assert(s.drop_first() =~= v@.subrange(from + 1, to as int));
        if v[from] == '-' {
            match digits_value(v, from + 1, to, 9223372036854775808u64) {
                Some(x) => {
                    if x == 9223372036854775808u64 {
                        Some(i64::MIN)
                    } else {
                        Some(-(x as i64))
                    }
                },
                None => {
                    proof {
                        if all_digits(s.drop_first()) {
                            assert(dec_value(s.drop_first()) > 9223372036854775808);
                        }
                    }
                    None
                },
            }
        } else {
            match digits_value(v, from + 1, to, 9223372036854775807u64) {
                Some(x) => Some(x as i64),
                None => None,
            }
        }
    } else {
        match digits_value(v, from, to, 9223372036854775807u64) {
            Some(x) => Some(x as i64),
            None => None,
        }
    }
}


/// Index of the first `c` in `s` at or after `i` (`s.len()` if none).
pub open spec fn find_char(s: Seq<char>, i: int, c: char) -> int
    decreases s.len() - i,
{
    if i >= s.len() {
        s.len() as int
    } else if s[i] == c {
        i
    } else {
        find_char(s, i + 1, c)
    }
}

pub proof fn lemma_find_char(s: Seq<char>, i: int, c: char)
    requires
        0 <= i <= s.len(),
    ensures
        i <= find_char(s, i, c) <= s.len(),
        find_char(s, i, c) < s.len() ==> s[find_char(s, i, c)] == c,
        forall|j: int| i <= j < find_char(s, i, c) ==> #[trigger] s[j] != c,
    decreases s.len() - i,
{
    if i < s.len() && s[i] != c {
        lemma_find_char(s, i + 1, c);
    }
}

/// The parts of `s[i..]` between the separators `c`.
pub open spec fn fields_from(s: Seq<char>, i: int, c: char) -> Seq<Seq<char>>
    decreases s.len() - i,
{
    if !(0 <= i <= s.len()) {
        Seq::empty()
    } else {
        let k = find_char(s, i, c);
        if k >= s.len() {
            seq![s.subrange(i, s.len() as int)]
        } else {
            proof {
                lemma_find_char(s, i, c);
            }
            seq![s.subrange(i, k)] + fields_from(s, k + 1, c)
        }
    }
}

/// `Date` from `YYYY-MM-DD`: three numbers separated by `-`.
pub open spec fn parse_date(s: Seq<char>) -> Option<Date> {
    let f = fields_from(s, 0, '-');
    if f.len() == 3 && parse_bounded(f[0], 65535) is Some && parse_bounded(f[1], 255) is Some
        && parse_bounded(f[2], 255) is Some {
        Some(Date {
            year: (parse_bounded(f[0], 65535)->0) as u16,
            month: (parse_bounded(f[1], 255)->0) as u8,
            day: (parse_bounded(f[2], 255)->0) as u8,
        })
    } else {
        None
    }
}

/// `Time` from `HH:MM` or `HH:MM:SS`.
pub open spec fn parse_time(s: Seq<char>) -> Option<Time> {
    let f = fields_from(s, 0, ':');
    if (f.len() == 2 || f.len() == 3) && parse_bounded(f[0], 255) is Some && parse_bounded(f[1], 255) is Some
        && (f.len() == 2 || parse_bounded(f[2], 255) is Some) {
        Some(Time {
            hour: (parse_bounded(f[0], 255)->0) as u8,
            min: (parse_bounded(f[1], 255)->0) as u8,
            sec: if f.len() == 3 { (parse_bounded(f[2], 255)->0) as u8 } else { 0 },
            nanosecond: 0,
        })
    } else {
        None
    }
}

/// Index of the first space or `T`.
pub open spec fn find_dt_sep(s: Seq<char>, i: int) -> int
    decreases s.len() - i,
{
    if i >= s.len() {
        s.len() as int
    } else if s[i] == ' ' || s[i] == 'T' {
        i
    } else {
        find_dt_sep(s, i + 1)
    }
}

/// `DateTime` from a date, a space or `T`, and a time.
pub open spec fn parse_datetime(s: Seq<char>) -> Option<DateTime> {
    let k = find_dt_sep(s, 0);
    if k < s.len() && parse_date(s.subrange(0, k)) is Some && parse_time(s.subrange(k + 1, s.len() as int)) is Some {
        Some(DateTime {
            date: parse_date(s.subrange(0, k))->0,
            time: parse_time(s.subrange(k + 1, s.len() as int))->0,
            offset: None,
        })
    } else {
        None
    }
}

fn find_char_exec(v: &Vec<char>, from: usize, to: usize, i: usize, c: char) -> (k: usize)
    requires
        from <= i <= to <= v.len(),
    ensures
        k == from + find_char(v@.subrange(from as int, to as int), i - from, c),
        i <= k <= to,
{
    let ghost s = v@.subrange(from as int, to as int);
    proof {
        lemma_find_char(s, i - from, c);
    }
    let mut k = i;
    while k < to && v[k] != c
        invariant
            from <= i <= k <= to <= v.len(),
            s == v@.subrange(from as int, to as int),
            find_char(s, k - from, c) == find_char(s, i - from, c),
        decreases to - k,
    {
        assert(s[k - from] == v@[k as int]);
        k = k + 1;
    }
    k
}

/// The fields of `v[from..to]` split at `c`, as (start, end) pairs; at most
/// `limit` fields are given, and `None` where there are more.
fn split_fields(v: &Vec<char>, from: usize, to: usize, c: char, limit: usize) -> (r: Option<Vec<(usize, usize)>>)
    requires
        from <= to <= v.len(),
    ensures
        ({
            let f = fields_from(v@.subrange(from as int, to as int), 0, c);
            match r {
                None => f.len() > limit,
                Some(w) => w@.len() == f.len() && w@.len() <= limit && forall|j: int|
                    0 <= j < w@.len() ==> from <= (#[trigger] w@[j]).0 <= w@[j].1 <= to
                        && v@.subrange(w@[j].0 as int, w@[j].1 as int) == f[j],
            }
        }),
{
    let ghost s = v@.subrange(from as int, to as int);
    let mut w: Vec<(usize, usize)> = Vec::new();
    let mut i = from;
    loop
        invariant
            from <= i <= to <= v.len(),
            s == v@.subrange(from as int, to as int),
            w@.len() <= limit,
            fields_from(s, 0, c) == w_fields(v@, w@) + fields_from(s, i - from, c),
            forall|j: int| 0 <= j < w@.len() ==> from <= (#[trigger] w@[j]).0 <= w@[j].1 <= to,
        decreases to - i,
    {
        let k = find_char_exec(v, from, to, i, c);
        proof {
            lemma_find_char(s, i - from, c);
            assert(s.subrange(i - from, k - from) =~= v@.subrange(i as int, k as int));
        }
        if w.len() == limit {
            proof {
                assert(fields_from(s, i - from, c).len() >= 1);
                lemma_w_fields_len(v@, w@);
            }
            return None;
        }
        let ghost w0 = w@;
        w.push((i, k));
        proof {
            lemma_w_fields_push(v@, w0, (i, k));
        }
        if k >= to {
            proof {
                lemma_w_fields_len(v@, w@);
                lemma_w_fields_index(v@, w@);
                assert(fields_from(s, 0, c) =~= w_fields(v@, w@));
            }
            return Some(w);
        }
        proof {
            assert(fields_from(s, i - from, c) =~= seq![s.subrange(i - from, k - from)] + fields_from(s, k + 1 - from, c));
            assert(w_fields(v@, w0) + fields_from(s, i - from, c) =~= w_fields(v@, w@) + fields_from(s, k + 1 - from, c));
        }
        i = k + 1;
    }
}

pub open spec fn w_fields(v: Seq<char>, w: Seq<(usize, usize)>) -> Seq<Seq<char>>
    decreases w.len(),
{
    if w.len() == 0 {
        Seq::empty()
    } else {
        w_fields(v, w.drop_last()).push(v.subrange(w.last().0 as int, w.last().1 as int))
    }
}

proof fn lemma_w_fields_push(v: Seq<char>, w: Seq<(usize, usize)>, p: (usize, usize))
    ensures
        w_fields(v, w.push(p)) == w_fields(v, w).push(v.subrange(p.0 as int, p.1 as int)),
{
    assert(w.push(p).drop_last() =~= w);
}

proof fn lemma_w_fields_len(v: Seq<char>, w: Seq<(usize, usize)>)
    ensures
        w_fields(v, w).len() == w.len(),
    decreases w.len(),
{
    if w.len() > 0 {
        lemma_w_fields_len(v, w.drop_last());
    }
}

proof fn lemma_w_fields_index(v: Seq<char>, w: Seq<(usize, usize)>)
    ensures
        forall|j: int| 0 <= j < w.len() ==> #[trigger] w_fields(v, w)[j] == v.subrange(w[j].0 as int, w[j].1 as int),
    decreases w.len(),
{
    if w.len() > 0 {
        lemma_w_fields_len(v, w.drop_last());
        lemma_w_fields_index(v, w.drop_last());
    }
}

/// `Date` from the text `v[from..to]`.
pub fn date_from_chars(v: &Vec<char>, from: usize, to: usize) -> (r: Option<Date>)
    requires
        from <= to <= v.len(),
    ensures
        r == parse_date(v@.subrange(from as int, to as int)),
{
    let f = match split_fields(v, from, to, '-', 3) {
        Some(f) => f,
        None => return None,
    };
    if f.len() != 3 {
        return None;
    }
    let y = digits_value(v, f[0].0, f[0].1, 65535);
    let m = digits_value(v, f[1].0, f[1].1, 255);
    let d = digits_value(v, f[2].0, f[2].1, 255);
    match (y, m, d) {
        (Some(y), Some(m), Some(d)) => Some(Date { year: y as u16, month: m as u8, day: d as u8 }),
        _ => None,
    }
}

/// `Time` from the text `v[from..to]`.
pub fn time_from_chars(v: &Vec<char>, from: usize, to: usize) -> (r: Option<Time>)
    requires
        from <= to <= v.len(),
    ensures
        r == parse_time(v@.subrange(from as int, to as int)),
{
    let f = match split_fields(v, from, to, ':', 3) {
        Some(f) => f,
        None => return None,
    };
    if f.len() != 2 && f.len() != 3 {
        return None;
    }
    let h = digits_value(v, f[0].0, f[0].1, 255);
    let m = digits_value(v, f[1].0, f[1].1, 255);
    let sec = if f.len() == 3 { digits_value(v, f[2].0, f[2].1, 255) } else { Some(0) };
    match (h, m, sec) {
        (Some(h), Some(m), Some(sec)) => Some(Time { hour: h as u8, min: m as u8, sec: sec as u8, nanosecond: 0 }),
        _ => None,
    }
}

/// `DateTime` from the text `v[from..to]`.
pub fn datetime_from_chars(v: &Vec<char>, from: usize, to: usize) -> (r: Option<DateTime>)
    requires
        from <= to <= v.len(),
    ensures
        r == parse_datetime(v@.subrange(from as int, to as int)),
{
    let ghost s = v@.subrange(from as int, to as int);
    let mut k = from;
    while k < to && v[k] != ' ' && v[k] != 'T'
        invariant
            from <= k <= to <= v.len(),
            s == v@.subrange(from as int, to as int),
            find_dt_sep(s, k - from) == find_dt_sep(s, 0),
        decreases to - k,
    {
        assert(s[k - from] == v@[k as int]);
        k = k + 1;
    }
    if k >= to {
        return None;
    }
    assert(s.subrange(0, k - from) =~= v@.subrange(from as int, k as int));
    assert(s.subrange(k + 1 - from, s.len() as int) =~= v@.subrange(k + 1, to as int));
    match (date_from_chars(v, from, k), time_from_chars(v, k + 1, to)) {
        (Some(d), Some(t)) => Some(DateTime { date: d, time: t, offset: None }),
        _ => None,
    }
}


// ---------------------------------------------------------------------------
// Dates and times written out and read back.
// ---------------------------------------------------------------------------

proof fn lemma_digit_char(d: nat)
    requires
        d < 10,
    ensures
        is_digit(digit_char(d)),
        ((digit_char(d) as u32 - '0' as u32) as nat) == d,
{
}

proof fn lemma_decimal(n: nat)
    ensures
        all_digits(decimal(n)),
        dec_value(decimal(n)) == n,
    decreases n,
{
    lemma_digit_char(n % 10);
    if n < 10 {
        let d = decimal(n);
        assert(d.drop_last() =~= Seq::<char>::empty());
        assert(d.last() == digit_char(n));
        assert(dec_value(Seq::<char>::empty()) == 0);
        assert(dec_value(d) == dec_value(d.drop_last()) * 10 + ((d.last() as u32 - '0' as u32) as nat));
    } else {
        lemma_decimal(n / 10);
        let d = decimal(n);
        assert(d.drop_last() =~= decimal(n / 10));
        assert(d.last() == digit_char(n % 10));
        assert(dec_value(d) == dec_value(d.drop_last()) * 10 + ((d.last() as u32 - '0' as u32) as nat));
        assert((n / 10) * 10 + n % 10 == n);
    }
}

proof fn lemma_zero_prefix(x: Seq<char>)
    ensures
        dec_value(seq!['0'] + x) == dec_value(x),
    decreases x.len(),
{
    if x.len() == 0 {
        assert((seq!['0'] + x).drop_last() =~= Seq::<char>::empty());
        assert((seq!['0'] + x).last() == '0');
        assert(dec_value(Seq::<char>::empty()) == 0);
        assert(x =~= Seq::<char>::empty());
    } else {
        lemma_zero_prefix(x.drop_last());
        assert((seq!['0'] + x).drop_last() =~= seq!['0'] + x.drop_last());
        assert((seq!['0'] + x).last() == x.last());
    }
}

proof fn lemma_pad2(n: nat)
    ensures
        all_digits(pad2(n)),
        dec_value(pad2(n)) == n,
        parse_bounded(pad2(n), n) == Some(n),
{
    lemma_decimal(n);
    if n < 10 {
        lemma_zero_prefix(decimal(n));
        let p = pad2(n);
        assert forall|i: int| 0 <= i < p.len() implies is_digit(#[trigger] p[i]) by {
            if i > 0 {
                assert(p[i] == decimal(n)[i - 1]);
            }
        }
    }
}

/// The fields of `s` from `i` when the next separator is at `j`, or none is
/// left (`j` is the end).
proof fn lemma_fields_step(s: Seq<char>, i: int, j: int, c: char)
    requires
        0 <= i <= j <= s.len(),
        forall|k: int| i <= k < j ==> #[trigger] s[k] != c,
        j == s.len() || s[j] == c,
    ensures
        fields_from(s, i, c) == if j == s.len() {
            seq![s.subrange(i, s.len() as int)]
        } else {
            seq![s.subrange(i, j)] + fields_from(s, j + 1, c)
        },
{
    lemma_find_char(s, i, c);
    let k = find_char(s, i, c);
    if k < j {
        assert(s[k] != c);
    }
    if k > j {
        assert(s[j] != c);
    }
}

/// Three digit runs with separator `c` between them read back as those
/// runs.
proof fn lemma_three_fields(a: Seq<char>, b: Seq<char>, d: Seq<char>, c: char)
    requires
        all_digits(a),
        all_digits(b),
        all_digits(d),
        !is_digit(c),
    ensures
        fields_from(a + seq![c] + b + seq![c] + d, 0, c) == seq![a, b, d],
{
    let s = a + seq![c] + b + seq![c] + d;
    let i1 = a.len() as int;
    let i2 = i1 + 1 + b.len();
    assert forall|k: int| 0 <= k < i1 implies #[trigger] s[k] != c by {
        assert(s[k] == a[k]);
    }
    assert(s[i1] == c);
    lemma_fields_step(s, 0, i1, c);
    assert forall|k: int| i1 + 1 <= k < i2 implies #[trigger] s[k] != c by {
        assert(s[k] == b[k - i1 - 1]);
    }
    assert(s[i2] == c);
    lemma_fields_step(s, i1 + 1, i2, c);
    assert forall|k: int| i2 + 1 <= k < s.len() implies #[trigger] s[k] != c by {
        assert(s[k] == d[k - i2 - 1]);
    }
    lemma_fields_step(s, i2 + 1, s.len() as int, c);
    assert(s.subrange(0, i1) =~= a);
    assert(s.subrange(i1 + 1, i2) =~= b);
    assert(s.subrange(i2 + 1, s.len() as int) =~= d);
    assert(fields_from(s, 0, c) =~= seq![a, b, d]);
}

/// A date written out reads back as the same date.
pub proof fn law_date_text_round_trip(d: Date)
    ensures
        parse_date(date_text(d)) == Some(d),
{
    lemma_pad2(d.year as nat);
    lemma_pad2(d.month as nat);
    lemma_pad2(d.day as nat);
    lemma_three_fields(pad2(d.year as nat), pad2(d.month as nat), pad2(d.day as nat), '-');
}

/// A time written out reads back as the same time (the text has no
/// fraction of a second).
pub proof fn law_time_text_round_trip(t: Time)
    requires
        t.nanosecond == 0,
    ensures
        parse_time(time_text(t)) == Some(t),
{
    lemma_pad2(t.hour as nat);
    lemma_pad2(t.min as nat);
    lemma_pad2(t.sec as nat);
    lemma_three_fields(pad2(t.hour as nat), pad2(t.min as nat), pad2(t.sec as nat), ':');
}

/// A date and time written out reads back as the same (the text has no
/// fraction of a second and no offset).
pub proof fn law_datetime_text_round_trip(d: DateTime)
    requires
        d.time.nanosecond == 0,
        d.offset is None,
    ensures
        parse_datetime(datetime_text(d)) == Some(d),
{
    law_date_text_round_trip(d.date);
    law_time_text_round_trip(d.time);
    let dt = date_text(d.date);
    let s = datetime_text(d);
    lemma_pad2(d.date.year as nat);
    lemma_pad2(d.date.month as nat);
    lemma_pad2(d.date.day as nat);
    let y = pad2(d.date.year as nat);
    let m = pad2(d.date.month as nat);
    let dd = pad2(d.date.day as nat);
    assert forall|k: int| 0 <= k < dt.len() implies #[trigger] s[k] != ' ' && s[k] != 'T' by {
        assert(s[k] == dt[k]);
        if k < y.len() {
            assert(dt[k] == y[k]);
        } else if k == y.len() {
        } else if k < y.len() + 1 + m.len() {
            assert(dt[k] == m[k - y.len() - 1]);
        } else if k == y.len() + 1 + m.len() {
        } else {
            assert(dt[k] == dd[k - y.len() - 2 - m.len()]);
        }
    }
    lemma_find_dt_sep(s, 0, dt.len() as int);
    assert(s.subrange(0, dt.len() as int) =~= dt);
    assert(s.subrange(dt.len() as int + 1, s.len() as int) =~= time_text(d.time));
}

proof fn lemma_find_dt_sep(s: Seq<char>, i: int, j: int)
    requires
        0 <= i <= j < s.len(),
        s[j] == ' ',
        forall|k: int| i <= k < j ==> #[trigger] s[k] != ' ' && s[k] != 'T',
    ensures
        find_dt_sep(s, i) == j,
    decreases j - i,
{
    if i < j {
        assert(s[i] != ' ' && s[i] != 'T');
        lemma_find_dt_sep(s, i + 1, j);
    }
}

/// The values of the float literals of a text, by their spelling: the bit
/// patterns that parsing each literal as an `f64` gives. A literal that
/// does not parse has no entry.
pub struct FloatTable {
    pub entries: Vec<(String, u64)>,
}

pub open spec fn float_entries(e: Seq<(String, u64)>) -> Seq<(Seq<char>, u64)> {
    e.map_values(|p: (String, u64)| (p.0@, p.1))
}

/// The value recorded first for `key`.
pub open spec fn float_lookup(e: Seq<(Seq<char>, u64)>, key: Seq<char>) -> Option<u64>
    decreases e.len(),
{
    if e.len() == 0 {
        None
    } else if e[0].0 == key {
        Some(e[0].1)
    } else {
        float_lookup(e.drop_first(), key)
    }
}

impl View for FloatTable {
    type V = Seq<(Seq<char>, u64)>;

    open spec fn view(&self) -> Seq<(Seq<char>, u64)> {
        float_entries(self.entries@)
    }
}

impl FloatTable {
    pub fn new() -> (t: Self)
        ensures
            t@ == Seq::<(Seq<char>, u64)>::empty(),
    {
        let t = FloatTable { entries: Vec::new() };
        assert(t@ =~= Seq::<(Seq<char>, u64)>::empty());
        t
    }

    /// The value of the literal spelled `text`.
    pub fn lookup(&self, text: &str) -> (r: Option<u64>)
        ensures
            r == float_lookup(self@, text@),
    {
        let mut i: usize = 0;
        assert(self@.skip(0) =~= self@);
        while i < self.entries.len()
            invariant
                i <= self.entries.len(),
                float_lookup(self@, text@) == float_lookup(self@.skip(i as int), text@),
            decreases self.entries.len() - i,
        {
            assert(self@.skip(i as int)[0] == (self.entries@[i as int].0@, self.entries@[i as int].1));
            if str_eq(self.entries[i].0.as_str(), text) {
                return Some(self.entries[i].1);
            }
            assert(self@.skip(i as int).drop_first() =~= self@.skip(i + 1));
            i = i + 1;
        }
        assert(self@.skip(i as int) =~= Seq::<(Seq<char>, u64)>::empty());
        None
    }
}

} // verus!
