//! The parser of table files. Each column is written as an optional
//! alignment (`<`, `^` or `>`), a header up to `=>`, and the template of
//! its cells up to the end of the line; `#` starts a comment line.
use vstd::prelude::*;
use crate::table::{Column, ColumnAlign};
use crate::text::{chars_of, substring, is_unicode_ws, unicode_ws, owned};

verus! {

/// The blanks skipped between items: space, tab, newline, carriage return.
pub open spec fn is_blank(c: char) -> bool {
    c == ' ' || c == '\n' || c == '\t' || c == '\r'
}

/// The end of the blanks starting at `i`.
pub open spec fn blank_end(s: Seq<char>, i: int) -> int
    decreases s.len() - i,
{
    if 0 <= i < s.len() && is_blank(s[i]) { blank_end(s, i + 1) } else { i }
}

/// The end of the characters other than newline and carriage return
/// starting at `i`.
pub open spec fn text_end(s: Seq<char>, i: int) -> int
    decreases s.len() - i,
{
    if 0 <= i < s.len() && s[i] != '\n' && s[i] != '\r' { text_end(s, i + 1) } else { i }
}

/// After a line end (`\n\r`, `\r\n` or `\n`) at `m`, if there is one.
pub open spec fn eol_end(s: Seq<char>, m: int) -> int {
    if 0 <= m && m + 1 < s.len() && s[m] == '\n' && s[m + 1] == '\r' {
        m + 2
    } else if 0 <= m && m + 1 < s.len() && s[m] == '\r' && s[m + 1] == '\n' {
        m + 2
    } else if 0 <= m < s.len() && s[m] == '\n' {
        m + 1
    } else {
        m
    }
}

/// A comment at `i`: blanks, `#`, at least one more character of the
/// line, and the line end.
pub open spec fn comment_at(s: Seq<char>, i: int) -> Option<int> {
    let j = blank_end(s, i);
    if 0 <= j < s.len() && s[j] == '#' {
        let m = text_end(s, j + 1);
        if m == j + 1 { None } else { Some(eol_end(s, m)) }
    } else {
        None
    }
}

pub proof fn lemma_blank_end(s: Seq<char>, i: int)
    requires
        0 <= i <= s.len(),
    ensures
        i <= blank_end(s, i) <= s.len(),
        forall|k: int| i <= k < blank_end(s, i) ==> is_blank(#[trigger] s[k]),
        blank_end(s, i) < s.len() ==> !is_blank(s[blank_end(s, i)]),
    decreases s.len() - i,
{
    if i < s.len() && is_blank(s[i]) {
        lemma_blank_end(s, i + 1);
    }
}

pub proof fn lemma_text_end(s: Seq<char>, i: int)
    requires
        0 <= i <= s.len(),
    ensures
        i <= text_end(s, i) <= s.len(),
    decreases s.len() - i,
{
    if i < s.len() && s[i] != '\n' && s[i] != '\r' {
        lemma_text_end(s, i + 1);
    }
}

pub proof fn lemma_comment_at(s: Seq<char>, i: int)
    requires
        0 <= i <= s.len(),
    ensures
        comment_at(s, i) matches Some(k) ==> i < k <= s.len(),
{
    lemma_blank_end(s, i);
    let j = blank_end(s, i);
    if 0 <= j < s.len() && s[j] == '#' {
        lemma_text_end(s, j + 1);
    }
}

/// The end of the comments starting at `i`.
pub open spec fn comments_end(s: Seq<char>, i: int) -> int
    decreases s.len() - i,
{
    if !(0 <= i <= s.len()) {
        i
    } else {
        match comment_at(s, i) {
            Some(k) => {
                proof {
                    lemma_comment_at(s, i);
                }
                comments_end(s, k)
            },
            None => i,
        }
    }
}

/// The end of what is skipped at `i`: one or more comments, else blanks.
pub open spec fn sp_end(s: Seq<char>, i: int) -> int {
    match comment_at(s, i) {
        Some(k) => comments_end(s, k),
        None => blank_end(s, i),
    }
}

/// The first `=>` at or after `i` (`s.len()` if none).
pub open spec fn arrow_at(s: Seq<char>, i: int) -> int
    decreases s.len() - i,
{
    if !(0 <= i < s.len()) {
        s.len() as int
    } else if s[i] == '=' && i + 1 < s.len() && s[i + 1] == '>' {
        i
    } else {
        arrow_at(s, i + 1)
    }
}

pub proof fn lemma_arrow_at(s: Seq<char>, i: int)
    requires
        0 <= i <= s.len(),
    ensures
        i <= arrow_at(s, i) <= s.len(),
        arrow_at(s, i) < s.len() ==> arrow_at(s, i) + 1 < s.len() && s[arrow_at(s, i)] == '='
            && s[arrow_at(s, i) + 1] == '>',
    decreases s.len() - i,
{
    if i < s.len() && !(s[i] == '=' && i + 1 < s.len() && s[i + 1] == '>') {
        lemma_arrow_at(s, i + 1);
    }
}

/// The first newline at or after `i` (`s.len()` if none).
pub open spec fn newline_at(s: Seq<char>, i: int) -> int
    decreases s.len() - i,
{
    if !(0 <= i < s.len()) {
        s.len() as int
    } else if s[i] == '\n' {
        i
    } else {
        newline_at(s, i + 1)
    }
}

/// `s[a..b]` without white space at either end.
pub open spec fn trimmed(s: Seq<char>, a: int, b: int) -> Seq<char>
    decreases b - a,
{
    if a < b && is_unicode_ws(s[a]) {
        trimmed(s, a + 1, b)
    } else if a < b && is_unicode_ws(s[b - 1]) {
        trimmed(s, a, b - 1)
    } else if a < b {
        s.subrange(a, b)
    } else {
        Seq::empty()
    }
}

/// The mathematical form of a column.
pub struct ColumnV {
    pub align: ColumnAlign,
    pub header: Seq<char>,
    pub template: Seq<char>,
}

pub open spec fn column_view(c: Column) -> ColumnV {
    ColumnV { align: c.align, header: c.header@, template: c.template@ }
}

pub open spec fn align_of(c: char) -> Option<ColumnAlign> {
    if c == '<' {
        Some(ColumnAlign::Left)
    } else if c == '^' {
        Some(ColumnAlign::Center)
    } else if c == '>' {
        Some(ColumnAlign::Right)
    } else {
        None
    }
}

/// A column starting at `i`, and where it ends.
pub open spec fn column_at(s: Seq<char>, i: int) -> Option<(int, ColumnV)> {
    let p = sp_end(s, i);
    let q = sp_end(s, p);
    let align = if 0 <= q < s.len() { align_of(s[q]) } else { None };
    let p2 = if align is Some { q + 1 } else { p };
    let p3 = sp_end(s, p2);
    let h = arrow_at(s, p3);
    if h >= s.len() {
        None
    } else {
        let p5 = sp_end(s, h + 2);
        let e = newline_at(s, p5);
        Some((sp_end(s, e), ColumnV {
            align: match align {
                Some(a) => a,
                None => ColumnAlign::Center,
            },
            header: trimmed(s, p3, h),
            template: trimmed(s, p5, e),
        }))
    }
}

/// The columns from `i` on, and where they end.
pub open spec fn columns_from(s: Seq<char>, i: int) -> (Seq<ColumnV>, int)
    decreases s.len() - i,
{
    match column_at(s, i) {
        Some((j, c)) => if i < j <= s.len() {
            let (r, e) = columns_from(s, j);
            (seq![c] + r, e)
        } else {
            (Seq::empty(), i)
        },
        None => (Seq::empty(), i),
    }
}

/// The columns of a table file, where the whole text is columns,
/// comments and blanks.
pub open spec fn table_columns(s: Seq<char>) -> Option<Seq<ColumnV>> {
    let (cols, e) = columns_from(s, sp_end(s, 0));
    if sp_end(s, e) == s.len() { Some(cols) } else { None }
}

// ---------------------------------------------------------------------------
// Executable parts.
// ---------------------------------------------------------------------------

fn blank_end_exec(v: &Vec<char>, i: usize) -> (e: usize)
    requires
        i <= v.len(),
    ensures
        e == blank_end(v@, i as int),
        i <= e <= v.len(),
{
    let mut k = i;
    while k < v.len() && (v[k] == ' ' || v[k] == '\n' || v[k] == '\t' || v[k] == '\r')
        invariant
            i <= k <= v.len(),
            blank_end(v@, i as int) == blank_end(v@, k as int),
        decreases v.len() - k,
    {
        k = k + 1;
    }
    k
}

fn text_end_exec(v: &Vec<char>, i: usize) -> (e: usize)
    requires
        i <= v.len(),
    ensures
        e == text_end(v@, i as int),
        i <= e <= v.len(),
{
    let mut k = i;
    while k < v.len() && v[k] != '\n' && v[k] != '\r'
        invariant
            i <= k <= v.len(),
            text_end(v@, i as int) == text_end(v@, k as int),
        decreases v.len() - k,
    {
        k = k + 1;
    }
    k
}

fn comment_at_exec(v: &Vec<char>, i: usize) -> (r: Option<usize>)
    requires
        i <= v.len(),
    ensures
        match r {
            Some(k) => comment_at(v@, i as int) == Some(k as int),
            None => comment_at(v@, i as int) is None,
        },
        r matches Some(k) ==> i < k <= v.len(),
{
    proof {
        lemma_comment_at(v@, i as int);
    }
    let j = blank_end_exec(v, i);
    if j < v.len() && v[j] == '#' {
        let m = text_end_exec(v, j + 1);
        if m == j + 1 {
            None
        } else {
            let e = if m < v.len() && m + 1 < v.len() && v[m] == '\n' && v[m + 1] == '\r' {
                m + 2
            } else if m < v.len() && m + 1 < v.len() && v[m] == '\r' && v[m + 1] == '\n' {
                m + 2
            } else if m < v.len() && v[m] == '\n' {
                m + 1
            } else {
                m
            };
            Some(e)
        }
    } else {
        None
    }
}

fn sp_end_exec(v: &Vec<char>, i: usize) -> (e: usize)
    requires
        i <= v.len(),
    ensures
        e == sp_end(v@, i as int),
        i <= e <= v.len(),
{
    match comment_at_exec(v, i) {
        None => blank_end_exec(v, i),
        Some(k0) => {
            let mut k = k0;
            loop
                invariant
                    i < k <= v.len(),
                    sp_end(v@, i as int) == comments_end(v@, k as int),
                decreases v.len() - k,
            {
                match comment_at_exec(v, k) {
                    Some(k2) => {
                        assert(comments_end(v@, k as int) == comments_end(v@, k2 as int));
                        k = k2;
                    },
                    None => {
                        return k;
                    },
                }
            }
        },
    }
}

fn arrow_at_exec(v: &Vec<char>, i: usize) -> (e: usize)
    requires
        i <= v.len(),
    ensures
        e == arrow_at(v@, i as int),
        i <= e <= v.len(),
{
    let mut k = i;
    while k < v.len() && !(v[k] == '=' && k + 1 < v.len() && v[k + 1] == '>')
        invariant
            i <= k <= v.len(),
            arrow_at(v@, i as int) == arrow_at(v@, k as int),
        decreases v.len() - k,
    {
        k = k + 1;
    }
    k
}

fn newline_at_exec(v: &Vec<char>, i: usize) -> (e: usize)
    requires
        i <= v.len(),
    ensures
        e == newline_at(v@, i as int),
        i <= e <= v.len(),
{
    let mut k = i;
    while k < v.len() && v[k] != '\n'
        invariant
            i <= k <= v.len(),
            newline_at(v@, i as int) == newline_at(v@, k as int),
        decreases v.len() - k,
    {
        k = k + 1;
    }
    k
}

pub(crate) fn trimmed_exec(v: &Vec<char>, a: usize, b: usize) -> (s: String)
    requires
        a <= b <= v.len(),
    ensures
        s@ == trimmed(v@, a as int, b as int),
{
    let mut x = a;
    let mut y = b;
    while x < y && unicode_ws(v[x])
        invariant
            a <= x <= y <= b <= v.len(),
            trimmed(v@, a as int, b as int) == trimmed(v@, x as int, y as int),
        decreases y - x,
    {
        x = x + 1;
    }
    while x < y && unicode_ws(v[y - 1])
        invariant
            a <= x <= y <= b <= v.len(),
            x < y ==> !is_unicode_ws(v@[x as int]),
            trimmed(v@, a as int, b as int) == trimmed(v@, x as int, y as int),
        decreases y - x,
    {
        y = y - 1;
    }
    substring(v, x, y)
}

fn column_at_exec(v: &Vec<char>, i: usize) -> (r: Option<(usize, Column)>)
    requires
        i <= v.len(),
    ensures
        match (r, column_at(v@, i as int)) {
            (Some((j, c)), Some((k, w))) => j == k && column_view(c) == w && i <= j <= v.len(),
            (None, None) => true,
            _ => false,
        },
{
    let p = sp_end_exec(v, i);
    let q = sp_end_exec(v, p);
    let align = if q < v.len() {
        if v[q] == '<' {
            Some(ColumnAlign::Left)
        } else if v[q] == '^' {
            Some(ColumnAlign::Center)
        } else if v[q] == '>' {
            Some(ColumnAlign::Right)
        } else {
            None
        }
    } else {
        None
    };
    let p2 = match align {
        Some(_) => q + 1,
        None => p,
    };
    let p3 = sp_end_exec(v, p2);
    let h = arrow_at_exec(v, p3);
    proof {
        lemma_arrow_at(v@, p3 as int);
    }
    if h >= v.len() {
        return None;
    }
    let p5 = sp_end_exec(v, h + 2);
    let e = newline_at_exec(v, p5);
    let end = sp_end_exec(v, e);
    let header = trimmed_exec(v, p3, h);
    let template = trimmed_exec(v, p5, e);
    let a = match align {
        Some(a) => a,
        None => ColumnAlign::Center,
    };
    Some((end, Column { align: a, header, template }))
}

pub open spec fn columns_view(c: Seq<Column>) -> Seq<ColumnV> {
    c.map_values(|x: Column| column_view(x))
}

/// The columns of a table file (see `table_columns`), or `None` where some
/// text is neither a column, a comment nor blank.
pub fn parse_table(txt: &str) -> (r: Option<Vec<Column>>)
    ensures
        match (r, table_columns(txt@)) {
            (Some(c), Some(w)) => columns_view(c@) == w,
            (None, None) => true,
            _ => false,
        },
{
    let v = chars_of(txt);
    let start = sp_end_exec(&v, 0);
    let mut i = start;
    let mut cols: Vec<Column> = Vec::new();
    assert(columns_view(cols@) =~= Seq::<ColumnV>::empty());
    loop
        invariant
            v@ == txt@,
            start <= i <= v.len(),
            start == sp_end(v@, 0),
            columns_from(v@, start as int) == ({
                let (r, e) = columns_from(v@, i as int);
                (columns_view(cols@) + r, e)
            }),
        ensures
            columns_from(v@, i as int) == (Seq::<ColumnV>::empty(), i as int),
        decreases v.len() - i,
    {
        match column_at_exec(&v, i) {
            Some((j, c)) => {
                if j <= i {
                    break;
                }
                let ghost before = cols@;
                cols.push(c);
                proof {
                    assert(columns_view(cols@) =~= columns_view(before).push(column_view(c)));
                    let (r2, e2) = columns_from(v@, j as int);
                    assert(columns_view(before) + (seq![column_view(c)] + r2) =~= columns_view(cols@) + r2);
                }
                i = j;
            },
            None => {
                break;
            },
        }
    }
    assert(columns_view(cols@) + Seq::<ColumnV>::empty() =~= columns_view(cols@));
    if sp_end_exec(&v, i) == v.len() {
        Some(cols)
    } else {
        None
    }
}

/// The columns of a table file whose last line may lack its newline; the
/// error says that the text is not a table file.
pub fn parse_table_complete(txt: &str) -> (r: Result<Vec<Column>, String>)
    ensures
        match (r, table_columns(txt@.push('\n'))) {
            (Ok(c), Some(w)) => columns_view(c@) == w,
            (Err(m), None) => m@ == "Invalid table file"@,
            _ => false,
        },
{
    let mut t = owned(txt);
    crate::text::push_char(&mut t, '\n');
    match parse_table(t.as_str()) {
        Some(c) => Ok(c),
        None => Err(owned("Invalid table file")),
    }
}

} // verus!
