//! Tables of node attributes rendered as markdown.
use vstd::prelude::*;
use crate::text::{push_char, push_str, string_byte_len, utf8_bytes, chars_of, owned, is_unicode_ws, unicode_ws};
use string_template_plus::Template;

verus! {

/// Alignment of a table column.
#[derive(Clone, Copy, PartialEq, Eq, Debug, Structural)]
pub enum ColumnAlign {
    Left,
    Right,
    Center,
}

impl Default for ColumnAlign {
    fn default() -> (a: Self)
        ensures
            a == ColumnAlign::Center,
    {
        ColumnAlign::Center
    }
}

impl ColumnAlign {
    /// The character that stands for the alignment in table files and
    /// format strings: `<`, `>` or `^`.
    pub fn symbol(&self) -> (c: char)
        ensures
            c == match self {
                ColumnAlign::Left => '<',
                ColumnAlign::Right => '>',
                ColumnAlign::Center => '^',
            },
    {
        match self {
            ColumnAlign::Left => '<',
            ColumnAlign::Right => '>',
            ColumnAlign::Center => '^',
        }
    }
}

/// A column: its alignment, header, and the template of its cells.
#[derive(Clone, Debug)]
pub struct Column {
    pub align: ColumnAlign,
    pub header: String,
    pub template: String,
}

impl Column {
    pub fn new(header: &str, template: &str, align: Option<ColumnAlign>) -> (c: Self)
        ensures
            c.header@ == header@,
            c.template@ == template@,
            c.align == match align {
                Some(a) => a,
                None => ColumnAlign::Center,
            },
    {
        let a = match align {
            Some(a) => a,
            None => ColumnAlign::Center,
        };
        Column { align: a, header: owned(header), template: owned(template) }
    }
}

/// A table: a list of columns.
#[derive(Clone, Debug)]
pub struct Table {
    pub columns: Vec<Column>,
}

pub open spec fn spaces(n: int) -> Seq<char> {
    Seq::new(if n > 0 { n as nat } else { 0 }, |i: int| ' ')
}

pub open spec fn dashes(n: int) -> Seq<char> {
    Seq::new(if n > 0 { n as nat } else { 0 }, |i: int| '-')
}

/// A cell: the text padded with spaces to `width` characters, as the
/// alignment says (centered text gets the smaller half of the padding
/// before it), with one space on each side.
pub open spec fn aligned_cell(text: Seq<char>, align: ColumnAlign, width: int) -> Seq<char> {
    let pad = width - text.len();
    let body = match align {
        ColumnAlign::Left => text + spaces(pad),
        ColumnAlign::Right => spaces(pad) + text,
        ColumnAlign::Center => spaces(pad / 2) + text + spaces(pad - pad / 2),
    };
    seq![' '] + body + seq![' ']
}

/// Width of column `i`: the longest of its header and its cells, in bytes.
pub open spec fn col_width(header: Seq<char>, rows: Seq<Seq<Seq<char>>>, i: int) -> int
    decreases rows.len(),
{
    if rows.len() == 0 {
        utf8_bytes(header) as int
    } else {
        let w = col_width(header, rows.drop_last(), i);
        let c = utf8_bytes(rows.last()[i]) as int;
        if c > w { c } else { w }
    }
}

/// A column of a markdown table is as wide as its widest entry: at least
/// the header's byte length and that of the column's cell in every row, and
/// equal to one of them.
pub proof fn law_col_width_widest(header: Seq<char>, rows: Seq<Seq<Seq<char>>>, i: int)
    ensures
        col_width(header, rows, i) >= utf8_bytes(header),
        forall|r: int| 0 <= r < rows.len() ==> col_width(header, rows, i) >= utf8_bytes(#[trigger] rows[r][i]),
        col_width(header, rows, i) == utf8_bytes(header)
            || exists|r: int| 0 <= r < rows.len() && col_width(header, rows, i) == utf8_bytes(#[trigger] rows[r][i]),
    decreases rows.len(),
{
    if rows.len() > 0 {
        let d = rows.drop_last();
        law_col_width_widest(header, d, i);
        assert forall|r: int| 0 <= r < rows.len() implies col_width(header, rows, i) >= utf8_bytes(#[trigger] rows[r][i]) by {
            if r < d.len() {
                assert(rows[r] == d[r]);
            }
        }
        if col_width(header, rows, i) != utf8_bytes(header) {
            if col_width(header, rows, i) == utf8_bytes(rows.last()[i]) {
                assert(rows[rows.len() - 1][i] == rows.last()[i]);
            } else {
                let r = choose|r: int| 0 <= r < d.len() && col_width(header, d, i) == utf8_bytes(#[trigger] d[r][i]);
                assert(rows[r] == d[r]);
            }
        }
    }
}

/// `|` then each cell followed by `|`, then a newline.
pub open spec fn md_row(cells: Seq<Seq<char>>, aligns: Seq<ColumnAlign>, widths: Seq<int>) -> Seq<char>
    decreases cells.len(),
{
    if cells.len() == 0 || aligns.len() == 0 || widths.len() == 0 {
        seq!['|']
    } else {
        md_row(cells.drop_last(), aligns, widths) + aligned_cell(cells.last(), aligns[cells.len() - 1], widths[cells.len() - 1]) + seq!['|']
    }
}

/// The markers of the alignment line for one column.
pub open spec fn align_marks(a: ColumnAlign) -> (char, char) {
    match a {
        ColumnAlign::Left => (':', '-'),
        ColumnAlign::Right => ('-', ':'),
        ColumnAlign::Center => (':', ':'),
    }
}

pub open spec fn md_rule(aligns: Seq<ColumnAlign>, widths: Seq<int>) -> Seq<char>
    decreases widths.len(),
{
    if widths.len() == 0 {
        seq!['|']
    } else {
        md_rule(aligns, widths.drop_last()) + seq![align_marks(aligns[widths.len() - 1]).0]
            + dashes(widths.last()) + seq![align_marks(aligns[widths.len() - 1]).1, '|']
    }
}

/// A markdown table: the header line, the alignment line, and one line per
/// row; only as many columns as there are both headers and alignments.
pub open spec fn markdown(headers: Seq<Seq<char>>, aligns: Seq<ColumnAlign>, rows: Seq<Seq<Seq<char>>>) -> Seq<char> {
    let n = if headers.len() < aligns.len() { headers.len() } else { aligns.len() };
    let widths = Seq::new(n, |i: int| col_width(headers[i], rows, i));
    let cut = |cells: Seq<Seq<char>>| cells.take(n as int);
    md_row(cut(headers), aligns, widths) + seq!['\n'] + md_rule(aligns, widths) + seq!['\n'] + body_rows(rows, aligns, widths, n as int)
}

pub open spec fn body_rows(rows: Seq<Seq<Seq<char>>>, aligns: Seq<ColumnAlign>, widths: Seq<int>, n: int) -> Seq<char>
    decreases rows.len(),
{
    if rows.len() == 0 {
        Seq::empty()
    } else {
        body_rows(rows.drop_last(), aligns, widths, n) + md_row(rows.last().take(n), aligns, widths) + seq!['\n']
    }
}


/// The length of a table line over the first `m` columns of widths `ws`:
/// a leading `|` and, per column, its width plus three (two spaces or
/// markers and a `|`).
pub open spec fn line_len(ws: Seq<int>, m: int) -> int
    decreases m,
{
    if m <= 0 {
        1
    } else {
        line_len(ws, m - 1) + ws[m - 1] + 3
    }
}

proof fn lemma_line_len_prefix(a: Seq<int>, b: Seq<int>, m: int)
    requires
        0 <= m <= a.len(),
        m <= b.len(),
        forall|i: int| 0 <= i < m ==> a[i] == b[i],
    ensures
        line_len(a, m) == line_len(b, m),
    decreases m,
{
    if m > 0 {
        lemma_line_len_prefix(a, b, m - 1);
    }
}

proof fn lemma_cell_len(text: Seq<char>, align: ColumnAlign, w: int)
    requires
        text.len() <= w,
    ensures
        aligned_cell(text, align, w).len() == w + 2,
{
    let pad = w - text.len();
    assert(spaces(pad).len() == pad);
    assert(spaces(pad / 2).len() == pad / 2);
    assert(spaces(pad - pad / 2).len() == pad - pad / 2);
}

proof fn lemma_md_row_len(cells: Seq<Seq<char>>, aligns: Seq<ColumnAlign>, ws: Seq<int>)
    requires
        cells.len() <= aligns.len(),
        cells.len() <= ws.len(),
        forall|i: int| 0 <= i < cells.len() ==> (#[trigger] cells[i]).len() <= ws[i],
    ensures
        md_row(cells, aligns, ws).len() == line_len(ws, cells.len() as int),
    decreases cells.len(),
{
    if cells.len() > 0 {
        let d = cells.drop_last();
        assert forall|i: int| 0 <= i < d.len() implies (#[trigger] d[i]).len() <= ws[i] by {
            assert(d[i] == cells[i]);
        }
        lemma_md_row_len(d, aligns, ws);
        assert(cells.last() == cells[cells.len() - 1]);
        lemma_cell_len(cells.last(), aligns[cells.len() - 1], ws[cells.len() - 1]);
    }
}

proof fn lemma_md_rule_len(aligns: Seq<ColumnAlign>, ws: Seq<int>)
    requires
        forall|i: int| 0 <= i < ws.len() ==> #[trigger] ws[i] >= 0,
    ensures
        md_rule(aligns, ws).len() == line_len(ws, ws.len() as int),
    decreases ws.len(),
{
    if ws.len() > 0 {
        let d = ws.drop_last();
        lemma_md_rule_len(aligns, d);
        lemma_line_len_prefix(d, ws, d.len() as int);
        assert(ws.last() == ws[ws.len() - 1]);
        assert(dashes(ws.last()).len() == ws.last());
    }
}

proof fn lemma_body_rows_lines(rows: Seq<Seq<Seq<char>>>, aligns: Seq<ColumnAlign>, ws: Seq<int>, n: int, l: int)
    requires
        n == ws.len(),
        n <= aligns.len(),
        l == line_len(ws, n),
        l >= 1,
        forall|r: int| 0 <= r < rows.len() ==> (#[trigger] rows[r]).len() >= n,
        forall|r: int, i: int| 0 <= r < rows.len() && 0 <= i < n ==> (#[trigger] rows[r][i]).len() <= ws[i],
    ensures
        body_rows(rows, aligns, ws, n).len() == rows.len() * (l + 1),
        forall|k: int| 0 <= k < rows.len() ==> #[trigger] body_rows(rows, aligns, ws, n)[k * (l + 1) + l] == '\n',
    decreases rows.len(),
{
    if rows.len() > 0 {
        let d = rows.drop_last();
        assert forall|r: int| 0 <= r < d.len() implies (#[trigger] d[r]).len() >= n by {
            assert(d[r] == rows[r]);
        }
        assert forall|r: int, i: int| 0 <= r < d.len() && 0 <= i < n implies (#[trigger] d[r][i]).len() <= ws[i] by {
            assert(d[r] == rows[r]);
            assert(rows[r][i].len() <= ws[i]);
        }
        lemma_body_rows_lines(d, aligns, ws, n, l);
        let last = rows.last().take(n);
        assert(rows.last() == rows[rows.len() - 1]);
        assert forall|i: int| 0 <= i < last.len() implies (#[trigger] last[i]).len() <= ws[i] by {
            assert(last[i] == rows[rows.len() - 1][i]);
        }
        lemma_md_row_len(last, aligns, ws);
        let b0 = body_rows(d, aligns, ws, n);
        let row = md_row(last, aligns, ws);
        let b = body_rows(rows, aligns, ws, n);
        assert(b == b0 + row + seq!['\n']);
        let rl = rows.len() as int;
        assert(b0.len() == (rl - 1) * (l + 1));
        assert(b.len() == (rl - 1) * (l + 1) + l + 1);
        assert((rl - 1) * (l + 1) + l + 1 == rl * (l + 1)) by (nonlinear_arith);
        assert forall|k: int| 0 <= k < rows.len() implies #[trigger] b[k * (l + 1) + l] == '\n' by {
            if k < rl - 1 {
                assert(k * (l + 1) + l < (rl - 1) * (l + 1)) by (nonlinear_arith)
                    requires k < rl - 1, l >= 1;
                assert(k * (l + 1) + l >= 0) by (nonlinear_arith)
                    requires k >= 0, l >= 1;
                assert(b[k * (l + 1) + l] == b0[k * (l + 1) + l]);
            } else {
                assert(k * (l + 1) + l == b.len() - 1);
            }
        }
    }
}

/// A markdown table is made of lines of one length: with `l` the line
/// length for the column widths (a `|`, and per column its width plus
/// three), the table has the header line, the alignment line and one line
/// per row, each of `l` characters followed by a newline.
pub proof fn law_markdown_lines(headers: Seq<Seq<char>>, aligns: Seq<ColumnAlign>, rows: Seq<Seq<Seq<char>>>)
    requires
        forall|r: int| 0 <= r < rows.len() ==> (#[trigger] rows[r]).len() >= headers.len(),
    ensures
        ({
            let n = if headers.len() < aligns.len() { headers.len() } else { aligns.len() };
            let l = line_len(Seq::new(n, |i: int| col_width(headers[i], rows, i)), n as int);
            let md = markdown(headers, aligns, rows);
            &&& md.len() == (rows.len() + 2) * (l + 1)
            &&& forall|k: int| 0 <= k < rows.len() + 2 ==> #[trigger] md[k * (l + 1) + l] == '\n'
        }),
{
    let n = if headers.len() < aligns.len() { headers.len() } else { aligns.len() };
    let ws = Seq::new(n, |i: int| col_width(headers[i], rows, i));
    let l = line_len(ws, n as int);
    let hs = headers.take(n as int);
    assert forall|i: int| 0 <= i < n implies #[trigger] ws[i] >= 0 && hs[i].len() <= ws[i]
        && forall|r: int| 0 <= r < rows.len() ==> rows[r][i].len() <= ws[i] by {
        law_col_width_widest(headers[i], rows, i);
        crate::text::lemma_utf8_bytes_len(headers[i]);
        assert(hs[i] == headers[i]);
        assert forall|r: int| 0 <= r < rows.len() implies rows[r][i].len() <= ws[i] by {
            crate::text::lemma_utf8_bytes_len(rows[r][i]);
        }
    }
    assert forall|i: int| 0 <= i < hs.len() implies (#[trigger] hs[i]).len() <= ws[i] by {}
    lemma_md_row_len(hs, aligns, ws);
    lemma_md_rule_len(aligns, ws);
    assert(l >= 1) by {
        lemma_line_len_pos(ws, n as int);
    }
    assert forall|r: int, i: int| 0 <= r < rows.len() && 0 <= i < n implies (#[trigger] rows[r][i]).len() <= ws[i] by {
        assert(ws[i] >= 0);
    }
    lemma_body_rows_lines(rows, aligns, ws, n as int, l);
    let h = md_row(hs, aligns, ws);
    let ru = md_rule(aligns, ws);
    let b = body_rows(rows, aligns, ws, n as int);
    let md = markdown(headers, aligns, rows);
    assert(md == h + seq!['\n'] + ru + seq!['\n'] + b);
    let rl = rows.len() as int;
    assert(md.len() == 2 * (l + 1) + rl * (l + 1));
    assert(2 * (l + 1) + rl * (l + 1) == (rl + 2) * (l + 1)) by (nonlinear_arith);
    assert forall|k: int| 0 <= k < rows.len() + 2 implies #[trigger] md[k * (l + 1) + l] == '\n' by {
        if k == 0 {
        } else if k == 1 {
        } else {
            let k2 = k - 2;
            assert(k * (l + 1) + l == 2 * (l + 1) + (k2 * (l + 1) + l)) by (nonlinear_arith)
                requires k2 == k - 2;
            assert(k2 * (l + 1) + l >= 0) by (nonlinear_arith)
                requires k2 >= 0, l >= 1;
            assert(k2 * (l + 1) + l < rl * (l + 1)) by (nonlinear_arith)
                requires k2 < rl, k2 >= 0, l >= 1;
            assert(b[k2 * (l + 1) + l] == '\n');
            let pre = h + seq!['\n'] + ru + seq!['\n'];
            assert(pre.len() == 2 * (l + 1));
            assert(md == pre + b);
            assert(md[k * (l + 1) + l] == b[k2 * (l + 1) + l]);
        }
    }
}

proof fn lemma_line_len_pos(ws: Seq<int>, m: int)
    requires
        forall|i: int| 0 <= i < m ==> #[trigger] ws[i] >= 0,
    ensures
        line_len(ws, m) >= 1,
    decreases m,
{
    if m > 0 {
        lemma_line_len_pos(ws, m - 1);
    }
}

fn push_repeat(out: &mut String, c: char, n: usize)
    ensures
        final(out)@ == old(out)@ + Seq::new(n as nat, |i: int| c),
{
    let mut k: usize = 0;
    while k < n
        invariant
            k <= n,
            out@ == old(out)@ + Seq::new(k as nat, |i: int| c),
        decreases n - k,
    {
        push_char(out, c);
        assert(old(out)@ + Seq::new((k + 1) as nat, |i: int| c) =~= old(out)@ + Seq::new(k as nat, |i: int| c) + seq![c]);
        k = k + 1;
    }
}

/// Appends the aligned cell of `text`.
fn push_cell(out: &mut String, text: &str, align: ColumnAlign, width: usize)
    ensures
        final(out)@ == old(out)@ + aligned_cell(text@, align, width as int),
{
    let n = chars_of(text).len();
    let pad: usize = if width > n { width - n } else { 0 };
    let ghost p = width as int - text@.len();
    assert(spaces(p) =~= Seq::new(pad as nat, |i: int| ' '));
    push_char(out, ' ');
    match align {
        ColumnAlign::Left => {
            push_str(out, text);
            push_repeat(out, ' ', pad);
        },
        ColumnAlign::Right => {
            push_repeat(out, ' ', pad);
            push_str(out, text);
        },
        ColumnAlign::Center => {
            assert(spaces(p / 2) =~= Seq::new((pad / 2) as nat, |i: int| ' '));
            assert(spaces(p - p / 2) =~= Seq::new((pad - pad / 2) as nat, |i: int| ' '));
            push_repeat(out, ' ', pad / 2);
            push_str(out, text);
            push_repeat(out, ' ', pad - pad / 2);
        },
    }
    push_char(out, ' ');
    assert(final(out)@ =~= old(out)@ + aligned_cell(text@, align, width as int));
}

/// A cell of a markdown table: `col` padded to `width` characters as
/// `align` says, with a space on each side.
pub fn align_fmt_fn(col: &str, align: &ColumnAlign, width: &usize) -> (s: String)
    ensures
        s@ == aligned_cell(col@, *align, *width as int),
{
    let mut s = owned("");
    proof {
        reveal_strlit("");
    }
    push_cell(&mut s, col, *align, *width);
    assert(s@ =~= aligned_cell(col@, *align, *width as int));
    s
}

pub open spec fn str_views(h: Seq<&str>) -> Seq<Seq<char>> {
    h.map_values(|x: &str| x@)
}

pub open spec fn string_views(h: Seq<String>) -> Seq<Seq<char>> {
    h.map_values(|x: String| x@)
}

pub open spec fn rows_view(rows: Seq<Vec<String>>) -> Seq<Seq<Seq<char>>> {
    rows.map_values(|r: Vec<String>| string_views(r@))
}

pub open spec fn deref_aligns(a: Seq<&ColumnAlign>) -> Seq<ColumnAlign> {
    a.map_values(|x: &ColumnAlign| *x)
}

proof fn lemma_md_row_step(cells: Seq<Seq<char>>, aligns: Seq<ColumnAlign>, widths: Seq<int>, i: int)
    requires
        0 <= i < cells.len(),
        i < aligns.len(),
        i < widths.len(),
    ensures
        md_row(cells.take(i + 1), aligns, widths) == md_row(cells.take(i), aligns, widths)
            + aligned_cell(cells[i], aligns[i], widths[i]) + seq!['|'],
{
    assert(cells.take(i + 1).drop_last() =~= cells.take(i));
}

/// Renders rows of cells as a markdown table; every row must have a cell
/// for each header.
pub fn contents_2_md(headers: &[&str], alignments: &[&ColumnAlign], contents: Vec<Vec<String>>) -> (md: String)
    requires
        forall|r: int| 0 <= r < contents@.len() ==> #[trigger] contents@[r]@.len() >= headers@.len(),
    ensures
        md@ == markdown(str_views(headers@), deref_aligns(alignments@), rows_view(contents@)),
{
    let n: usize = if headers.len() < alignments.len() { headers.len() } else { alignments.len() };
    let ghost hv = str_views(headers@);
    let ghost av = deref_aligns(alignments@);
    let ghost rv = rows_view(contents@);
    let ghost widths = Seq::new(n as nat, |i: int| col_width(hv[i], rv, i));
    // column widths
    let mut col_widths: Vec<usize> = Vec::new();
    let mut i: usize = 0;
    while i < n
        invariant
            i <= n <= headers@.len(),
            n <= alignments@.len(),
            hv == str_views(headers@),
            rv == rows_view(contents@),
            widths == Seq::new(n as nat, |i: int| col_width(hv[i], rv, i)),
            forall|r: int| 0 <= r < contents@.len() ==> #[trigger] contents@[r]@.len() >= headers@.len(),
            col_widths@.len() == i,
            forall|j: int| 0 <= j < i ==> #[trigger] col_widths@[j] as int == widths[j],
        decreases n - i,
    {
        let mut w: usize = crate::text::str_byte_len(headers[i]);
        let mut r: usize = 0;
        while r < contents.len()
            invariant
                i < n <= headers@.len(),
                hv == str_views(headers@),
                rv == rows_view(contents@),
                forall|r: int| 0 <= r < contents@.len() ==> #[trigger] contents@[r]@.len() >= headers@.len(),
                r <= contents.len(),
                w as int == col_width(hv[i as int], rv.take(r as int), i as int),
            decreases contents.len() - r,
        {
            let b = string_byte_len(&contents[r][i]);
            proof {
                assert(rv.take(r + 1).drop_last() =~= rv.take(r as int));
                assert(rv.take(r + 1).last() == string_views(contents@[r as int]@));
            }
            if b > w {
                w = b;
            }
            r = r + 1;
        }
        assert(rv.take(contents.len() as int) =~= rv);
        col_widths.push(w);
        i = i + 1;
    }
    let ghost wv = col_widths@.map_values(|x: usize| x as int);
    assert(wv =~= widths);
    // header line
    let mut out = String::new();
    push_char(&mut out, '|');
    let mut i: usize = 0;
    assert(hv.take(n as int).take(0) =~= Seq::<Seq<char>>::empty());
    while i < n
        invariant
            i <= n <= headers@.len(),
            n <= alignments@.len(),
            hv == str_views(headers@),
            av == deref_aligns(alignments@),
            col_widths@.len() == n,
            wv == widths,
            wv == col_widths@.map_values(|x: usize| x as int),
            widths.len() == n,
            out@ == md_row(hv.take(n as int).take(i as int), av, widths),
        decreases n - i,
    {
        proof {
            lemma_md_row_step(hv.take(n as int), av, widths, i as int);
        }
        push_cell(&mut out, headers[i], *alignments[i], col_widths[i]);
        push_char(&mut out, '|');
        i = i + 1;
    }
    assert(hv.take(n as int).take(n as int) =~= hv.take(n as int));
    push_char(&mut out, '\n');
    let ghost head = out@;
    // alignment line
    let mut rule = String::new();
    push_char(&mut rule, '|');
    let mut i: usize = 0;
    assert(widths.take(0) =~= Seq::<int>::empty());
    while i < n
        invariant
            i <= n <= alignments@.len(),
            av == deref_aligns(alignments@),
            col_widths@.len() == n,
            wv == widths,
            wv == col_widths@.map_values(|x: usize| x as int),
            widths.len() == n,
            rule@ == md_rule(av, widths.take(i as int)),
        decreases n - i,
    {
        let (pre, post) = match alignments[i] {
            ColumnAlign::Left => (':', '-'),
            ColumnAlign::Right => ('-', ':'),
            ColumnAlign::Center => (':', ':'),
        };
        push_char(&mut rule, pre);
        push_repeat(&mut rule, '-', col_widths[i]);
        push_char(&mut rule, post);
        push_char(&mut rule, '|');
        proof {
            assert(widths.take(i + 1).drop_last() =~= widths.take(i as int));
            assert(dashes(widths[i as int]) =~= Seq::new(col_widths@[i as int] as nat, |k: int| '-'));
            assert(rule@ =~= md_rule(av, widths.take(i + 1)));
        }
        i = i + 1;
    }
    assert(widths.take(n as int) =~= widths);
    push_str(&mut out, rule.as_str());
    push_char(&mut out, '\n');
    // rows
    let mut r: usize = 0;
    let ghost prefix = out@;
    assert(rv.take(0) =~= Seq::<Seq<Seq<char>>>::empty());
    while r < contents.len()
        invariant
            n <= headers@.len(),
            n <= alignments@.len(),
            rv == rows_view(contents@),
            av == deref_aligns(alignments@),
            forall|r: int| 0 <= r < contents@.len() ==> #[trigger] contents@[r]@.len() >= headers@.len(),
            col_widths@.len() == n,
            wv == widths,
            wv == col_widths@.map_values(|x: usize| x as int),
            widths.len() == n,
            r <= contents.len(),
            out@ == prefix + body_rows(rv.take(r as int), av, widths, n as int),
        decreases contents.len() - r,
    {
        let row = &contents[r];
        let ghost cells = string_views(row@);
        let ghost before = out@;
        push_char(&mut out, '|');
        let mut i: usize = 0;
        assert(cells.take(n as int).take(0) =~= Seq::<Seq<char>>::empty());
        while i < n
            invariant
                i <= n <= headers@.len(),
                n <= alignments@.len(),
                row@.len() >= headers@.len(),
                cells == string_views(row@),
                av == deref_aligns(alignments@),
                col_widths@.len() == n,
                wv == widths,
                wv == col_widths@.map_values(|x: usize| x as int),
                widths.len() == n,
                out@ == before + md_row(cells.take(n as int).take(i as int), av, widths),
            decreases n - i,
        {
            proof {
                lemma_md_row_step(cells.take(n as int), av, widths, i as int);
            }
            push_cell(&mut out, row[i].as_str(), *alignments[i], col_widths[i]);
            push_char(&mut out, '|');
            i = i + 1;
        }
        push_char(&mut out, '\n');
        proof {
            assert(cells.take(n as int).take(n as int) =~= cells.take(n as int));
            assert(rv.take(r + 1).drop_last() =~= rv.take(r as int));
            assert(rv.take(r + 1).last() == cells);
        }
        r = r + 1;
    }
    assert(rv.take(contents.len() as int) =~= rv);
    out
}

/// The rows of a table from each node's rendered cells: with `diagram`,
/// each row starts with the node's line of the connection diagram.
pub fn rows_with_diagram(cells: Vec<Vec<String>>, diagram: Option<&Vec<String>>) -> (r: Vec<Vec<String>>)
    requires
        diagram matches Some(d) ==> d@.len() >= cells@.len(),
    ensures
        r@.len() == cells@.len(),
        forall|i: int| 0 <= i < cells@.len() ==> #[trigger] rows_view(r@)[i] == match diagram {
            Some(d) => seq![d@[i]@] + string_views(cells@[i]@),
            None => string_views(cells@[i]@),
        },
{
    let mut out: Vec<Vec<String>> = Vec::new();
    let mut i: usize = 0;
    let n = cells.len();
    while i < n
        invariant
            n == cells@.len(),
            i <= n,
            out@.len() == i,
            diagram matches Some(d) ==> d@.len() >= n,
            forall|j: int| 0 <= j < i ==> #[trigger] rows_view(out@)[j] == match diagram {
                Some(d) => seq![d@[j]@] + string_views(cells@[j]@),
                None => string_views(cells@[j]@),
            },
        decreases n - i,
    {
        let mut row: Vec<String> = Vec::new();
        match diagram {
            Some(d) => row.push(d[i].clone()),
            None => {},
        }
        let ghost r0 = row@;
        let mut k: usize = 0;
        while k < cells[i].len()
            invariant
                i < n,
                n == cells@.len(),
                k <= cells@[i as int]@.len(),
                row@.len() == r0.len() + k,
                string_views(row@) == string_views(r0) + string_views(cells@[i as int]@).take(k as int),
            decreases cells@[i as int]@.len() - k,
        {
            let ghost before = row@;
            row.push(cells[i][k].clone());
            assert(string_views(row@) =~= string_views(before).push(cells@[i as int]@[k as int]@));
            assert(string_views(cells@[i as int]@).take(k + 1) =~= string_views(cells@[i as int]@).take(k as int).push(cells@[i as int]@[k as int]@));
            k = k + 1;
        }
        assert(string_views(cells@[i as int]@).take(k as int) =~= string_views(cells@[i as int]@));
        let ghost before_out = out@;
        proof {
            match diagram {
                Some(d) => assert(string_views(r0) =~= seq![d@[i as int]@]),
                None => assert(string_views(r0) =~= Seq::<Seq<char>>::empty()),
            }
        }
        out.push(row);
        proof {
            assert forall|j: int| 0 <= j < i + 1 implies #[trigger] rows_view(out@)[j] == match diagram {
                Some(d) => seq![d@[j]@] + string_views(cells@[j]@),
                None => string_views(cells@[j]@),
            } by {
                if j < i {
                    assert(rows_view(out@)[j] == rows_view(before_out)[j]);
                } else {
                    assert(Seq::<Seq<char>>::empty() + string_views(cells@[j]@) =~= string_views(cells@[j]@));
                }
            }
        }
        i = i + 1;
    }
    out
}

impl Table {
    /// The markdown table of rendered rows: with `conn`, a first column
    /// headed `conn`, aligned left, holding the first cell of each row.
    pub fn markdown_from_contents(&self, contents: Vec<Vec<String>>, conn: Option<String>) -> (md: String)
        requires
            forall|r: int| 0 <= r < contents@.len() ==> #[trigger] contents@[r]@.len() >= self.columns@.len()
                + if conn is Some { 1int } else { 0int },
        ensures
            md@ == markdown(
                if conn is Some { seq![conn->0@] } else { Seq::empty() } + self.columns@.map_values(|c: Column| c.header@),
                if conn is Some { seq![ColumnAlign::Left] } else { Seq::empty() } + self.columns@.map_values(|c: Column| c.align),
                rows_view(contents@),
            ),
    {
        let mut headers: Vec<&str> = Vec::new();
        let mut aligns: Vec<&ColumnAlign> = Vec::new();
        let left = ColumnAlign::Left;
        if let Some(c) = &conn {
            headers.push(c.as_str());
            aligns.push(&left);
        }
        let ghost h0 = headers@;
        let ghost a0 = aligns@;
        let mut i: usize = 0;
        while i < self.columns.len()
            invariant
                i <= self.columns.len(),
                str_views(headers@) == str_views(h0) + self.columns@.take(i as int).map_values(|c: Column| c.header@),
                deref_aligns(aligns@) == deref_aligns(a0) + self.columns@.take(i as int).map_values(|c: Column| c.align),
                conn is Some ==> str_views(h0) == seq![conn->0@] && deref_aligns(a0) == seq![ColumnAlign::Left],
                conn is None ==> h0.len() == 0 && a0.len() == 0,
            decreases self.columns.len() - i,
        {
            let ghost hb = headers@;
            let ghost ab = aligns@;
            let h = self.columns[i].header.as_str();
            headers.push(h);
            aligns.push(&self.columns[i].align);
            proof {
                assert(str_views(headers@) =~= str_views(hb).push(h@));
                assert(deref_aligns(aligns@) =~= deref_aligns(ab).push(self.columns@[i as int].align));
                assert(self.columns@.take(i + 1) =~= self.columns@.take(i as int).push(self.columns@[i as int]));
                assert(str_views(headers@) =~= str_views(h0) + self.columns@.take(i + 1).map_values(|c: Column| c.header@));
                assert(deref_aligns(aligns@) =~= deref_aligns(a0) + self.columns@.take(i + 1).map_values(|c: Column| c.align));
            }
            i = i + 1;
        }
        assert(self.columns@.take(self.columns.len() as int) =~= self.columns@);
        proof {
            assert(str_views(headers@) =~= (if conn is Some { seq![conn->0@] } else { Seq::empty() })
                + self.columns@.map_values(|c: Column| c.header@));
            assert(deref_aligns(aligns@) =~= (if conn is Some { seq![ColumnAlign::Left] } else { Seq::empty() })
                + self.columns@.map_values(|c: Column| c.align));
        }
        contents_2_md(headers.as_slice(), aligns.as_slice(), contents)
    }
}

/// The template type of the templating crate; it stays opaque here.
#[verifier::external_type_specification]
#[verifier::external_body]
pub struct ExTemplate(string_template_plus::Template);

/// Whether `text` parses as a template; it depends on the text alone.
pub uninterp spec fn template_parses(text: Seq<char>) -> bool;

/// The message of the error that parsing `text` as a template gives; it
/// depends on the text alone.
pub uninterp spec fn template_error(text: Seq<char>) -> Seq<char>;

/// The first place at or after `i` that holds no white space, or the end.
pub open spec fn skip_ws(s: Seq<char>, i: int) -> int
    decreases s.len() - i,
{
    if i < 0 || i >= s.len() {
        s.len() as int
    } else if is_unicode_ws(s[i]) {
        skip_ws(s, i + 1)
    } else {
        i
    }
}

/// The last place before `i` that holds no white space, or -1.
pub open spec fn skip_ws_back(s: Seq<char>, i: int) -> int
    decreases i,
{
    if i <= 0 || i > s.len() {
        -1
    } else if is_unicode_ws(s[i - 1]) {
        skip_ws_back(s, i - 1)
    } else {
        i - 1
    }
}

/// Place `k` of `s` holds `c`.
pub open spec fn char_at(s: Seq<char>, k: int, c: char) -> bool {
    0 <= k < s.len() && s[k] == c
}

/// Place `q` of `s` holds a double quote that stands alone between the
/// marks of an option list (`{`, `?`, `}`), white space aside, with a `?`
/// on one side.
pub open spec fn lone_quote(s: Seq<char>, q: int) -> bool {
    let b = skip_ws_back(s, q);
    let f = skip_ws(s, q + 1);
    &&& char_at(s, q, '"')
    &&& char_at(s, b, '?') || char_at(s, b, '{')
    &&& char_at(s, f, '?') || char_at(s, f, '}')
    &&& char_at(s, b, '?') || char_at(s, f, '?')
}

/// A template text that the templating crate parses without panicking:
/// all ASCII (it steps through the text byte by byte), and no lone double
/// quote as an option (`{a?"}` is cut to an empty slice whose start comes
/// after its end).
pub open spec fn safe_template(s: Seq<char>) -> bool {
    forall|i: int| 0 <= i < s.len() ==> (#[trigger] s[i] as u32) < 128 && !lone_quote(s, i)
}

fn skip_ws_exec(v: &Vec<char>, i: usize) -> (k: usize)
    requires
        i <= v.len(),
    ensures
        k == skip_ws(v@, i as int),
        k <= v.len(),
    decreases v.len() - i,
{
    if i >= v.len() {
        v.len()
    } else if unicode_ws(v[i]) {
        skip_ws_exec(v, i + 1)
    } else {
        i
    }
}

fn skip_ws_back_exec(v: &Vec<char>, i: usize) -> (k: Option<usize>)
    requires
        i <= v.len(),
    ensures
        match k {
            Some(j) => j == skip_ws_back(v@, i as int) && j < v.len(),
            None => skip_ws_back(v@, i as int) == -1,
        },
    decreases i,
{
    if i == 0 {
        None
    } else if unicode_ws(v[i - 1]) {
        skip_ws_back_exec(v, i - 1)
    } else {
        Some(i - 1)
    }
}

/// Whether the templating crate parses `text` without panicking (see
/// `safe_template`).
pub fn is_safe_template(text: &str) -> (b: bool)
    ensures
        b == safe_template(text@),
{
    let v = chars_of(text);
    let mut i: usize = 0;
    while i < v.len()
        invariant
            v@ == text@,
            i <= v.len(),
            forall|j: int| 0 <= j < i ==> (#[trigger] v@[j] as u32) < 128 && !lone_quote(v@, j),
        decreases v.len() - i,
    {
        if (v[i] as u32) >= 128 {
            return false;
        }
        if v[i] == '"' {
            let f = skip_ws_exec(&v, i + 1);
            let fq = f < v.len() && v[f] == '?';
            let fc = f < v.len() && v[f] == '}';
            let (bq, bc) = match skip_ws_back_exec(&v, i) {
                Some(b) => (v[b] == '?', v[b] == '{'),
                None => (false, false),
            };
            if (bq || bc) && (fq || fc) && (bq || fq) {
                return false;
            }
        }
        i = i + 1;
    }
    true
}

/// `Template::parse_template` of the templating crate, with its error
/// written out: it succeeds where the text parses, and the template it
/// gives is not described further.
#[verifier::external_body]
fn parse_template(text: &str) -> (r: Result<Template, String>)
    requires
        safe_template(text@),
    ensures
        r is Ok <==> template_parses(text@),
        r matches Err(m) ==> m@ == template_error(text@),
{
    Template::parse_template(text).map_err(|e| e.to_string())
}

/// The first column among the first `n` whose template does not parse.
pub open spec fn first_bad_template(cols: Seq<Column>, n: int) -> Option<int>
    decreases n,
{
    if n <= 0 || n > cols.len() {
        None
    } else {
        match first_bad_template(cols, n - 1) {
            Some(k) => Some(k),
            None => if template_parses(cols[n - 1].template@) { None } else { Some(n - 1) },
        }
    }
}

proof fn lemma_first_bad_stays(cols: Seq<Column>, n: int, m: int)
    requires
        0 <= n <= m <= cols.len(),
        first_bad_template(cols, n) is Some,
    ensures
        first_bad_template(cols, m) == first_bad_template(cols, n),
    decreases m - n,
{
    if m > n {
        lemma_first_bad_stays(cols, n, m - 1);
    }
}

impl Table {
    /// Whether the templating crate parses every column's template without
    /// panicking.
    pub fn templates_are_safe(&self) -> (b: bool)
        ensures
            b == forall|k: int| 0 <= k < self.columns@.len() ==> safe_template(#[trigger] self.columns@[k].template@),
    {
        let mut i: usize = 0;
        while i < self.columns.len()
            invariant
                i <= self.columns.len(),
                forall|k: int| 0 <= k < i ==> safe_template(#[trigger] self.columns@[k].template@),
            decreases self.columns.len() - i,
        {
            if !is_safe_template(self.columns[i].template.as_str()) {
                return false;
            }
            i = i + 1;
        }
        true
    }

    /// The templates of the columns, parsed in order; the error is that of
    /// the first template that does not parse.
    pub fn column_templates(&self) -> (r: Result<Vec<Template>, String>)
        requires
            forall|k: int| 0 <= k < self.columns@.len() ==> safe_template(#[trigger] self.columns@[k].template@),
        ensures
            match first_bad_template(self.columns@, self.columns@.len() as int) {
                Some(k) => r matches Err(m) && m@ == template_error(self.columns@[k].template@),
                None => r matches Ok(v) && v@.len() == self.columns@.len(),
            },
    {
        let mut out: Vec<Template> = Vec::new();
        let mut i: usize = 0;
        while i < self.columns.len()
            invariant
                i <= self.columns.len(),
                first_bad_template(self.columns@, i as int) is None,
                out@.len() == i,
                forall|k: int| 0 <= k < self.columns@.len() ==> safe_template(#[trigger] self.columns@[k].template@),
            decreases self.columns.len() - i,
        {
            match parse_template(self.columns[i].template.as_str()) {
                Ok(t) => out.push(t),
                Err(e) => {
                    proof {
                        lemma_first_bad_stays(self.columns@, i + 1, self.columns@.len() as int);
                    }
                    return Err(e);
                },
            }
            i = i + 1;
        }
        Ok(out)
    }
}

} // verus!
