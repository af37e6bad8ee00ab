//! The tokenizer of task scripts, network files and attribute files.
use vstd::prelude::*;
use crate::tasks::{keyword_in, keyword_of, TaskKeyword};
use crate::parser::{ParseError, ParseErrorType};
use crate::values::{FloatTable, float_lookup, parse_i64, parse_i64_exec, parse_date, parse_time, parse_datetime, date_from_chars, time_from_chars, datetime_from_chars};
use crate::attrs::{Attribute, Val};
use crate::color::{paint_named, paint_rgb, fg_code, has_reset, painted, no_esc, sgr_code, strip_sgr, law_painted_strips, lemma_no_esc_no_reset, rgb_code, nearest_color_code, lemma_rgb_code_sgr, lemma_strip_plain_only, lemma_fg_code_sgr};
use crate::text::{
    alnum, alpha, char_from_u32, chars_of, digit, hex_digit, is_alnum, is_alpha, is_digit,
    is_hex_digit, is_unicode_ws, push_char, substring, unicode_ws, utf8_bytes, char_utf8_len,
    str_byte_len, lemma_utf8_bytes_subrange, utf8_len, string_byte_len, push_str, lemma_utf8_bytes_concat,
};

verus! {

/// Classes of characters that the lexer scans runs of.
#[derive(Clone, Copy, PartialEq, Eq)]
pub enum CharClass {
    /// space or tab
    Blank,
    /// anything but `\n` and `\r`
    NotLineEnd,
    Digit,
    Alpha,
    /// ASCII letters, digits and `_`
    Word,
    Underscore,
    Dash,
    Colon,
    HexDigit,
    /// space, tab, `\r`, `\n`
    MultiSpace,
    /// anything but `"` and `\`
    Literal,
    /// Unicode white space
    UnicodeWs,
}

pub open spec fn in_class(c: char, cls: CharClass) -> bool {
    match cls {
        CharClass::Blank => c == ' ' || c == '\t',
        CharClass::NotLineEnd => c != '\n' && c != '\r',
        CharClass::Digit => is_digit(c),
        CharClass::Alpha => is_alpha(c),
        CharClass::Word => is_alnum(c) || c == '_',
        CharClass::Underscore => c == '_',
        CharClass::Dash => c == '-',
        CharClass::Colon => c == ':',
        CharClass::HexDigit => is_hex_digit(c),
        CharClass::MultiSpace => c == ' ' || c == '\t' || c == '\r' || c == '\n',
        CharClass::Literal => c != '"' && c != '\\',
        CharClass::UnicodeWs => is_unicode_ws(c),
    }
}

fn class_has(c: char, cls: CharClass) -> (b: bool)
    ensures
        b == in_class(c, cls),
{
    match cls {
        CharClass::Blank => c == ' ' || c == '\t',
        CharClass::NotLineEnd => c != '\n' && c != '\r',
        CharClass::Digit => digit(c),
        CharClass::Alpha => alpha(c),
        CharClass::Word => alnum(c) || c == '_',
        CharClass::Underscore => c == '_',
        CharClass::Dash => c == '-',
        CharClass::Colon => c == ':',
        CharClass::HexDigit => hex_digit(c),
        CharClass::MultiSpace => c == ' ' || c == '\t' || c == '\r' || c == '\n',
        CharClass::Literal => c != '"' && c != '\\',
        CharClass::UnicodeWs => unicode_ws(c),
    }
}

/// `s[i] == c` (false outside the sequence).
pub open spec fn at(s: Seq<char>, i: int, c: char) -> bool {
    0 <= i < s.len() && s[i] == c
}

/// End of the longest run of `cls` characters that starts at `i`.
pub open spec fn span(s: Seq<char>, i: int, cls: CharClass) -> int
    decreases s.len() - i,
{
    if 0 <= i < s.len() && in_class(s[i], cls) {
        span(s, i + 1, cls)
    } else {
        i
    }
}

pub proof fn lemma_span(s: Seq<char>, i: int, cls: CharClass)
    requires
        0 <= i <= s.len(),
    ensures
        i <= span(s, i, cls) <= s.len(),
        forall|k: int| i <= k < span(s, i, cls) ==> in_class(#[trigger] s[k], cls),
        span(s, i, cls) < s.len() ==> !in_class(s[span(s, i, cls)], cls),
    decreases s.len() - i,
{
    if i < s.len() && in_class(s[i], cls) {
        lemma_span(s, i + 1, cls);
    }
}

fn span_exec(v: &Vec<char>, i: usize, cls: CharClass) -> (e: usize)
    requires
        i <= v.len(),
    ensures
        e == span(v@, i as int, cls),
        i <= e <= v.len(),
{
    proof {
        lemma_span(v@, i as int, cls);
    }
    let mut j = i;
    while j < v.len() && class_has(v[j], cls)
        invariant
            i <= j <= v.len(),
            span(v@, j as int, cls) == span(v@, i as int, cls),
        decreases v.len() - j,
    {
        j = j + 1;
    }
    j
}

fn at_exec(v: &Vec<char>, i: usize, c: char) -> (b: bool)
    ensures
        b == at(v@, i as int, c),
{
    i < v.len() && v[i] == c
}

// ---------------------------------------------------------------------------
// Lexemes, as spec functions over the character sequence.
// ---------------------------------------------------------------------------

/// Spaces and tabs.
pub open spec fn lex_ws(s: Seq<char>, i: int) -> Option<int> {
    let e = span(s, i, CharClass::Blank);
    if e > i { Some(e) } else { None }
}

/// `\n\r`, `\r\n` or `\n`.
pub open spec fn lex_newline(s: Seq<char>, i: int) -> Option<int> {
    if at(s, i, '\n') && at(s, i + 1, '\r') {
        Some(i + 2)
    } else if at(s, i, '\r') && at(s, i + 1, '\n') {
        Some(i + 2)
    } else if at(s, i, '\n') {
        Some(i + 1)
    } else {
        None
    }
}

/// `#` up to the end of the line.
pub open spec fn lex_comment(s: Seq<char>, i: int) -> Option<int> {
    if at(s, i, '#') { Some(span(s, i + 1, CharClass::NotLineEnd)) } else { None }
}

/// End of a run of digit groups, each group followed by any underscores.
pub open spec fn digits_end(s: Seq<char>, p: int) -> int
    decreases s.len() - p,
{
    let d = span(s, p, CharClass::Digit);
    if 0 <= p <= s.len() && d > p {
        proof {
            lemma_span(s, p, CharClass::Digit);
            lemma_span(s, d, CharClass::Underscore);
        }
        digits_end(s, span(s, d, CharClass::Underscore))
    } else {
        p
    }
}

/// An integer: an optional sign, then digits with optional underscores.
pub open spec fn lex_integer(s: Seq<char>, i: int) -> Option<int> {
    if (at(s, i, '+') || at(s, i, '-')) && digits_end(s, i + 1) > i + 1 {
        Some(digits_end(s, i + 1))
    } else if digits_end(s, i) > i {
        Some(digits_end(s, i))
    } else {
        None
    }
}

/// What the float lexeme gives at a position.
pub enum FloatLex {
    No,
    /// a `.` after an integer without digits after it: the script cannot be tokenized
    Cut(int),
    Yes(int),
}

/// Optional exponent (`e`/`E` then an integer) at `d`.
pub open spec fn exponent_end(s: Seq<char>, d: int) -> Option<int> {
    if (at(s, d, 'e') || at(s, d, 'E')) && lex_integer(s, d + 1) is Some {
        Some(lex_integer(s, d + 1)->0)
    } else {
        None
    }
}

/// A float: an integer then a fraction and an optional exponent, or an
/// integer then an exponent.
pub open spec fn lex_float(s: Seq<char>, i: int) -> FloatLex {
    match lex_integer(s, i) {
        None => FloatLex::No,
        Some(a) => if at(s, a, '.') {
            let d = span(s, a + 1, CharClass::Digit);
            if d == a + 1 {
                FloatLex::Cut(a + 1)
            } else {
                match exponent_end(s, d) {
                    Some(g) => FloatLex::Yes(g),
                    None => FloatLex::Yes(d),
                }
            }
        } else {
            match exponent_end(s, a) {
                Some(g) => FloatLex::Yes(g),
                None => FloatLex::No,
            }
        },
    }
}

/// End of a run of `digits sep+` groups.
pub open spec fn groups_end(s: Seq<char>, p: int, sep: CharClass) -> int
    decreases s.len() - p,
{
    let d = span(s, p, CharClass::Digit);
    let m = span(s, d, sep);
    if 0 <= p <= s.len() && d > p && m > d {
        proof {
            lemma_span(s, p, CharClass::Digit);
            lemma_span(s, d, sep);
        }
        groups_end(s, m, sep)
    } else {
        p
    }
}

/// Digit groups separated by runs of `sep` (`-` for dates, `:` for times).
pub open spec fn lex_grouped(s: Seq<char>, i: int, sep: CharClass) -> Option<int> {
    let g = groups_end(s, i, sep);
    let d = span(s, g, CharClass::Digit);
    if g > i && d > g { Some(d) } else { None }
}

/// A date, then a space or `T`, then a time.
pub open spec fn lex_datetime(s: Seq<char>, i: int) -> Option<int> {
    match lex_grouped(s, i, CharClass::Dash) {
        Some(e) => if (at(s, e, ' ') || at(s, e, 'T')) && lex_grouped(s, e + 1, CharClass::Colon) is Some {
            lex_grouped(s, e + 1, CharClass::Colon)
        } else {
            None
        },
        None => None,
    }
}

/// `s[i..]` starts with `w`.
pub open spec fn starts_with(s: Seq<char>, i: int, w: Seq<char>) -> bool {
    0 <= i && i + w.len() <= s.len() && s.subrange(i, i + w.len()) =~= w
}

pub open spec fn lex_bool(s: Seq<char>, i: int) -> Option<int> {
    if starts_with(s, i, seq!['t', 'r', 'u', 'e']) {
        Some(i + 4)
    } else if starts_with(s, i, seq!['f', 'a', 'l', 's', 'e']) {
        Some(i + 5)
    } else {
        None
    }
}


/// Identifiers: a letter run or `_`, then word runs, each optionally after a `-`.
pub open spec fn var_tail(s: Seq<char>, p: int) -> int
    decreases s.len() - p,
{
    let q = if at(s, p, '-') { p + 1 } else { p };
    let r = span(s, q, CharClass::Word);
    if 0 <= p <= s.len() && r > q {
        proof {
            lemma_span(s, q, CharClass::Word);
        }
        var_tail(s, r)
    } else {
        p
    }
}

pub open spec fn lex_name(s: Seq<char>, i: int) -> Option<int> {
    if 0 <= i < s.len() && is_alpha(s[i]) {
        Some(var_tail(s, span(s, i, CharClass::Alpha)))
    } else if at(s, i, '_') {
        Some(var_tail(s, i + 1))
    } else {
        None
    }
}

/// The spec-level kind of a token; `Str` holds the decoded string value.
pub enum Kind {
    NewLine,
    WhiteSpace,
    Comment,
    Keyword(TaskKeyword),
    AngleStart,
    ParenStart,
    BraceStart,
    BracketStart,
    PathSep,
    Comma,
    Dot,
    And,
    Or,
    Not,
    AngleEnd,
    ParenEnd,
    BraceEnd,
    BracketEnd,
    Variable,
    Function,
    Assignment,
    Bool,
    Str(Seq<char>),
    Integer,
    Float,
    Date,
    Time,
    DateTime,
    Quote,
}

/// A name: a keyword, a function (the name is followed by `(`, or by `.`
/// and a second name followed by `(`), or a variable.
pub open spec fn lex_variable(s: Seq<char>, i: int) -> Option<(Kind, int)> {
    match lex_name(s, i) {
        None => None,
        Some(e) => match keyword_of(s.subrange(i, e)) {
            Some(k) => Some((Kind::Keyword(k), e)),
            None => {
                let t = span(s, e, CharClass::UnicodeWs);
                if at(s, t, '(') {
                    Some((Kind::Function, e))
                } else if at(s, t, '.') {
                    match lex_name(s, t + 1) {
                        None => None,
                        Some(r) => if at(s, span(s, r, CharClass::UnicodeWs), '(') {
                            Some((Kind::Function, r))
                        } else {
                            Some((Kind::Variable, e))
                        },
                    }
                } else {
                    Some((Kind::Variable, e))
                }
            },
        },
    }
}

/// Single-character symbols and `->`.
pub open spec fn lex_symbol(s: Seq<char>, i: int) -> Option<(Kind, int)> {
    if !(0 <= i < s.len()) {
        None
    } else {
        let c = s[i];
        if c == '<' {
            Some((Kind::AngleStart, i + 1))
        } else if c == '>' {
            Some((Kind::AngleEnd, i + 1))
        } else if c == '(' {
            Some((Kind::ParenStart, i + 1))
        } else if c == ')' {
            Some((Kind::ParenEnd, i + 1))
        } else if c == '[' {
            Some((Kind::BracketStart, i + 1))
        } else if c == ']' {
            Some((Kind::BracketEnd, i + 1))
        } else if c == '{' {
            Some((Kind::BraceStart, i + 1))
        } else if c == '}' {
            Some((Kind::BraceEnd, i + 1))
        } else if c == '.' {
            Some((Kind::Dot, i + 1))
        } else if c == ',' {
            Some((Kind::Comma, i + 1))
        } else if c == '-' && at(s, i + 1, '>') {
            Some((Kind::PathSep, i + 2))
        } else if c == '=' {
            Some((Kind::Assignment, i + 1))
        } else if c == '&' {
            Some((Kind::And, i + 1))
        } else if c == '|' {
            Some((Kind::Or, i + 1))
        } else if c == '!' {
            Some((Kind::Not, i + 1))
        } else if c == '"' {
            Some((Kind::Quote, i + 1))
        } else {
            None
        }
    }
}

/// Value of a sequence of hexadecimal digits.
pub open spec fn hex_value(s: Seq<char>) -> nat
    decreases s.len(),
{
    if s.len() == 0 {
        0
    } else {
        hex_value(s.drop_last()) * 16 + hex_digit_value(s.last())
    }
}

pub open spec fn hex_digit_value(c: char) -> nat {
    if is_digit(c) {
        (c as u32 - '0' as u32) as nat
    } else if 'a' <= c && c <= 'f' {
        (c as u32 - 'a' as u32 + 10) as nat
    } else {
        (c as u32 - 'A' as u32 + 10) as nat
    }
}

/// A Unicode scalar value: at most `0x10FFFF` and not a surrogate.
pub open spec fn is_scalar(v: nat) -> bool {
    v <= 0x10FFFF && !(0xD800 <= v <= 0xDFFF)
}

pub open spec fn code_of(c: char) -> nat {
    (c as u32) as nat
}

/// The character whose scalar value is `v`.
pub open spec fn char_with_code(v: nat) -> char {
    choose|c: char| #[trigger] code_of(c) == v
}

/// Number of hex digits (at most six) after `\u{`.
pub open spec fn hex_count(s: Seq<char>, p: int) -> int {
    let e = span(s, p, CharClass::HexDigit);
    if e - p > 6 { 6 } else { e - p }
}

/// The character escaped by `\` followed by `c`, for the one-letter escapes.
pub open spec fn simple_escape(c: char) -> Option<char> {
    if c == 'n' {
        Some('\n')
    } else if c == 'r' {
        Some('\r')
    } else if c == 't' {
        Some('\t')
    } else if c == 'b' {
        Some('\u{08}')
    } else if c == 'f' {
        Some('\u{0C}')
    } else if c == '\\' {
        Some('\\')
    } else if c == '/' {
        Some('/')
    } else if c == '"' {
        Some('"')
    } else {
        None
    }
}

/// A `\u{...}` escape at `i`: its end and the character.
pub open spec fn unicode_escape(s: Seq<char>, i: int) -> Option<(int, char)> {
    let n = hex_count(s, i + 3);
    if at(s, i, '\\') && at(s, i + 1, 'u') && at(s, i + 2, '{') && n >= 1 && at(s, i + 3 + n, '}')
        && is_scalar(hex_value(s.subrange(i + 3, i + 3 + n))) {
        Some((i + 4 + n, char_with_code(hex_value(s.subrange(i + 3, i + 3 + n)))))
    } else {
        None
    }
}

/// One piece of a string literal: a run of plain characters, an escaped
/// character, or `\` followed by white space (which is dropped).
pub open spec fn str_fragment(s: Seq<char>, i: int) -> Option<(int, Seq<char>)> {
    let l = span(s, i, CharClass::Literal);
    if 0 <= i && l > i {
        Some((l, s.subrange(i, l)))
    } else if unicode_escape(s, i) is Some {
        let (e, c) = unicode_escape(s, i)->0;
        Some((e, seq![c]))
    } else if at(s, i, '\\') && 0 <= i + 1 < s.len() && simple_escape(s[i + 1]) is Some {
        Some((i + 2, seq![simple_escape(s[i + 1])->0]))
    } else if at(s, i, '\\') && span(s, i + 1, CharClass::MultiSpace) > i + 1 {
        Some((span(s, i + 1, CharClass::MultiSpace), Seq::empty()))
    } else {
        None
    }
}

pub proof fn lemma_str_fragment(s: Seq<char>, i: int)
    requires
        0 <= i <= s.len(),
        str_fragment(s, i) is Some,
    ensures
        i < (str_fragment(s, i)->0).0 <= s.len(),
{
    lemma_span(s, i, CharClass::Literal);
    if 0 <= i + 1 <= s.len() {
        lemma_span(s, i + 1, CharClass::MultiSpace);
    }
    if i + 3 <= s.len() {
        lemma_span(s, i + 3, CharClass::HexDigit);
    }
}

/// The body of a string literal from `j`: where it ends and its value.
pub open spec fn str_body(s: Seq<char>, j: int) -> (int, Seq<char>)
    decreases s.len() - j,
{
    if 0 <= j <= s.len() && str_fragment(s, j) is Some {
        proof {
            lemma_str_fragment(s, j);
        }
        let (e, v) = str_fragment(s, j)->0;
        let (end, rest) = str_body(s, e);
        (end, v + rest)
    } else {
        (j, Seq::empty())
    }
}

/// A double-quoted string literal: its end and its value.
pub open spec fn lex_string(s: Seq<char>, i: int) -> Option<(int, Seq<char>)> {
    if at(s, i, '"') && at(s, str_body(s, i + 1).0, '"') {
        Some((str_body(s, i + 1).0 + 1, str_body(s, i + 1).1))
    } else {
        None
    }
}

/// One step of the lexer at `i`.
pub enum Step {
    /// no token starts here
    Stop,
    /// the text cannot be tokenized; the error is at the position
    Fail(int),
    Tok(Kind, int),
}

/// The token at `i`: the first lexeme that matches, in this order:
/// white space, newline, comment, string, date-time, date, time, boolean,
/// float, integer, name, symbol.
pub open spec fn lex_at(s: Seq<char>, i: int) -> Step {
    if lex_ws(s, i) is Some {
        Step::Tok(Kind::WhiteSpace, lex_ws(s, i)->0)
    } else if lex_newline(s, i) is Some {
        Step::Tok(Kind::NewLine, lex_newline(s, i)->0)
    } else if lex_comment(s, i) is Some {
        Step::Tok(Kind::Comment, lex_comment(s, i)->0)
    } else if lex_string(s, i) is Some {
        Step::Tok(Kind::Str((lex_string(s, i)->0).1), (lex_string(s, i)->0).0)
    } else if lex_datetime(s, i) is Some {
        Step::Tok(Kind::DateTime, lex_datetime(s, i)->0)
    } else if lex_grouped(s, i, CharClass::Dash) is Some {
        Step::Tok(Kind::Date, lex_grouped(s, i, CharClass::Dash)->0)
    } else if lex_grouped(s, i, CharClass::Colon) is Some {
        Step::Tok(Kind::Time, lex_grouped(s, i, CharClass::Colon)->0)
    } else if lex_bool(s, i) is Some {
        Step::Tok(Kind::Bool, lex_bool(s, i)->0)
    } else {
        match lex_float(s, i) {
            FloatLex::Cut(p) => Step::Fail(p),
            FloatLex::Yes(e) => Step::Tok(Kind::Float, e),
            FloatLex::No => if lex_integer(s, i) is Some {
                Step::Tok(Kind::Integer, lex_integer(s, i)->0)
            } else if lex_variable(s, i) is Some {
                Step::Tok((lex_variable(s, i)->0).0, (lex_variable(s, i)->0).1)
            } else if lex_symbol(s, i) is Some {
                Step::Tok((lex_symbol(s, i)->0).0, (lex_symbol(s, i)->0).1)
            } else {
                Step::Stop
            },
        }
    }
}


// ---------------------------------------------------------------------------
// Bounds of the lexemes.
// ---------------------------------------------------------------------------

pub proof fn lemma_digits_end(s: Seq<char>, p: int)
    requires
        0 <= p <= s.len(),
    ensures
        p <= digits_end(s, p) <= s.len(),
    decreases s.len() - p,
{
    lemma_span(s, p, CharClass::Digit);
    let d = span(s, p, CharClass::Digit);
    if d > p {
        lemma_span(s, d, CharClass::Underscore);
        lemma_digits_end(s, span(s, d, CharClass::Underscore));
    }
}

pub proof fn lemma_groups_end(s: Seq<char>, p: int, sep: CharClass)
    requires
        0 <= p <= s.len(),
    ensures
        p <= groups_end(s, p, sep) <= s.len(),
    decreases s.len() - p,
{
    lemma_span(s, p, CharClass::Digit);
    let d = span(s, p, CharClass::Digit);
    lemma_span(s, d, sep);
    let m = span(s, d, sep);
    if d > p && m > d {
        lemma_groups_end(s, m, sep);
    }
}

pub proof fn lemma_var_tail(s: Seq<char>, p: int)
    requires
        0 <= p <= s.len(),
    ensures
        p <= var_tail(s, p) <= s.len(),
    decreases s.len() - p,
{
    let q = if at(s, p, '-') { p + 1 } else { p };
    lemma_span(s, q, CharClass::Word);
    let r = span(s, q, CharClass::Word);
    if r > q {
        lemma_var_tail(s, r);
    }
}

pub proof fn lemma_lex_name(s: Seq<char>, i: int)
    requires
        0 <= i <= s.len(),
        lex_name(s, i) is Some,
    ensures
        i < lex_name(s, i)->0 <= s.len(),
{
    if 0 <= i < s.len() && is_alpha(s[i]) {
        lemma_span(s, i, CharClass::Alpha);
        lemma_var_tail(s, span(s, i, CharClass::Alpha));
    } else {
        lemma_var_tail(s, i + 1);
    }
}

pub proof fn lemma_integer(s: Seq<char>, i: int)
    requires
        0 <= i <= s.len(),
        lex_integer(s, i) is Some,
    ensures
        i < lex_integer(s, i)->0 <= s.len(),
{
    lemma_digits_end(s, i);
    if i + 1 <= s.len() {
        lemma_digits_end(s, i + 1);
    }
}

pub proof fn lemma_grouped(s: Seq<char>, i: int, sep: CharClass)
    requires
        0 <= i <= s.len(),
        lex_grouped(s, i, sep) is Some,
    ensures
        i < lex_grouped(s, i, sep)->0 <= s.len(),
{
    lemma_groups_end(s, i, sep);
    lemma_span(s, groups_end(s, i, sep), CharClass::Digit);
}

pub proof fn lemma_str_body(s: Seq<char>, j: int)
    requires
        0 <= j <= s.len(),
    ensures
        j <= str_body(s, j).0 <= s.len(),
    decreases s.len() - j,
{
    if str_fragment(s, j) is Some {
        lemma_str_fragment(s, j);
        lemma_str_body(s, (str_fragment(s, j)->0).0);
    }
}

/// Every token consumes at least one character, and stays in the text.
pub proof fn lemma_lex_at(s: Seq<char>, i: int)
    requires
        0 <= i <= s.len(),
    ensures
        lex_at(s, i) matches Step::Tok(_, e) ==> i < e <= s.len(),
        lex_at(s, i) matches Step::Fail(p) ==> i < p <= s.len(),
        i == s.len() ==> lex_at(s, i) is Stop,
{
    lemma_span(s, i, CharClass::Blank);
    if i + 1 <= s.len() {
        lemma_span(s, i + 1, CharClass::NotLineEnd);
        lemma_str_body(s, i + 1);
    }
    if lex_grouped(s, i, CharClass::Dash) is Some {
        lemma_grouped(s, i, CharClass::Dash);
        let e = lex_grouped(s, i, CharClass::Dash)->0;
        if e + 1 <= s.len() && lex_grouped(s, e + 1, CharClass::Colon) is Some {
            lemma_grouped(s, e + 1, CharClass::Colon);
        }
    }
    if lex_grouped(s, i, CharClass::Colon) is Some {
        lemma_grouped(s, i, CharClass::Colon);
    }
    if lex_integer(s, i) is Some {
        lemma_integer(s, i);
        let a = lex_integer(s, i)->0;
        if a + 1 <= s.len() {
            lemma_span(s, a + 1, CharClass::Digit);
            let d = span(s, a + 1, CharClass::Digit);
            if d + 1 <= s.len() && lex_integer(s, d + 1) is Some {
                lemma_integer(s, d + 1);
            }
            if lex_integer(s, a + 1) is Some {
                lemma_integer(s, a + 1);
            }
        }
    }
    if lex_name(s, i) is Some {
        lemma_lex_name(s, i);
        let e = lex_name(s, i)->0;
        lemma_span(s, e, CharClass::UnicodeWs);
        let t = span(s, e, CharClass::UnicodeWs);
        if t + 1 <= s.len() && lex_name(s, t + 1) is Some {
            lemma_lex_name(s, t + 1);
        }
    }
    if i == s.len() {
        lemma_groups_end(s, i, CharClass::Dash);
        lemma_groups_end(s, i, CharClass::Colon);
        lemma_digits_end(s, i);
    }
}

/// A token as the lexer sees it: its kind and its text.
pub struct TokView {
    pub kind: Kind,
    pub text: Seq<char>,
}

/// How tokenizing ended.
pub enum Outcome {
    /// the whole text was read
    Done,
    /// no token starts at this position
    Stopped(int),
    /// a float literal is broken at this position
    Failed(int),
}

/// The tokens of `s` from `i` on, and how tokenizing ends.
pub open spec fn tokenize_from(s: Seq<char>, i: int) -> (Seq<TokView>, Outcome)
    decreases s.len() - i,
{
    if !(0 <= i <= s.len()) {
        (Seq::empty(), Outcome::Stopped(i))
    } else {
        match lex_at(s, i) {
            Step::Stop => (Seq::empty(), if i == s.len() { Outcome::Done } else { Outcome::Stopped(i) }),
            Step::Fail(p) => (Seq::empty(), Outcome::Failed(p)),
            Step::Tok(k, e) => {
                proof {
                    lemma_lex_at(s, i);
                }
                let (rest, o) = tokenize_from(s, e);
                (seq![TokView { kind: k, text: s.subrange(i, e) }] + rest, o)
            },
        }
    }
}

pub open spec fn tokenize(s: Seq<char>) -> (Seq<TokView>, Outcome) {
    tokenize_from(s, 0)
}

/// Concatenating the texts of a sequence of tokens.
pub open spec fn concat_texts(t: Seq<TokView>) -> Seq<char>
    decreases t.len(),
{
    if t.len() == 0 {
        Seq::empty()
    } else {
        t[0].text + concat_texts(t.drop_first())
    }
}


// ---------------------------------------------------------------------------
// Tokens.
// ---------------------------------------------------------------------------

/// The kinds of tokens.
#[derive(Clone, Debug)]
pub enum TaskToken {
    NewLine,
    WhiteSpace,
    Comment,
    Keyword(TaskKeyword),
    /// `<`
    AngleStart,
    /// `(`
    ParenStart,
    /// `{`
    BraceStart,
    /// `[`
    BracketStart,
    /// `->`
    PathSep,
    Comma,
    Dot,
    And,
    Or,
    Not,
    AngleEnd,
    ParenEnd,
    BraceEnd,
    BracketEnd,
    Variable,
    Function,
    Assignment,
    Bool,
    /// a double-quoted string, with its decoded value
    String(String),
    Integer,
    Float,
    Date,
    Time,
    DateTime,
    /// a `"` that does not start a complete string
    Quote,
}

impl View for TaskToken {
    type V = Kind;

    open spec fn view(&self) -> Kind {
        match self {
            TaskToken::NewLine => Kind::NewLine,
            TaskToken::WhiteSpace => Kind::WhiteSpace,
            TaskToken::Comment => Kind::Comment,
            TaskToken::Keyword(k) => Kind::Keyword(*k),
            TaskToken::AngleStart => Kind::AngleStart,
            TaskToken::ParenStart => Kind::ParenStart,
            TaskToken::BraceStart => Kind::BraceStart,
            TaskToken::BracketStart => Kind::BracketStart,
            TaskToken::PathSep => Kind::PathSep,
            TaskToken::Comma => Kind::Comma,
            TaskToken::Dot => Kind::Dot,
            TaskToken::And => Kind::And,
            TaskToken::Or => Kind::Or,
            TaskToken::Not => Kind::Not,
            TaskToken::AngleEnd => Kind::AngleEnd,
            TaskToken::ParenEnd => Kind::ParenEnd,
            TaskToken::BraceEnd => Kind::BraceEnd,
            TaskToken::BracketEnd => Kind::BracketEnd,
            TaskToken::Variable => Kind::Variable,
            TaskToken::Function => Kind::Function,
            TaskToken::Assignment => Kind::Assignment,
            TaskToken::Bool => Kind::Bool,
            TaskToken::String(v) => Kind::Str(v@),
            TaskToken::Integer => Kind::Integer,
            TaskToken::Float => Kind::Float,
            TaskToken::Date => Kind::Date,
            TaskToken::Time => Kind::Time,
            TaskToken::DateTime => Kind::DateTime,
            TaskToken::Quote => Kind::Quote,
        }
    }
}

/// A token: its kind and the text it was read from.
#[derive(Clone, Debug)]
pub struct Token {
    pub ty: TaskToken,
    pub content: String,
}

impl View for Token {
    type V = TokView;

    open spec fn view(&self) -> TokView {
        TokView { kind: self.ty@, text: self.content@ }
    }
}

pub open spec fn token_views(t: Seq<Token>) -> Seq<TokView> {
    t.map_values(|x: Token| x@)
}

impl Token {
    pub fn new(ty: TaskToken, content: String) -> (t: Self)
        ensures
            t.ty == ty,
            t.content == content,
    {
        Self { ty, content }
    }
}

// ---------------------------------------------------------------------------
// Executable lexemes.
// ---------------------------------------------------------------------------

fn lex_ws_exec(v: &Vec<char>, i: usize) -> (r: Option<usize>)
    requires
        i <= v.len(),
    ensures
        r == (match lex_ws(v@, i as int) { Some(e) => Some(e as usize), None => None::<usize> }),
{
    let e = span_exec(v, i, CharClass::Blank);
    if e > i { Some(e) } else { None }
}

fn lex_newline_exec(v: &Vec<char>, i: usize) -> (r: Option<usize>)
    requires
        i <= v.len(),
    ensures
        r == (match lex_newline(v@, i as int) { Some(e) => Some(e as usize), None => None::<usize> }),
{
    if at_exec(v, i, '\n') && at_exec(v, i + 1, '\r') {
        Some(i + 2)
    } else if at_exec(v, i, '\r') && at_exec(v, i + 1, '\n') {
        Some(i + 2)
    } else if at_exec(v, i, '\n') {
        Some(i + 1)
    } else {
        None
    }
}

fn lex_comment_exec(v: &Vec<char>, i: usize) -> (r: Option<usize>)
    requires
        i <= v.len(),
    ensures
        r == (match lex_comment(v@, i as int) { Some(e) => Some(e as usize), None => None::<usize> }),
{
    if at_exec(v, i, '#') { Some(span_exec(v, i + 1, CharClass::NotLineEnd)) } else { None }
}

fn digits_end_exec(v: &Vec<char>, p: usize) -> (e: usize)
    requires
        p <= v.len(),
    ensures
        e == digits_end(v@, p as int),
        p <= e <= v.len(),
{
    let mut q = p;
    proof {
        lemma_digits_end(v@, p as int);
    }
    loop
        invariant
            p <= q <= v.len(),
            digits_end(v@, q as int) == digits_end(v@, p as int),
        decreases v.len() - q,
    {
        let d = span_exec(v, q, CharClass::Digit);
        if d > q {
            q = span_exec(v, d, CharClass::Underscore);
        } else {
            return q;
        }
    }
}

fn lex_integer_exec(v: &Vec<char>, i: usize) -> (r: Option<usize>)
    requires
        i <= v.len(),
    ensures
        r == (match lex_integer(v@, i as int) { Some(e) => Some(e as usize), None => None::<usize> }),
{
    if (at_exec(v, i, '+') || at_exec(v, i, '-')) && digits_end_exec(v, i + 1) > i + 1 {
        Some(digits_end_exec(v, i + 1))
    } else if digits_end_exec(v, i) > i {
        Some(digits_end_exec(v, i))
    } else {
        None
    }
}

enum FloatExec {
    No,
    Cut(usize),
    Yes(usize),
}

fn exponent_end_exec(v: &Vec<char>, d: usize) -> (r: Option<usize>)
    requires
        d <= v.len(),
    ensures
        r == (match exponent_end(v@, d as int) { Some(e) => Some(e as usize), None => None::<usize> }),
        r matches Some(e) ==> d < e <= v.len(),
        exponent_end(v@, d as int) matches Some(e) ==> d < e <= v.len(),
{
    if (at_exec(v, d, 'e') || at_exec(v, d, 'E')) {
        let r = lex_integer_exec(v, d + 1);
        proof {
            if r is Some {
                lemma_integer(v@, d + 1);
            }
        }
        r
    } else {
        None
    }
}

fn lex_float_exec(v: &Vec<char>, i: usize) -> (r: FloatExec)
    requires
        i <= v.len(),
    ensures
        match (r, lex_float(v@, i as int)) {
            (FloatExec::No, FloatLex::No) => true,
            (FloatExec::Cut(a), FloatLex::Cut(b)) => a == b,
            (FloatExec::Yes(a), FloatLex::Yes(b)) => a == b,
            _ => false,
        },
{
    match lex_integer_exec(v, i) {
        None => FloatExec::No,
        Some(a) => {
            proof {
                lemma_integer(v@, i as int);
            }
            if at_exec(v, a, '.') {
                let d = span_exec(v, a + 1, CharClass::Digit);
                if d == a + 1 {
                    FloatExec::Cut(a + 1)
                } else {
                    match exponent_end_exec(v, d) {
                        Some(g) => FloatExec::Yes(g),
                        None => FloatExec::Yes(d),
                    }
                }
            } else {
                match exponent_end_exec(v, a) {
                    Some(g) => FloatExec::Yes(g),
                    None => FloatExec::No,
                }
            }
        },
    }
}

fn groups_end_exec(v: &Vec<char>, p: usize, sep: CharClass) -> (e: usize)
    requires
        p <= v.len(),
    ensures
        e == groups_end(v@, p as int, sep),
        p <= e <= v.len(),
{
    let mut q = p;
    proof {
        lemma_groups_end(v@, p as int, sep);
    }
    loop
        invariant
            p <= q <= v.len(),
            groups_end(v@, q as int, sep) == groups_end(v@, p as int, sep),
        decreases v.len() - q,
    {
        let d = span_exec(v, q, CharClass::Digit);
        let m = span_exec(v, d, sep);
        if d > q && m > d {
            q = m;
        } else {
            return q;
        }
    }
}

fn lex_grouped_exec(v: &Vec<char>, i: usize, sep: CharClass) -> (r: Option<usize>)
    requires
        i <= v.len(),
    ensures
        r == (match lex_grouped(v@, i as int, sep) { Some(e) => Some(e as usize), None => None::<usize> }),
{
    let g = groups_end_exec(v, i, sep);
    let d = span_exec(v, g, CharClass::Digit);
    if g > i && d > g { Some(d) } else { None }
}

fn lex_datetime_exec(v: &Vec<char>, i: usize) -> (r: Option<usize>)
    requires
        i <= v.len(),
    ensures
        r == (match lex_datetime(v@, i as int) { Some(e) => Some(e as usize), None => None::<usize> }),
{
    match lex_grouped_exec(v, i, CharClass::Dash) {
        Some(e) => {
            proof {
                lemma_grouped(v@, i as int, CharClass::Dash);
            }
            if at_exec(v, e, ' ') || at_exec(v, e, 'T') {
                lex_grouped_exec(v, e + 1, CharClass::Colon)
            } else {
                None
            }
        },
        None => None,
    }
}

fn starts_with_exec(v: &Vec<char>, i: usize, w: &[char]) -> (b: bool)
    requires
        i <= v.len(),
    ensures
        b == starts_with(v@, i as int, w@),
{
    if w.len() > v.len() - i {
        return false;
    }
    let mut k: usize = 0;
    while k < w.len()
        invariant
            i + w.len() <= v.len(),
            k <= w.len(),
            forall|j: int| 0 <= j < k ==> v@[i + j] == w@[j],
        decreases w.len() - k,
    {
        if v[i + k] != w[k] {
            assert(v@.subrange(i as int, i + w.len())[k as int] != w@[k as int]);
            return false;
        }
        k = k + 1;
    }
    assert(v@.subrange(i as int, i + w.len()) =~= w@);
    true
}

fn lex_bool_exec(v: &Vec<char>, i: usize) -> (r: Option<usize>)
    requires
        i <= v.len(),
    ensures
        r == (match lex_bool(v@, i as int) { Some(e) => Some(e as usize), None => None::<usize> }),
{
    let t = ['t', 'r', 'u', 'e'];
    let f = ['f', 'a', 'l', 's', 'e'];
    assert(t@ =~= seq!['t', 'r', 'u', 'e']);
    assert(f@ =~= seq!['f', 'a', 'l', 's', 'e']);
    if starts_with_exec(v, i, &t) {
        Some(i + 4)
    } else if starts_with_exec(v, i, &f) {
        Some(i + 5)
    } else {
        None
    }
}

fn var_tail_exec(v: &Vec<char>, p: usize) -> (e: usize)
    requires
        p <= v.len(),
    ensures
        e == var_tail(v@, p as int),
        p <= e <= v.len(),
{
    let mut q = p;
    proof {
        lemma_var_tail(v@, p as int);
    }
    loop
        invariant
            p <= q <= v.len(),
            var_tail(v@, q as int) == var_tail(v@, p as int),
        decreases v.len() - q,
    {
        let a = if at_exec(v, q, '-') { q + 1 } else { q };
        let r = span_exec(v, a, CharClass::Word);
        if r > a {
            q = r;
        } else {
            return q;
        }
    }
}

fn lex_name_exec(v: &Vec<char>, i: usize) -> (r: Option<usize>)
    requires
        i <= v.len(),
    ensures
        r == (match lex_name(v@, i as int) { Some(e) => Some(e as usize), None => None::<usize> }),
{
    if i < v.len() && alpha(v[i]) {
        let a = span_exec(v, i, CharClass::Alpha);
        Some(var_tail_exec(v, a))
    } else if at_exec(v, i, '_') {
        Some(var_tail_exec(v, i + 1))
    } else {
        None
    }
}

fn lex_variable_exec(v: &Vec<char>, i: usize) -> (r: Option<(TaskToken, usize)>)
    requires
        i <= v.len(),
    ensures
        match (r, lex_variable(v@, i as int)) {
            (None, None) => true,
            (Some((t, e)), Some((k, f))) => t@ == k && e == f,
            _ => false,
        },
{
    match lex_name_exec(v, i) {
        None => None,
        Some(e) => {
            proof {
                lemma_lex_name(v@, i as int);
            }
            match keyword_in(v, i, e) {
                Some(k) => Some((TaskToken::Keyword(k), e)),
                None => {
                    let t = span_exec(v, e, CharClass::UnicodeWs);
                    if at_exec(v, t, '(') {
                        Some((TaskToken::Function, e))
                    } else if at_exec(v, t, '.') {
                        match lex_name_exec(v, t + 1) {
                            None => None,
                            Some(r) => {
                                proof {
                                    lemma_lex_name(v@, t + 1);
                                }
                                if at_exec(v, span_exec(v, r, CharClass::UnicodeWs), '(') {
                                    Some((TaskToken::Function, r))
                                } else {
                                    Some((TaskToken::Variable, e))
                                }
                            },
                        }
                    } else {
                        Some((TaskToken::Variable, e))
                    }
                },
            }
        },
    }
}

fn lex_symbol_exec(v: &Vec<char>, i: usize) -> (r: Option<(TaskToken, usize)>)
    requires
        i <= v.len(),
    ensures
        match (r, lex_symbol(v@, i as int)) {
            (None, None) => true,
            (Some((t, e)), Some((k, f))) => t@ == k && e == f,
            _ => false,
        },
{
    if i >= v.len() {
        return None;
    }
    let c = v[i];
    if c == '<' {
        Some((TaskToken::AngleStart, i + 1))
    } else if c == '>' {
        Some((TaskToken::AngleEnd, i + 1))
    } else if c == '(' {
        Some((TaskToken::ParenStart, i + 1))
    } else if c == ')' {
        Some((TaskToken::ParenEnd, i + 1))
    } else if c == '[' {
        Some((TaskToken::BracketStart, i + 1))
    } else if c == ']' {
        Some((TaskToken::BracketEnd, i + 1))
    } else if c == '{' {
        Some((TaskToken::BraceStart, i + 1))
    } else if c == '}' {
        Some((TaskToken::BraceEnd, i + 1))
    } else if c == '.' {
        Some((TaskToken::Dot, i + 1))
    } else if c == ',' {
        Some((TaskToken::Comma, i + 1))
    } else if c == '-' && at_exec(v, i + 1, '>') {
        Some((TaskToken::PathSep, i + 2))
    } else if c == '=' {
        Some((TaskToken::Assignment, i + 1))
    } else if c == '&' {
        Some((TaskToken::And, i + 1))
    } else if c == '|' {
        Some((TaskToken::Or, i + 1))
    } else if c == '!' {
        Some((TaskToken::Not, i + 1))
    } else if c == '"' {
        Some((TaskToken::Quote, i + 1))
    } else {
        None
    }
}


pub open spec fn pow16(n: nat) -> nat
    decreases n,
{
    if n == 0 { 1 } else { 16 * pow16((n - 1) as nat) }
}

proof fn lemma_pow16_mono(a: nat, b: nat)
    requires
        a <= b,
    ensures
        pow16(a) <= pow16(b),
    decreases b,
{
    if a < b {
        lemma_pow16_mono(a, (b - 1) as nat);
    }
}

fn hex_digit_value_exec(c: char) -> (d: u32)
    requires
        is_hex_digit(c),
    ensures
        d == hex_digit_value(c),
        d < 16,
{
    if digit(c) {
        c as u32 - '0' as u32
    } else if 'a' <= c && c <= 'f' {
        c as u32 - 'a' as u32 + 10
    } else {
        c as u32 - 'A' as u32 + 10
    }
}

fn unicode_escape_exec(v: &Vec<char>, i: usize) -> (r: Option<(usize, char)>)
    requires
        i <= v.len(),
    ensures
        match (r, unicode_escape(v@, i as int)) {
            (None, None) => true,
            (Some((e, c)), Some((f, d))) => e == f && c == d,
            _ => false,
        },
{
    if !(at_exec(v, i, '\\') && at_exec(v, i + 1, 'u') && at_exec(v, i + 2, '{')) {
        return None;
    }
    let p = i + 3;
    let h = span_exec(v, p, CharClass::HexDigit);
    proof {
        lemma_span(v@, p as int, CharClass::HexDigit);
    }
    let n = if h - p > 6 { 6 } else { h - p };
    if n < 1 || !at_exec(v, p + n, '}') {
        return None;
    }
    let mut val: u32 = 0;
    let mut k = p;
    proof {
        assert(v@.subrange(p as int, p as int) =~= Seq::<char>::empty());
    }
    while k < p + n
        invariant
            p <= k <= p + n,
            n <= 6,
            p + n <= h <= v.len(),
            forall|j: int| p <= j < h ==> is_hex_digit(#[trigger] v@[j]),
            val == hex_value(v@.subrange(p as int, k as int)),
            val < pow16((k - p) as nat),
        decreases p + n - k,
    {
        let d = hex_digit_value_exec(v[k]);
        proof {
            lemma_pow16_mono((k + 1 - p) as nat, 6);
            reveal_with_fuel(pow16, 7);
            assert(v@.subrange(p as int, k + 1).drop_last() =~= v@.subrange(p as int, k as int));
        }
        val = val * 16 + d;
        k = k + 1;
    }
    match char_from_u32(val) {
        Some(c) => {
            proof {
                assert(code_of(c) == hex_value(v@.subrange(p as int, (p + n) as int)));
                let w = char_with_code(hex_value(v@.subrange(p as int, (p + n) as int)));
                assert(code_of(w) == code_of(c));
                vstd::utf8::char_u32_cast(c, c as u32);
                vstd::utf8::char_u32_cast(w, w as u32);
                assert(c == w);
            }
            Some((p + n + 1, c))
        },
        None => None,
    }
}

fn simple_escape_exec(c: char) -> (r: Option<char>)
    ensures
        r == simple_escape(c),
{
    if c == 'n' {
        Some('\n')
    } else if c == 'r' {
        Some('\r')
    } else if c == 't' {
        Some('\t')
    } else if c == 'b' {
        Some('\u{08}')
    } else if c == 'f' {
        Some('\u{0C}')
    } else if c == '\\' {
        Some('\\')
    } else if c == '/' {
        Some('/')
    } else if c == '"' {
        Some('"')
    } else {
        None
    }
}

/// Reads one string fragment at `i`, appending its value to `acc`.
fn str_fragment_exec(v: &Vec<char>, i: usize, acc: &mut String) -> (r: Option<usize>)
    requires
        i <= v.len(),
    ensures
        match (r, str_fragment(v@, i as int)) {
            (None, None) => final(acc)@ == old(acc)@,
            (Some(e), Some((f, w))) => e == f && final(acc)@ == old(acc)@ + w,
            _ => false,
        },
{
    let l = span_exec(v, i, CharClass::Literal);
    if l > i {
        let mut k = i;
        let ghost a0 = acc@;
        while k < l
            invariant
                i <= k <= l <= v.len(),
                acc@ == a0 + v@.subrange(i as int, k as int),
            decreases l - k,
        {
            push_char(acc, v[k]);
            assert(v@.subrange(i as int, k + 1) =~= v@.subrange(i as int, k as int).push(v@[k as int]));
            k = k + 1;
        }
        return Some(l);
    }
    match unicode_escape_exec(v, i) {
        Some((e, c)) => {
            push_char(acc, c);
            assert(old(acc)@.push(c) =~= old(acc)@ + seq![c]);
            return Some(e);
        },
        None => {},
    }
    if at_exec(v, i, '\\') && i + 1 < v.len() {
        match simple_escape_exec(v[i + 1]) {
            Some(c) => {
                push_char(acc, c);
                assert(old(acc)@.push(c) =~= old(acc)@ + seq![c]);
                return Some(i + 2);
            },
            None => {},
        }
    }
    if at_exec(v, i, '\\') {
        let m = span_exec(v, i + 1, CharClass::MultiSpace);
        if m > i + 1 {
            assert(old(acc)@ =~= old(acc)@ + Seq::<char>::empty());
            return Some(m);
        }
    }
    None
}

fn lex_string_exec(v: &Vec<char>, i: usize) -> (r: Option<(usize, String)>)
    requires
        i <= v.len(),
    ensures
        match (r, lex_string(v@, i as int)) {
            (None, None) => true,
            (Some((e, val)), Some((f, w))) => e == f && val@ == w,
            _ => false,
        },
{
    if !at_exec(v, i, '"') {
        return None;
    }
    let mut acc = String::new();
    let mut j = i + 1;
    proof {
        lemma_str_body(v@, (i + 1) as int);
    }
    loop
        invariant
            i + 1 <= j <= v.len(),
            str_body(v@, j as int).0 == str_body(v@, (i + 1) as int).0,
            acc@ + str_body(v@, j as int).1 == str_body(v@, (i + 1) as int).1,
        ensures
            i + 1 <= j <= v.len(),
            str_body(v@, (i + 1) as int).0 == j,
            acc@ == str_body(v@, (i + 1) as int).1,
        decreases v.len() - j,
    {
        let ghost before = acc@;
        match str_fragment_exec(v, j, &mut acc) {
            Some(e) => {
                proof {
                    lemma_str_fragment(v@, j as int);
                    assert(before + (str_fragment(v@, j as int)->0).1 + str_body(v@, e as int).1
                        =~= before + ((str_fragment(v@, j as int)->0).1 + str_body(v@, e as int).1));
                }
                j = e;
            },
            None => {
                assert(acc@ =~= acc@ + str_body(v@, j as int).1);
                break;
            },
        }
    }
    if at_exec(v, j, '"') {
        Some((j + 1, acc))
    } else {
        None
    }
}


enum StepExec {
    Stop,
    Fail(usize),
    Tok(TaskToken, usize),
}

fn lex_at_exec(v: &Vec<char>, i: usize) -> (r: StepExec)
    requires
        i <= v.len(),
    ensures
        match (r, lex_at(v@, i as int)) {
            (StepExec::Stop, Step::Stop) => true,
            (StepExec::Fail(a), Step::Fail(b)) => a == b,
            (StepExec::Tok(t, e), Step::Tok(k, f)) => t@ == k && e == f,
            _ => false,
        },
{
    proof {
        lemma_lex_at(v@, i as int);
    }
    if let Some(e) = lex_ws_exec(v, i) {
        return StepExec::Tok(TaskToken::WhiteSpace, e);
    }
    if let Some(e) = lex_newline_exec(v, i) {
        return StepExec::Tok(TaskToken::NewLine, e);
    }
    if let Some(e) = lex_comment_exec(v, i) {
        return StepExec::Tok(TaskToken::Comment, e);
    }
    if let Some((e, val)) = lex_string_exec(v, i) {
        return StepExec::Tok(TaskToken::String(val), e);
    }
    if let Some(e) = lex_datetime_exec(v, i) {
        return StepExec::Tok(TaskToken::DateTime, e);
    }
    if let Some(e) = lex_grouped_exec(v, i, CharClass::Dash) {
        return StepExec::Tok(TaskToken::Date, e);
    }
    if let Some(e) = lex_grouped_exec(v, i, CharClass::Colon) {
        return StepExec::Tok(TaskToken::Time, e);
    }
    if let Some(e) = lex_bool_exec(v, i) {
        return StepExec::Tok(TaskToken::Bool, e);
    }
    match lex_float_exec(v, i) {
        FloatExec::Cut(p) => StepExec::Fail(p),
        FloatExec::Yes(e) => StepExec::Tok(TaskToken::Float, e),
        FloatExec::No => {
            if let Some(e) = lex_integer_exec(v, i) {
                StepExec::Tok(TaskToken::Integer, e)
            } else if let Some((t, e)) = lex_variable_exec(v, i) {
                StepExec::Tok(t, e)
            } else if let Some((t, e)) = lex_symbol_exec(v, i) {
                StepExec::Tok(t, e)
            } else {
                StepExec::Stop
            }
        },
    }
}

// ---------------------------------------------------------------------------
// Positions of errors.
// ---------------------------------------------------------------------------

/// Number of `\n` in `s`.
pub open spec fn count_newlines(s: Seq<char>) -> nat
    decreases s.len(),
{
    if s.len() == 0 {
        0
    } else {
        count_newlines(s.drop_last()) + if s.last() == '\n' { 1nat } else { 0nat }
    }
}

/// Start of the line that holds position `p`.
pub open spec fn line_start(s: Seq<char>, p: int) -> int
    decreases p,
{
    if p <= 0 {
        0
    } else if s[p - 1] == '\n' {
        p
    } else {
        line_start(s, p - 1)
    }
}

/// End of the line that holds position `p` (the next `\n`, or the end).
pub open spec fn line_end(s: Seq<char>, p: int) -> int
    decreases s.len() - p,
{
    if p >= s.len() {
        s.len() as int
    } else if s[p] == '\n' {
        p
    } else {
        line_end(s, p + 1)
    }
}

/// The text of the line that holds `p`, without its line ending (`\n`, or
/// `\r\n`), as `str::lines` gives it.
pub open spec fn line_text(s: Seq<char>, p: int) -> Seq<char> {
    let ls = line_start(s, p);
    let le = line_end(s, p);
    if le < s.len() && le > ls && s[le - 1] == '\r' {
        s.subrange(ls, le - 1)
    } else {
        s.subrange(ls, le)
    }
}

/// The 1-based column of `p` in its line, counted in bytes.
pub open spec fn column_of(s: Seq<char>, p: int) -> int {
    (utf8_bytes(s.subrange(line_start(s, p), p)) + 1) as int
}

proof fn lemma_line_start(s: Seq<char>, p: int)
    requires
        0 <= p <= s.len(),
    ensures
        0 <= line_start(s, p) <= p,
    decreases p,
{
    if p > 0 && s[p - 1] != '\n' {
        lemma_line_start(s, p - 1);
    }
}

proof fn lemma_line_end(s: Seq<char>, p: int)
    requires
        0 <= p <= s.len(),
    ensures
        p <= line_end(s, p) <= s.len(),
    decreases s.len() - p,
{
    if p < s.len() && s[p] != '\n' {
        lemma_line_end(s, p + 1);
    }
}

/// Where a tokenizing error happened: the 0-based line, the 1-based column
/// in bytes, and the text of that line.
#[derive(Clone, Debug)]
pub struct TokenError {
    pub line: usize,
    pub col: usize,
    pub linestr: String,
}

impl TokenError {
    /// The error in one line: `TokenError: Error at line L col C`.
    pub fn to_string(&self) -> (s: String)
        ensures
            s@ == "TokenError: Error at line "@ + crate::text::decimal(self.line as nat) + " col "@
                + crate::text::decimal(self.col as nat),
    {
        let mut s = crate::text::owned("TokenError: Error at line ");
        crate::text::push_decimal(&mut s, self.line as u64);
        push_str(&mut s, " col ");
        crate::text::push_decimal(&mut s, self.col as u64);
        s
    }
}

fn error_at(v: &Vec<char>, p: usize, total: usize) -> (e: TokenError)
    requires
        p <= v.len(),
        total == utf8_bytes(v@),
        total <= isize::MAX,
    ensures
        e.line == count_newlines(v@.subrange(0, p as int)),
        e.col == column_of(v@, p as int),
        e.linestr@ == line_text(v@, p as int),
{
    let mut line: usize = 0;
    let mut ls: usize = 0;
    let mut k: usize = 0;
    while k < p
        invariant
            k <= p <= v.len(),
            ls <= k,
            line <= k,
            line == count_newlines(v@.subrange(0, k as int)),
            ls == line_start(v@, k as int),
        decreases p - k,
    {
        assert(v@.subrange(0, k + 1).drop_last() =~= v@.subrange(0, k as int));
        if v[k] == '\n' {
            line = line + 1;
            ls = k + 1;
        }
        k = k + 1;
    }
    let mut le = p;
    proof {
        lemma_line_end(v@, p as int);
    }
    while le < v.len() && v[le] != '\n'
        invariant
            p <= le <= v.len(),
            line_end(v@, le as int) == line_end(v@, p as int),
        decreases v.len() - le,
    {
        le = le + 1;
    }
    let mut bytes: usize = 0;
    let mut j = ls;
    proof {
        lemma_utf8_bytes_subrange(v@, ls as int, p as int);
        assert(v@.subrange(ls as int, ls as int) =~= Seq::<char>::empty());
    }
    while j < p
        invariant
            ls <= j <= p <= v.len(),
            bytes == utf8_bytes(v@.subrange(ls as int, j as int)),
            utf8_bytes(v@.subrange(ls as int, p as int)) <= total,
            total <= isize::MAX,
        decreases p - j,
    {
        proof {
            assert(v@.subrange(ls as int, j + 1).drop_last() =~= v@.subrange(ls as int, j as int));
            lemma_utf8_bytes_subrange(v@.subrange(ls as int, p as int), 0, (j + 1 - ls) as int);
            assert(v@.subrange(ls as int, p as int).subrange(0, (j + 1 - ls) as int) =~= v@.subrange(ls as int, j + 1));
        }
        bytes = bytes + char_utf8_len(v[j]);
        j = j + 1;
    }
    let linestr = if le < v.len() && le > ls && v[le - 1] == '\r' {
        substring(v, ls, le - 1)
    } else {
        substring(v, ls, le)
    };
    TokenError { line, col: bytes + 1, linestr }
}

/// Tokenizes a text. `Ok` holds the tokens, which spell the whole text;
/// `Err` tells where no token could be read, or where a float literal
/// breaks off after its `.`.
pub fn get_tokens(txt: &str) -> (r: Result<Vec<Token>, TokenError>)
    ensures
        (r is Ok) <==> (tokenize(txt@).1 is Done),
        r matches Ok(t) ==> token_views(t@) == tokenize(txt@).0,
        r matches Err(e) ==> match tokenize(txt@).1 {
            Outcome::Stopped(p) => e.line == count_newlines(txt@.subrange(0, p)) && e.col == column_of(txt@, p)
                && e.linestr@ == line_text(txt@, p),
            Outcome::Failed(p) => e.line == count_newlines(txt@.subrange(0, p)) && e.col == column_of(txt@, p)
                && e.linestr@ == line_text(txt@, p),
            Outcome::Done => false,
        },
{
    let v = chars_of(txt);
    let total = str_byte_len(txt);
    let mut tokens: Vec<Token> = Vec::new();
    let mut i: usize = 0;
    loop
        invariant
            i <= v.len(),
            v@ == txt@,
            total == utf8_bytes(v@),
            total <= isize::MAX,
            token_views(tokens@) + tokenize_from(v@, i as int).0 == tokenize(v@).0,
            tokenize_from(v@, i as int).1 == tokenize(v@).1,
        decreases v.len() - i,
    {
        proof {
            lemma_lex_at(v@, i as int);
        }
        match lex_at_exec(&v, i) {
            StepExec::Stop => {
                if i == v.len() {
                    assert(token_views(tokens@) =~= tokenize(v@).0);
                    return Ok(tokens);
                } else {
                    return Err(error_at(&v, i, total));
                }
            },
            StepExec::Fail(p) => {
                return Err(error_at(&v, p, total));
            },
            StepExec::Tok(t, e) => {
                let content = substring(&v, i, e);
                let tok = Token { ty: t, content };
                let ghost old_tokens = tokens@;
                tokens.push(tok);
                proof {
                    assert(token_views(tokens@) =~= token_views(old_tokens).push(tok@));
                    let (rest, o) = tokenize_from(v@, e as int);
                    assert(tokenize_from(v@, i as int).0 =~= seq![tok@] + rest);
                    assert(token_views(tokens@) + rest =~= token_views(old_tokens) + (seq![tok@] + rest));
                }
                i = e;
            },
        }
    }
}


/// Tokens always spell the text they were read from.
pub proof fn lemma_tokens_spell_text(s: Seq<char>, i: int)
    requires
        0 <= i <= s.len(),
        tokenize_from(s, i).1 is Done,
    ensures
        concat_texts(tokenize_from(s, i).0) =~= s.subrange(i, s.len() as int),
    decreases s.len() - i,
{
    lemma_lex_at(s, i);
    match lex_at(s, i) {
        Step::Tok(k, e) => {
            lemma_tokens_spell_text(s, e);
            let t = tokenize_from(s, i).0;
            assert(t.drop_first() =~= tokenize_from(s, e).0);
            assert(s.subrange(i, s.len() as int) =~= s.subrange(i, e) + s.subrange(e, s.len() as int));
        },
        _ => {},
    }
}

/// The contents of the tokens of a text, joined, give back the text.
pub proof fn law_tokens_spell_text(s: Seq<char>)
    requires
        tokenize(s).1 is Done,
    ensures
        concat_texts(tokenize(s).0) =~= s,
{
    lemma_tokens_spell_text(s, 0);
    assert(s.subrange(0, s.len() as int) =~= s);
}

// ---------------------------------------------------------------------------
// Token kinds compared, coloring.
// ---------------------------------------------------------------------------

pub open spec fn kind_tag(k: Kind) -> u8 {
    match k {
        Kind::NewLine => 0,
        Kind::WhiteSpace => 1,
        Kind::Comment => 2,
        Kind::Keyword(_) => 3,
        Kind::AngleStart => 4,
        Kind::ParenStart => 5,
        Kind::BraceStart => 6,
        Kind::BracketStart => 7,
        Kind::PathSep => 8,
        Kind::Comma => 9,
        Kind::Dot => 10,
        Kind::And => 11,
        Kind::Or => 12,
        Kind::Not => 13,
        Kind::AngleEnd => 14,
        Kind::ParenEnd => 15,
        Kind::BraceEnd => 16,
        Kind::BracketEnd => 17,
        Kind::Variable => 18,
        Kind::Function => 19,
        Kind::Assignment => 20,
        Kind::Bool => 21,
        Kind::Str(_) => 22,
        Kind::Integer => 23,
        Kind::Float => 24,
        Kind::Date => 25,
        Kind::Time => 26,
        Kind::DateTime => 27,
        Kind::Quote => 28,
    }
}

/// The color a token kind is highlighted with.
pub open spec fn color_of(k: Kind) -> Seq<char> {
    let t = kind_tag(k);
    if t <= 1 {
        seq!['w', 'h', 'i', 't', 'e']
    } else if t == 2 {
        seq!['g', 'r', 'a', 'y']
    } else if t == 3 || t == 28 {
        seq!['r', 'e', 'd']
    } else if t == 11 || t == 12 || t == 13 || t == 21 || t == 22 || t == 23 || t == 24 {
        seq!['y', 'e', 'l', 'l', 'o', 'w']
    } else if t == 18 {
        seq!['g', 'r', 'e', 'e', 'n']
    } else if t == 19 {
        seq!['m', 'a', 'g', 'e', 'n', 't', 'a']
    } else if t == 25 || t == 26 || t == 27 {
        seq!['c', 'y', 'a', 'n']
    } else {
        seq!['b', 'l', 'u', 'e']
    }
}

impl TaskToken {
    pub fn tag(&self) -> (n: u8)
        ensures
            n == kind_tag(self@),
    {
        match self {
            TaskToken::NewLine => 0,
            TaskToken::WhiteSpace => 1,
            TaskToken::Comment => 2,
            TaskToken::Keyword(_) => 3,
            TaskToken::AngleStart => 4,
            TaskToken::ParenStart => 5,
            TaskToken::BraceStart => 6,
            TaskToken::BracketStart => 7,
            TaskToken::PathSep => 8,
            TaskToken::Comma => 9,
            TaskToken::Dot => 10,
            TaskToken::And => 11,
            TaskToken::Or => 12,
            TaskToken::Not => 13,
            TaskToken::AngleEnd => 14,
            TaskToken::ParenEnd => 15,
            TaskToken::BraceEnd => 16,
            TaskToken::BracketEnd => 17,
            TaskToken::Variable => 18,
            TaskToken::Function => 19,
            TaskToken::Assignment => 20,
            TaskToken::Bool => 21,
            TaskToken::String(_) => 22,
            TaskToken::Integer => 23,
            TaskToken::Float => 24,
            TaskToken::Date => 25,
            TaskToken::Time => 26,
            TaskToken::DateTime => 27,
            TaskToken::Quote => 28,
        }
    }

    /// Equality of token kinds, string values included.
    pub fn same(&self, other: &TaskToken) -> (r: bool)
        ensures
            r == (self@ == other@),
    {
        match (self, other) {
            (TaskToken::Keyword(a), TaskToken::Keyword(b)) => *a == *b,
            (TaskToken::String(a), TaskToken::String(b)) => a.eq(b),
            (TaskToken::NewLine, TaskToken::NewLine) => true,
            (TaskToken::WhiteSpace, TaskToken::WhiteSpace) => true,
            (TaskToken::Comment, TaskToken::Comment) => true,
            (TaskToken::AngleStart, TaskToken::AngleStart) => true,
            (TaskToken::ParenStart, TaskToken::ParenStart) => true,
            (TaskToken::BraceStart, TaskToken::BraceStart) => true,
            (TaskToken::BracketStart, TaskToken::BracketStart) => true,
            (TaskToken::PathSep, TaskToken::PathSep) => true,
            (TaskToken::Comma, TaskToken::Comma) => true,
            (TaskToken::Dot, TaskToken::Dot) => true,
            (TaskToken::And, TaskToken::And) => true,
            (TaskToken::Or, TaskToken::Or) => true,
            (TaskToken::Not, TaskToken::Not) => true,
            (TaskToken::AngleEnd, TaskToken::AngleEnd) => true,
            (TaskToken::ParenEnd, TaskToken::ParenEnd) => true,
            (TaskToken::BraceEnd, TaskToken::BraceEnd) => true,
            (TaskToken::BracketEnd, TaskToken::BracketEnd) => true,
            (TaskToken::Variable, TaskToken::Variable) => true,
            (TaskToken::Function, TaskToken::Function) => true,
            (TaskToken::Assignment, TaskToken::Assignment) => true,
            (TaskToken::Bool, TaskToken::Bool) => true,
            (TaskToken::Integer, TaskToken::Integer) => true,
            (TaskToken::Float, TaskToken::Float) => true,
            (TaskToken::Date, TaskToken::Date) => true,
            (TaskToken::Time, TaskToken::Time) => true,
            (TaskToken::DateTime, TaskToken::DateTime) => true,
            (TaskToken::Quote, TaskToken::Quote) => true,
            _ => false,
        }
    }

    /// Name of the color the kind is highlighted with.
    pub fn syntax_color(&self) -> (c: &'static str)
        ensures
            c@ == color_of(self@),
    {
        let t = self.tag();
        if t <= 1 {
            proof { reveal_strlit("white"); }
            "white"
        } else if t == 2 {
            proof { reveal_strlit("gray"); }
            "gray"
        } else if t == 3 || t == 28 {
            proof { reveal_strlit("red"); }
            "red"
        } else if t == 11 || t == 12 || t == 13 || t == 21 || t == 22 || t == 23 || t == 24 {
            proof { reveal_strlit("yellow"); }
            "yellow"
        } else if t == 18 {
            proof { reveal_strlit("green"); }
            "green"
        } else if t == 19 {
            proof { reveal_strlit("magenta"); }
            "magenta"
        } else if t == 25 || t == 26 || t == 27 {
            proof { reveal_strlit("cyan"); }
            "cyan"
        } else {
            proof { reveal_strlit("blue"); }
            "blue"
        }
    }
}

// ---------------------------------------------------------------------------
// A stream of tokens with the reading position.
// ---------------------------------------------------------------------------

/// The reading position: line, start and end column (bytes) of the last
/// token, and the text of the current line read so far.
pub struct Cursor {
    pub line: int,
    pub colstart: int,
    pub colend: int,
    pub linestr: Seq<char>,
}

pub open spec fn saturate(x: int) -> int {
    if x > usize::MAX { usize::MAX as int } else { x }
}

/// The position after reading `t`.
pub open spec fn advance(c: Cursor, t: Token) -> Cursor {
    if kind_tag(t.ty@) == 0 {
        Cursor { line: saturate(c.line + 1), colstart: 0, colend: 0, linestr: Seq::empty() }
    } else {
        Cursor {
            line: c.line,
            colstart: c.colend,
            colend: saturate(c.colend + utf8_bytes(t.content@)),
            linestr: c.linestr + t.content@,
        }
    }
}

/// The position after reading all of `ts`.
pub open spec fn advance_all(c: Cursor, ts: Seq<Token>) -> Cursor
    decreases ts.len(),
{
    if ts.len() == 0 {
        c
    } else {
        advance_all(advance(c, ts[0]), ts.drop_first())
    }
}

/// Tokens that `next_no_ws` passes over.
pub open spec fn skippable(t: Token, newline: bool) -> bool {
    kind_tag(t.ty@) == 2 || kind_tag(t.ty@) == 1 || (newline && kind_tag(t.ty@) == 0)
}

/// Index of the first token that is not passed over.
pub open spec fn first_kept(ts: Seq<Token>, newline: bool) -> Option<int>
    decreases ts.len(),
{
    if ts.len() == 0 {
        None
    } else if !skippable(ts[0], newline) {
        Some(0)
    } else {
        match first_kept(ts.drop_first(), newline) {
            Some(k) => Some(k + 1),
            None => None,
        }
    }
}

pub proof fn lemma_first_kept(ts: Seq<Token>, newline: bool)
    ensures
        first_kept(ts, newline) matches Some(k) ==> 0 <= k < ts.len() && !skippable(ts[k], newline)
            && forall|j: int| 0 <= j < k ==> skippable(#[trigger] ts[j], newline),
        first_kept(ts, newline) is None ==> forall|j: int| 0 <= j < ts.len() ==> skippable(#[trigger] ts[j], newline),
    decreases ts.len(),
{
    if ts.len() > 0 {
        lemma_first_kept(ts.drop_first(), newline);
        if skippable(ts[0], newline) {
            assert forall|j: int| 1 <= j < ts.len() implies ts[j] == ts.drop_first()[j - 1] by {}
        }
    }
}

/// The texts of the tokens up to the first newline, joined.
pub open spec fn text_to_eol(ts: Seq<Token>) -> Seq<char>
    decreases ts.len(),
{
    if ts.len() == 0 || kind_tag(ts[0].ty@) == 0 {
        Seq::empty()
    } else {
        ts[0].content@ + text_to_eol(ts.drop_first())
    }
}

/// A stream of tokens read from the front, which tracks the line and
/// column of the token read last.
pub struct VecTokens {
    /// the tokens still to read, last one first
    pub tokens: Vec<Token>,
    /// the line of the last token read (from 0)
    pub line: usize,
    /// the byte column where the last token read starts
    pub colstart: usize,
    /// the byte column where the last token read ends
    pub colend: usize,
    /// the text of the current line up to the last token read
    pub linestr: String,
}

impl VecTokens {
    /// The tokens still to read, in order.
    pub closed spec fn rest(&self) -> Seq<Token> {
        Seq::new(self.tokens@.len(), |k: int| self.tokens@[self.tokens@.len() - 1 - k])
    }

    pub open spec fn cursor(&self) -> Cursor {
        Cursor {
            line: self.line as int,
            colstart: self.colstart as int,
            colend: self.colend as int,
            linestr: self.linestr@,
        }
    }

    pub fn new(tokens: Vec<Token>) -> (r: Self)
        ensures
            r.rest() == tokens@,
            r.cursor() == (Cursor { line: 0, colstart: 0, colend: 0, linestr: Seq::empty() }),
    {
        let mut src = tokens;
        let ghost orig = src@;
        let mut rev: Vec<Token> = Vec::new();
        while src.len() > 0
            invariant
                src@ == orig.subrange(0, src@.len() as int),
                rev@.len() + src@.len() == orig.len(),
                forall|k: int| 0 <= k < rev@.len() ==> rev@[k] == orig[orig.len() - 1 - k],
            decreases src@.len(),
        {
            let t = src.pop().unwrap();
            rev.push(t);
        }
        let r = VecTokens { tokens: rev, line: 0, colstart: 0, colend: 0, linestr: String::new() };
        assert(r.rest() =~= tokens@);
        r
    }

    /// The next token, without reading it.
    pub fn peek_next(&self) -> (r: Option<&Token>)
        ensures
            self.rest().len() == 0 ==> r is None,
            self.rest().len() > 0 ==> r == Some(&self.rest()[0]),
    {
        let n = self.tokens.len();
        if n == 0 {
            None
        } else {
            Some(&self.tokens[n - 1])
        }
    }

    /// Reads the next token.
    pub fn next(&mut self) -> (r: Option<Token>)
        ensures
            old(self).rest().len() == 0 ==> r is None && final(self).rest() == old(self).rest()
                && final(self).cursor() == old(self).cursor(),
            old(self).rest().len() > 0 ==> r == Some(old(self).rest()[0])
                && final(self).rest() == old(self).rest().drop_first()
                && final(self).cursor() == advance(old(self).cursor(), old(self).rest()[0]),
    {
        let t = match self.tokens.pop() {
            Some(t) => t,
            None => return None,
        };
        if t.ty.tag() == 0 {
            self.line = self.line.saturating_add(1);
            self.colstart = 0;
            self.colend = 0;
            self.linestr = String::new();
        } else {
            self.colstart = self.colend;
            let n = string_byte_len(&t.content);
            self.colend = self.colend.saturating_add(n);
            push_str(&mut self.linestr, t.content.as_str());
        }
        assert(self.rest() =~= old(self).rest().drop_first());
        Some(t)
    }

    /// Reads tokens until one that is not a comment, white space, or (with
    /// `newline`) a newline, and gives that one.
    pub fn next_no_ws(&mut self, newline: bool) -> (r: Option<Token>)
        ensures
            match first_kept(old(self).rest(), newline) {
                None => r is None && final(self).rest() == Seq::<Token>::empty()
                    && final(self).cursor() == advance_all(old(self).cursor(), old(self).rest()),
                Some(k) => r == Some(old(self).rest()[k]) && final(self).rest() == old(self).rest().skip(k + 1)
                    && final(self).cursor() == advance_all(old(self).cursor(), old(self).rest().take(k + 1)),
            },
    {
        let ghost r0 = self.rest();
        let ghost c0 = self.cursor();
        let ghost mut n: int = 0;
        proof {
            lemma_first_kept(r0, newline);
            assert(r0.take(0) =~= Seq::<Token>::empty());
            assert(r0.skip(0) =~= r0);
        }
        loop
            invariant
                r0 == old(self).rest(),
                c0 == old(self).cursor(),
                0 <= n <= r0.len(),
                self.rest() == r0.skip(n),
                self.cursor() == advance_all(c0, r0.take(n)),
                forall|j: int| 0 <= j < n ==> skippable(#[trigger] r0[j], newline),
                first_kept(r0, newline) matches Some(k) ==> n <= k,
            decreases r0.len() - n,
        {
            proof {
                lemma_first_kept(r0, newline);
            }
            let t = match self.next() {
                Some(t) => t,
                None => {
                    proof {
                        assert(n == r0.len());
                        assert(r0.take(n) =~= r0);
                        if first_kept(r0, newline) is Some {
                            let k = first_kept(r0, newline)->0;
                            assert(!skippable(r0[k], newline));
                        }
                    }
                    return None;
                },
            };
            proof {
                lemma_advance_all_push(c0, r0.take(n), r0[n]);
                assert(r0.take(n).push(r0[n]) =~= r0.take(n + 1));
                assert(r0.skip(n).drop_first() =~= r0.skip(n + 1));
            }
            let k = t.ty.tag();
            if k == 2 || k == 1 || (newline && k == 0) {
                proof {
                    n = n + 1;
                }
            } else {
                proof {
                    assert(!skippable(r0[n], newline));
                    if first_kept(r0, newline) is None {
                        assert(skippable(r0[n], newline));
                    }
                }
                return Some(t);
            }
        }
    }

    /// The next token that `next_no_ws` would give, without reading it.
    pub fn peek_next_no_ws(&self, newline: bool) -> (r: Option<&Token>)
        ensures
            match first_kept(self.rest(), newline) {
                None => r is None,
                Some(k) => r == Some(&self.rest()[k]),
            },
    {
        proof {
            lemma_first_kept(self.rest(), newline);
        }
        let mut i = self.tokens.len();
        while i > 0
            invariant
                i <= self.tokens.len(),
                forall|j: int| 0 <= j < self.tokens.len() - i ==> skippable(#[trigger] self.rest()[j], newline),
            decreases i,
        {
            let t = &self.tokens[i - 1];
            proof {
                lemma_first_kept(self.rest(), newline);
            }
            let k = t.ty.tag();
            if !(k == 2 || k == 1 || (newline && k == 0)) {
                proof {
                    let idx = self.tokens.len() - i;
                    assert(self.rest()[idx] == self.tokens@[i - 1]);
                    if let Some(f) = first_kept(self.rest(), newline) {
                        if f < idx {
                            assert(skippable(self.rest()[f], newline));
                        } else if f > idx {
                            assert(skippable(self.rest()[idx], newline));
                        }
                    } else {
                        assert(skippable(self.rest()[idx], newline));
                    }
                }
                return Some(t);
            }
            proof {
                assert(self.rest()[self.tokens.len() - i] == self.tokens@[i - 1]);
            }
            i = i - 1;
        }
        proof {
            lemma_first_kept(self.rest(), newline);
            if let Some(f) = first_kept(self.rest(), newline) {
                assert(skippable(self.rest()[f], newline));
            }
        }
        None
    }

    /// Reads the next token if its kind is `token`.
    pub fn next_if(&mut self, token: TaskToken) -> (r: Option<Token>)
        ensures
            (old(self).rest().len() > 0 && old(self).rest()[0].ty@ == token@) ==> r == Some(old(self).rest()[0])
                && final(self).rest() == old(self).rest().drop_first()
                && final(self).cursor() == advance(old(self).cursor(), old(self).rest()[0]),
            !(old(self).rest().len() > 0 && old(self).rest()[0].ty@ == token@) ==> r is None
                && final(self).rest() == old(self).rest() && final(self).cursor() == old(self).cursor(),
    {
        let matches = match self.peek_next() {
            Some(t) => t.ty.same(&token),
            None => false,
        };
        if matches {
            self.next()
        } else {
            None
        }
    }

    /// Reads the next token that is not passed over if its kind is `token`.
    pub fn next_no_ws_if(&mut self, newline: bool, token: TaskToken) -> (r: Option<Token>)
        ensures
            match first_kept(old(self).rest(), newline) {
                Some(k) if old(self).rest()[k].ty@ == token@ => r == Some(old(self).rest()[k])
                    && final(self).rest() == old(self).rest().skip(k + 1)
                    && final(self).cursor() == advance_all(old(self).cursor(), old(self).rest().take(k + 1)),
                _ => r is None && final(self).rest() == old(self).rest() && final(self).cursor() == old(self).cursor(),
            },
    {
        let matches = match self.peek_next_no_ws(newline) {
            Some(t) => t.ty.same(&token),
            None => false,
        };
        if matches {
            self.next_no_ws(newline)
        } else {
            None
        }
    }

    /// The current line: what was read of it, and the rest of it.
    pub fn linestr_eol(&self) -> (s: String)
        ensures
            s@ == self.cursor().linestr + text_to_eol(self.rest()),
    {
        let mut s = self.linestr.clone();
        let mut i = self.tokens.len();
        assert(self.rest().skip(0) =~= self.rest());
        while i > 0
            invariant
                i <= self.tokens.len(),
                s@ + text_to_eol(self.rest().skip(self.tokens.len() - i)) == self.linestr@ + text_to_eol(self.rest()),
            decreases i,
        {
            let t = &self.tokens[i - 1];
            proof {
                let sk = self.rest().skip(self.tokens.len() - i);
                assert(sk[0] == self.tokens@[i - 1]);
                assert(sk.drop_first() =~= self.rest().skip(self.tokens.len() - i + 1));
            }
            if t.ty.tag() == 0 {
                assert(s@ =~= s@ + text_to_eol(self.rest().skip(self.tokens.len() - i)));
                return s;
            }
            let ghost before = s@;
            push_str(&mut s, t.content.as_str());
            proof {
                let sk = self.rest().skip(self.tokens.len() - i);
                assert(before + text_to_eol(sk) =~= s@ + text_to_eol(sk.drop_first()));
            }
            i = i - 1;
        }
        proof {
            assert(self.rest().skip(self.tokens.len() as int) =~= Seq::<Token>::empty());
            assert(s@ =~= s@ + text_to_eol(Seq::<Token>::empty()));
        }
        s
    }

    /// An error of kind `ty` at the token read last.
    pub fn parse_error(&self, ty: ParseErrorType) -> (e: ParseError)
        ensures
            e.ty == ty,
            e.line == self.cursor().line,
            e.col == self.cursor().colstart,
            e.linestr@ == self.cursor().linestr + text_to_eol(self.rest()),
    {
        ParseError { ty, line: self.line, col: self.colstart, linestr: self.linestr_eol() }
    }
}

pub proof fn lemma_advance_all_push(c: Cursor, ts: Seq<Token>, t: Token)
    ensures
        advance_all(c, ts.push(t)) == advance(advance_all(c, ts), t),
    decreases ts.len(),
{
    if ts.len() == 0 {
        assert(ts.push(t).drop_first() =~= Seq::<Token>::empty());
        assert(ts.push(t)[0] == t);
        assert(advance_all(advance(c, t), Seq::<Token>::empty()) == advance(c, t));
    } else {
        assert(ts.push(t).drop_first() =~= ts.drop_first().push(t));
        assert(ts.push(t)[0] == ts[0]);
        lemma_advance_all_push(advance(c, ts[0]), ts.drop_first(), t);
    }
}


impl Token {
    /// The token's text, colored by its kind: newlines and white space as
    /// they are, comments in gray, the rest in `syntax_color`.
    pub fn colored(&self) -> (s: String)
        ensures
            kind_tag(self.ty@) <= 1 ==> s@ == self.content@,
            kind_tag(self.ty@) == 2 && !has_reset(self.content@) ==> s@ == self.content@ || s@ == painted(
                self.content@,
                rgb_code(100, 100, 100),
            ) || s@ == painted(self.content@, nearest_color_code(100, 100, 100)),
            kind_tag(self.ty@) > 2 && !has_reset(self.content@) ==> s@ == self.content@ || s@ == painted(
                self.content@,
                fg_code(color_of(self.ty@))->0,
            ),
            no_esc(self.content@) ==> strip_sgr(s@) == self.content@,
    {
        let t = self.ty.tag();
        proof {
            if no_esc(self.content@) {
                lemma_no_esc_no_reset(self.content@);
                lemma_strip_plain_only(self.content@);
                lemma_fg_code_sgr(color_of(self.ty@));
            }
        }
        if t <= 1 {
            self.content.clone()
        } else if t == 2 {
            let r = paint_rgb(self.content.as_str(), 100, 100, 100);
            proof {
                if no_esc(self.content@) && r@ != self.content@ {
                    if r@ == painted(self.content@, rgb_code(100, 100, 100)) {
                        lemma_rgb_code_sgr(100, 100, 100);
                        law_painted_strips(self.content@, rgb_code(100, 100, 100));
                    } else {
                        law_painted_strips(self.content@, nearest_color_code(100, 100, 100));
                    }
                }
            }
            r
        } else {
            let c = self.ty.syntax_color();
            proof {
                reveal_strlit("red");
                reveal_strlit("yellow");
                reveal_strlit("green");
                reveal_strlit("magenta");
                reveal_strlit("cyan");
                reveal_strlit("blue");
            }
            let r = paint_named(self.content.as_str(), c);
            proof {
                if no_esc(self.content@) && r@ != self.content@ {
                    law_painted_strips(self.content@, fg_code(color_of(self.ty@))->0);
                }
            }
            r
        }
    }
}

/// `s` is a plain identifier: a letter or `_`, then letters, digits and
/// `_` (a node name that can be written without quotes).
pub open spec fn is_variable_name(s: Seq<char>) -> bool {
    &&& s.len() > 0
    &&& (is_alpha(s[0]) || s[0] == '_')
    &&& forall|k: int| 0 <= k < s.len() ==> in_class(#[trigger] s[k], CharClass::Word)
}

/// The length of `s[..n]` with the white space at its end taken off.
pub open spec fn trimmed_end_len(s: Seq<char>, n: int) -> int
    decreases n,
{
    if n <= 0 || n > s.len() {
        0
    } else if is_unicode_ws(s[n - 1]) {
        trimmed_end_len(s, n - 1)
    } else {
        n
    }
}

/// Whether `txt`, white space at its end aside, is a plain identifier.
pub fn valid_variable_name(txt: &str) -> (b: bool)
    ensures
        b == is_variable_name(txt@.take(trimmed_end_len(txt@, txt@.len() as int))),
{
    let v = chars_of(txt);
    let mut e: usize = v.len();
    while e > 0 && unicode_ws(v[e - 1])
        invariant
            v@ == txt@,
            e <= v.len(),
            trimmed_end_len(v@, e as int) == trimmed_end_len(v@, v@.len() as int),
        decreases e,
    {
        e = e - 1;
    }
    proof {
        assert(trimmed_end_len(v@, e as int) == e);
    }
    let ghost w = v@.take(e as int);
    assert(txt@.take(trimmed_end_len(txt@, txt@.len() as int)) == w);
    if e > 0 {
        assert(w[0] == v@[0]);
    }
    if e == 0 || !(alpha(v[0]) || v[0] == '_') {
        return false;
    }
    let mut k: usize = 0;
    while k < e
        invariant
            v@ == txt@,
            e <= v.len(),
            w == v@.take(e as int),
            txt@.take(trimmed_end_len(txt@, txt@.len() as int)) == w,
            w.len() == e,
            e > 0,
            is_alpha(w[0]) || w[0] == '_',
            k <= e,
            forall|j: int| 0 <= j < k ==> in_class(#[trigger] w[j], CharClass::Word),
        decreases e - k,
    {
        if !class_has(v[k], CharClass::Word) {
            assert(w[k as int] == v@[k as int]);
            return false;
        }
        assert(w[k as int] == v@[k as int]);
        k = k + 1;
    }
    true
}


/// The value a token stands for: `Ok(None)` for tokens that are not
/// values; an error message for values that do not parse.
pub open spec fn token_value(k: Kind, text: Seq<char>, floats: Seq<(Seq<char>, u64)>) -> Result<Option<Val>, Seq<char>> {
    match k {
        Kind::Bool => if text =~= seq!['t', 'r', 'u', 'e'] {
            Ok(Some(Val::Bool(true)))
        } else if text =~= seq!['f', 'a', 'l', 's', 'e'] {
            Ok(Some(Val::Bool(false)))
        } else {
            Err("Boolean can only be true or false"@)
        },
        Kind::Str(v) => Ok(Some(Val::Str(v))),
        Kind::Integer => match parse_i64(text) {
            Some(i) => Ok(Some(Val::Integer(i))),
            None => Err("Invalid Integer"@),
        },
        Kind::Float => match float_lookup(floats, text) {
            Some(b) => Ok(Some(Val::Float(b))),
            None => Err("Invalid Float"@),
        },
        Kind::Date => match parse_date(text) {
            Some(d) => Ok(Some(Val::Date(d))),
            None => Err("Invalid Date"@),
        },
        Kind::Time => match parse_time(text) {
            Some(t) => Ok(Some(Val::Time(t))),
            None => Err("Invalid Time"@),
        },
        Kind::DateTime => match parse_datetime(text) {
            Some(d) => Ok(Some(Val::DateTime(d))),
            None => Err("Invalid DateTime"@),
        },
        _ => Ok(None),
    }
}

impl Token {
    /// The attribute value the token stands for; float literals take their
    /// value from `floats`.
    pub fn attribute(&self, floats: &FloatTable) -> (r: Result<Option<Attribute>, &'static str>)
        ensures
            match (r, token_value(self.ty@, self.content@, floats@)) {
                (Ok(Some(a)), Ok(Some(v))) => a@ == v,
                (Ok(None), Ok(None)) => true,
                (Err(m), Err(e)) => m@ == e,
                _ => false,
            },
    {
        let v = chars_of(self.content.as_str());
        let n = v.len();
        assert(v@.subrange(0, n as int) =~= v@);
        match &self.ty {
            TaskToken::Bool => {
                let t = ['t', 'r', 'u', 'e'];
                let f = ['f', 'a', 'l', 's', 'e'];
                assert(t@ =~= seq!['t', 'r', 'u', 'e']);
                assert(f@ =~= seq!['f', 'a', 'l', 's', 'e']);
                if n == 4 && starts_with_exec(&v, 0, &t) {
                    Ok(Some(Attribute::Bool(true)))
                } else if n == 5 && starts_with_exec(&v, 0, &f) {
                    Ok(Some(Attribute::Bool(false)))
                } else {
                    Err("Boolean can only be true or false")
                }
            },
            TaskToken::String(s) => Ok(Some(Attribute::String(s.clone()))),
            TaskToken::Integer => match parse_i64_exec(&v, 0, n) {
                Some(i) => Ok(Some(Attribute::Integer(i))),
                None => Err("Invalid Integer"),
            },
            TaskToken::Float => match floats.lookup(self.content.as_str()) {
                Some(b) => Ok(Some(Attribute::Float(b))),
                None => Err("Invalid Float"),
            },
            TaskToken::Date => match date_from_chars(&v, 0, n) {
                Some(d) => Ok(Some(Attribute::Date(d))),
                None => Err("Invalid Date"),
            },
            TaskToken::Time => match time_from_chars(&v, 0, n) {
                Some(t) => Ok(Some(Attribute::Time(t))),
                None => Err("Invalid Time"),
            },
            TaskToken::DateTime => match datetime_from_chars(&v, 0, n) {
                Some(d) => Ok(Some(Attribute::DateTime(d))),
                None => Err("Invalid DateTime"),
            },
            _ => Ok(None),
        }
    }
}

} // verus!
