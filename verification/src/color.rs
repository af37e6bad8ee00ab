//! Terminal colors for syntax highlighting.
use vstd::prelude::*;
use colored::Colorize;
use crate::values::{find_char, lemma_find_char};
use crate::text::{decimal, digit_char};

verus! {

/// The ANSI code of a named foreground color, for the lower-case names
/// that the coloring crate knows.
pub open spec fn fg_code(name: Seq<char>) -> Option<Seq<char>> {
    if name =~= seq!['b', 'l', 'a', 'c', 'k'] {
        Some(seq!['3', '0'])
    } else if name =~= seq!['r', 'e', 'd'] {
        Some(seq!['3', '1'])
    } else if name =~= seq!['g', 'r', 'e', 'e', 'n'] {
        Some(seq!['3', '2'])
    } else if name =~= seq!['y', 'e', 'l', 'l', 'o', 'w'] {
        Some(seq!['3', '3'])
    } else if name =~= seq!['b', 'l', 'u', 'e'] {
        Some(seq!['3', '4'])
    } else if name =~= seq!['m', 'a', 'g', 'e', 'n', 't', 'a'] {
        Some(seq!['3', '5'])
    } else if name =~= seq!['c', 'y', 'a', 'n'] {
        Some(seq!['3', '6'])
    } else if name =~= seq!['w', 'h', 'i', 't', 'e'] {
        Some(seq!['3', '7'])
    } else {
        None
    }
}

/// The escape sequence that resets all styles.
pub open spec fn reset_seq() -> Seq<char> {
    seq!['\x1b', '[', '0', 'm']
}

/// `text` between the escape sequence of color `code` and a reset.
pub open spec fn painted(text: Seq<char>, code: Seq<char>) -> Seq<char> {
    seq!['\x1b', '['] + code + seq!['m'] + text + reset_seq()
}

/// A color code of digits and `;`, as the coloring crate writes them.
pub open spec fn sgr_code(code: Seq<char>) -> bool {
    forall|i: int| 0 <= i < code.len() ==> ('0' <= #[trigger] code[i] <= '9' || code[i] == ';')
}

/// `text` holds no escape character.
pub open spec fn no_esc(text: Seq<char>) -> bool {
    forall|i: int| 0 <= i < text.len() ==> #[trigger] text[i] != '\x1b'
}

/// `s` with its escape sequences `ESC [ ... m` taken out (an unfinished one
/// stays).
pub open spec fn strip_sgr(s: Seq<char>) -> Seq<char>
    decreases s.len(),
{
    if s.len() == 0 {
        s
    } else if s.len() >= 2 && s[0] == '\x1b' && s[1] == '[' && find_char(s, 2, 'm') < s.len() {
        proof {
            lemma_find_char(s, 2, 'm');
        }
        strip_sgr(s.subrange(find_char(s, 2, 'm') + 1, s.len() as int))
    } else {
        seq![s[0]] + strip_sgr(s.drop_first())
    }
}

/// Text without escape characters, followed by `tail`, loses only the
/// sequences of `tail`.
pub proof fn lemma_strip_plain(text: Seq<char>, tail: Seq<char>)
    requires
        no_esc(text),
    ensures
        strip_sgr(text + tail) == text + strip_sgr(tail),
    decreases text.len(),
{
    if text.len() > 0 {
        assert((text + tail)[0] == text[0]);
        assert((text + tail).drop_first() =~= text.drop_first() + tail);
        lemma_strip_plain(text.drop_first(), tail);
        assert(text =~= seq![text[0]] + text.drop_first());
    } else {
        assert(text + tail =~= tail);
    }
}

/// Taking the color sequences out of a colored text gives the text back.
pub proof fn law_painted_strips(text: Seq<char>, code: Seq<char>)
    requires
        no_esc(text),
        sgr_code(code),
    ensures
        strip_sgr(painted(text, code)) == text,
{
    let s = painted(text, code);
    let k: int = 2 + code.len() as int;
    assert(s[k] == 'm');
    lemma_find_char(s, 2, 'm');
    let f = find_char(s, 2, 'm');
    if f < k {
        assert(s[f] == code[f - 2]);
    }
    assert(f == k);
    assert(s.subrange(k + 1, s.len() as int) =~= text + reset_seq());
    lemma_strip_plain(text, reset_seq());
    let r = reset_seq();
    lemma_find_char(r, 2, 'm');
    assert(find_char(r, 2, 'm') == 3);
    assert(r.subrange(4, 4) =~= Seq::<char>::empty());
    assert(r.len() == 4 && r[0] == '\x1b' && r[1] == '[');
    assert(strip_sgr(r) == strip_sgr(r.subrange(4, 4)));
    assert(strip_sgr(Seq::<char>::empty()) =~= Seq::<char>::empty());
    assert(strip_sgr(r) =~= Seq::<char>::empty());
    assert(text + Seq::<char>::empty() =~= text);
}

/// Text without escape characters holds no reset sequence.
pub proof fn lemma_no_esc_no_reset(text: Seq<char>)
    requires
        no_esc(text),
    ensures
        !has_reset(text),
{
    if has_reset(text) {
        let i = choose|i: int| 0 <= i && i + 4 <= text.len() && #[trigger] text.subrange(i, i + 4) == reset_seq();
        assert(text.subrange(i, i + 4)[0] == text[i]);
    }
}

/// The codes of the named colors are color codes.
pub proof fn lemma_fg_code_sgr(name: Seq<char>)
    ensures
        fg_code(name) matches Some(c) ==> sgr_code(c),
{
}

/// Text without escape characters is its own stripped form.
pub proof fn lemma_strip_plain_only(text: Seq<char>)
    requires
        no_esc(text),
    ensures
        strip_sgr(text) == text,
{
    lemma_strip_plain(text, Seq::empty());
    assert(text + Seq::<char>::empty() =~= text);
    assert(strip_sgr(Seq::<char>::empty()) =~= Seq::<char>::empty());
}

/// Whether `text` holds a reset sequence (which the coloring crate rewrites).
pub open spec fn has_reset(text: Seq<char>) -> bool {
    exists|i: int| 0 <= i && i + 4 <= text.len() && #[trigger] text.subrange(i, i + 4) == reset_seq()
}

/// `text` in the named color (`Colorize::color`, then `to_string`).
///
/// The text comes back unchanged where the environment turns colors off
/// (which the crate reads from `NO_COLOR`, `CLICOLOR`, `CLICOLOR_FORCE`
/// and whether stdout is a terminal); nothing is said of names the crate
/// does not know, nor of a text that already holds a reset sequence.
#[verifier::external_body]
pub(crate) fn paint_named(text: &str, name: &str) -> (r: String)
    ensures
        fg_code(name@) is Some && !has_reset(text@) ==> r@ == text@ || r@ == painted(
            text@,
            fg_code(name@)->0,
        ),
{
    text.color(name).to_string()
}

/// The 24-bit color code of `(r, g, b)`: `38;2;r;g;b`.
pub open spec fn rgb_code(r: u8, g: u8, b: u8) -> Seq<char> {
    "38;2;"@ + decimal(r as nat) + ";"@ + decimal(g as nat) + ";"@ + decimal(b as nat)
}

/// The code of the basic color that the coloring crate takes as nearest to
/// `(r, g, b)` where the terminal has no 24-bit colors.
pub uninterp spec fn nearest_color_code(r: u8, g: u8, b: u8) -> Seq<char>;

/// The decimal digits of a number are digits.
pub proof fn lemma_decimal_digits(n: nat)
    ensures
        forall|i: int| 0 <= i < decimal(n).len() ==> '0' <= #[trigger] decimal(n)[i] <= '9',
    decreases n,
{
    if n >= 10 {
        lemma_decimal_digits(n / 10);
        let d = decimal(n);
        assert(d == decimal(n / 10).push(digit_char((n % 10) as nat)));
        assert forall|i: int| 0 <= i < d.len() implies '0' <= #[trigger] d[i] <= '9' by {
            if i < d.len() - 1 {
                assert(d[i] == decimal(n / 10)[i]);
            }
        }
    } else {
        assert(decimal(n) == seq![digit_char(n)]);
    }
}

/// A 24-bit color code is a color code.
pub proof fn lemma_rgb_code_sgr(r: u8, g: u8, b: u8)
    ensures
        sgr_code(rgb_code(r, g, b)),
{
    reveal_strlit("38;2;");
    reveal_strlit(";");
    lemma_decimal_digits(r as nat);
    lemma_decimal_digits(g as nat);
    lemma_decimal_digits(b as nat);
    let c = rgb_code(r, g, b);
    let p1 = "38;2;"@;
    let p2 = p1 + decimal(r as nat);
    let p3 = p2 + ";"@;
    let p4 = p3 + decimal(g as nat);
    let p5 = p4 + ";"@;
    assert forall|i: int| 0 <= i < c.len() implies ('0' <= #[trigger] c[i] <= '9' || c[i] == ';') by {
        if i >= p5.len() {
            assert(c[i] == decimal(b as nat)[i - p5.len()]);
        } else if i >= p4.len() {
            assert(c[i] == ';');
        } else if i >= p3.len() {
            assert(c[i] == decimal(g as nat)[i - p3.len()]);
        } else if i >= p2.len() {
            assert(c[i] == ';');
        } else if i >= p1.len() {
            assert(c[i] == decimal(r as nat)[i - p1.len()]);
        } else {
            assert(c[i] == p1[i]);
        }
    }
}

/// `text` in the RGB color `(r, g, b)` (`Colorize::truecolor`, then
/// `to_string`).
///
/// The text comes back unchanged where the environment turns colors off;
/// otherwise it comes in the 24-bit code of the color where `COLORTERM` says
/// the terminal has 24-bit colors, and in the code of the nearest basic
/// color (two digits) where it does not. Nothing is said of a text that
/// already holds a reset sequence.
#[verifier::external_body]
pub(crate) fn paint_rgb(text: &str, r: u8, g: u8, b: u8) -> (out: String)
    ensures
        !has_reset(text@) ==> out@ == text@ || out@ == painted(text@, rgb_code(r, g, b)) || (sgr_code(
            nearest_color_code(r, g, b),
        ) && out@ == painted(text@, nearest_color_code(r, g, b))),
{
    text.truecolor(r, g, b).to_string()
}

} // verus!
