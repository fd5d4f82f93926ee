//! Colours and widths of text on a terminal.

use unicode_width::UnicodeWidthStr;
use vstd::prelude::*;

use crate::text::{chars_of, concat2, decimal, repeat_char, repeated, text_between};

verus! {

/// A colour of the palette.
#[derive(Clone, Copy, Debug, PartialEq, Eq, Structural)]
pub enum PaletteColor {
    Rgb(u8, u8, u8),
    EightBit(u8),
}

// ---------------------------------------------------------------------------
// Colours
// ---------------------------------------------------------------------------
/// The numbers that select a colour.
pub open spec fn colour_numbers(color: PaletteColor) -> Seq<char> {
    match color {
        PaletteColor::Rgb(r, g, b) => seq!['2', ';'] + decimal(r as nat) + seq![';'] + decimal(
            g as nat,
        ) + seq![';'] + decimal(b as nat),
        PaletteColor::EightBit(code) => seq!['5', ';'] + decimal(code as nat),
    }
}

/// The sequence that switches a style on: bold first, then the background, then
/// the foreground.
pub open spec fn style_prefix(fg: PaletteColor, bg: Option<PaletteColor>, bold: bool) -> Seq<char> {
    let weight = if bold {
        seq!['1', ';']
    } else {
        Seq::empty()
    };
    let behind = match bg {
        Some(color) => seq!['4', '8', ';'] + colour_numbers(color) + seq![';'],
        None => Seq::empty(),
    };
    seq!['\u{1b}', '['] + weight + behind + seq!['3', '8', ';'] + colour_numbers(fg) + seq!['m']
}

/// A text in a style, which ends with it.
pub open spec fn styled(
    text: Seq<char>,
    fg: PaletteColor,
    bg: Option<PaletteColor>,
    bold: bool,
) -> Seq<char> {
    style_prefix(fg, bg, bold) + text + seq!['\u{1b}', '[', '0', 'm']
}

/// `ansi_term::Style::paint`, with the result written out: the text between the
/// sequence that switches the style on and the one that resets it.
#[verifier::external_body]
fn paint_style(text: &str, fg: PaletteColor, bg: Option<PaletteColor>, bold: bool) -> (painted:
    String)
    ensures
        painted@ == styled(text@, fg, bg, bold),
{
    let mut style = ansi_term::Style::new();
    style.foreground = Some(match fg {
        PaletteColor::Rgb(r, g, b) => ansi_term::Colour::RGB(r, g, b),
        PaletteColor::EightBit(code) => ansi_term::Colour::Fixed(code),
    });
    style.background = match bg {
        Some(PaletteColor::Rgb(r, g, b)) => Some(ansi_term::Colour::RGB(r, g, b)),
        Some(PaletteColor::EightBit(code)) => Some(ansi_term::Colour::Fixed(code)),
        None => None,
    };
    style.is_bold = bold;
    style.paint(text).to_string()
}

/// A text in a foreground and a background colour.
pub fn paint(text: &str, fg: PaletteColor, bg: PaletteColor, bold: bool) -> (painted: String)
    ensures
        painted@ == styled(text@, fg, Some(bg), bold),
{
    paint_style(text, fg, Some(bg), bold)
}

/// A text behind an empty stretch in an accent colour.
pub fn paint_badge(text: &str, accent: PaletteColor) -> (painted: String)
    ensures
        painted@ == styled(Seq::empty(), accent, None, false) + text@,
{
    let empty = String::new();
    proof {
        assert(empty@ =~= Seq::<char>::empty());
    }
    let mark = paint_style(empty.as_str(), accent, None, false);
    concat2(mark.as_str(), text)
}

// ---------------------------------------------------------------------------
// Widths
// ---------------------------------------------------------------------------
/// How many columns `UnicodeWidthStr::width` says that a text takes.
pub uninterp spec fn display_width(text: Seq<char>) -> nat;

/// Whether a text is made of printable ASCII characters.
pub open spec fn is_plain(text: Seq<char>) -> bool {
    forall|i: int| 0 <= i < text.len() ==> ' ' <= #[trigger] text[i] && text[i] <= '~'
}

/// `UnicodeWidthStr::width`: how many columns a text takes. A printable ASCII
/// character takes one, and spaces behind any text take one each. What other
/// characters take is left unsaid.
#[verifier::external_body]
pub(crate) fn width(text: &str) -> (columns: usize)
    ensures
        columns == display_width(text@),
        is_plain(text@) ==> columns == text@.len(),
        forall|n: nat| #[trigger]
            display_width(text@ + repeated(' ', n)) == columns + n,
{
    text.width()
}

/// How many characters of a text can be shown one after the other, from the
/// `n`th on, with no more than `width` columns taken at any moment.
pub open spec fn fitting(text: Seq<char>, width: nat, n: int) -> int
    decreases text.len() - n,
{
    if 0 <= n < text.len() && display_width(text.take(n + 1)) <= width {
        fitting(text, width, n + 1)
    } else {
        n
    }
}

/// The longest beginning of a text of which every beginning fits.
pub open spec fn truncated(text: Seq<char>, width: nat) -> Seq<char> {
    if width == 0 {
        Seq::empty()
    } else {
        text.take(fitting(text, width, 0))
    }
}

/// What one number exceeds another by.
pub open spec fn excess(a: nat, b: nat) -> nat {
    if a > b {
        (a - b) as nat
    } else {
        0
    }
}

/// A text cut to a width, and filled up to it with spaces.
pub open spec fn filled(text: Seq<char>, width: nat) -> Seq<char> {
    let cut = truncated(text, width);
    cut + repeated(' ', excess(width, display_width(cut)))
}

/// How many of some columns are left.
pub fn columns_left(columns: usize, taken: u128) -> (left: usize)
    ensures
        left == excess(columns as nat, taken as nat),
{
    if columns as u128 > taken {
        (columns as u128 - taken) as usize
    } else {
        0
    }
}

/// The longest beginning of a text of which every beginning fits.
pub fn truncate_to_width(input: &str, columns: usize) -> (out: String)
    ensures
        out@ == truncated(input@, columns as nat),
        out@.len() <= input@.len(),
        out@ == input@.take(out@.len() as int),
        out@.len() > 0 ==> display_width(out@) <= columns,
{
    let mut out = String::new();
    if columns == 0 {
        proof {
            assert(out@ =~= Seq::<char>::empty());
            assert(input@.take(0) =~= out@);
        }
        return out;
    }
    let chars = chars_of(input);
    let mut n: usize = 0;
    proof {
        assert(out@ =~= input@.take(0));
    }
    while n < chars.len()
        invariant
            columns > 0,
            chars@ == input@,
            n <= chars@.len(),
            out@ == input@.take(n as int),
            n > 0 ==> display_width(out@) <= columns,
            fitting(input@, columns as nat, 0) == fitting(input@, columns as nat, n as int),
        decreases chars@.len() - n,
    {
        let ghost before = out@;
        out.push(chars[n]);
        proof {
            assert(out@ =~= input@.take(n + 1));
        }
        if width(out.as_str()) > columns {
            let kept = text_between(&chars, 0, n);
            proof {
                assert(kept@ =~= before);
            }
            return kept;
        }
        n += 1;
    }
    out
}

/// A text cut to a width, and filled up to it with spaces.
pub fn fill_to_width(input: &str, columns: usize) -> (out: String)
    ensures
        out@ == filled(input@, columns as nat),
        display_width(out@) == columns,
        input@.len() == 0 ==> out@ == repeated(' ', columns as nat),
{
    let cut = truncate_to_width(input, columns);
    let taken = width(cut.as_str());
    let spaces = repeat_char(' ', columns_left(columns, taken as u128));
    let out = concat2(cut.as_str(), spaces.as_str());
    proof {
        if input@.len() == 0 {
            assert(out@ =~= spaces@);
        }
    }
    out
}

// ---------------------------------------------------------------------------
// Laws
// ---------------------------------------------------------------------------
proof fn lemma_fitting(text: Seq<char>, width: nat, n: int)
    requires
        0 <= n <= text.len(),
    ensures
        n <= fitting(text, width, n) <= text.len(),
        forall|k: int| n < k <= fitting(text, width, n) ==> display_width(
            #[trigger] text.take(k),
        ) <= width,
        fitting(text, width, n) < text.len() ==> display_width(
            text.take(fitting(text, width, n) + 1),
        ) > width,
    decreases text.len() - n,
{
    if n < text.len() && display_width(text.take(n + 1)) <= width {
        lemma_fitting(text, width, n + 1);
    }
}

/// A text that is cut to a width is a beginning of it: each of its own beginnings fits,
/// and one more character would not. Nothing fits into no columns.
pub proof fn law_cut_fits(text: Seq<char>, width: nat)
    ensures
        ({
            let cut = truncated(text, width);
            let n = cut.len() as int;
            &&& n <= text.len()
            &&& cut == text.take(n)
            &&& width == 0 ==> n == 0
            &&& width > 0 ==> forall|k: int|
                0 < k <= n ==> display_width(#[trigger] text.take(k)) <= width
            &&& width > 0 && n < text.len() ==> display_width(text.take(n + 1)) > width
        }),
{
    lemma_fitting(text, width, 0);
    assert(text.take(0) =~= Seq::<char>::empty());
}

/// A text is filled up to a width with as many spaces as are missing behind what fits.
pub proof fn law_filled_text(text: Seq<char>, width: nat)
    ensures
        ({
            let cut = truncated(text, width);
            let out = filled(text, width);
            let taken = display_width(cut);
            &&& out.len() == cut.len() + if taken < width {
                width - taken
            } else {
                0
            }
            &&& out.take(cut.len() as int) == cut
            &&& forall|i: int| cut.len() <= i < out.len() ==> out[i] == ' '
        }),
{
    let cut = truncated(text, width);
    assert(filled(text, width).take(cut.len() as int) =~= cut);
}

/// A style is switched on before a text and off behind it. It is given by the numbers
/// for bold, for the background and for the foreground, in this order, and only those
/// that it has.
pub proof fn law_styled_text(text: Seq<char>, fg: u8, bg: u8, bold: bool, color: PaletteColor)
    ensures
        styled(text, PaletteColor::EightBit(fg), None, false) == "\u{1b}[38;5;"@ + decimal(
            fg as nat,
        ) + "m"@ + text + "\u{1b}[0m"@,
        styled(text, PaletteColor::EightBit(fg), Some(PaletteColor::EightBit(bg)), true)
            == "\u{1b}[1;48;5;"@ + decimal(bg as nat) + ";38;5;"@ + decimal(fg as nat) + "m"@ + text
            + "\u{1b}[0m"@,
        color matches PaletteColor::Rgb(r, g, b) ==> styled(text, color, None, false)
            == "\u{1b}[38;2;"@ + decimal(r as nat) + ";"@ + decimal(g as nat) + ";"@ + decimal(
            b as nat,
        ) + "m"@ + text + "\u{1b}[0m"@,
{
    reveal_strlit("\u{1b}[38;5;");
    reveal_strlit("\u{1b}[38;2;");
    reveal_strlit("\u{1b}[1;48;5;");
    reveal_strlit(";38;5;");
    reveal_strlit(";");
    reveal_strlit("m");
    reveal_strlit("\u{1b}[0m");
    assert(styled(text, PaletteColor::EightBit(fg), None, false) =~= "\u{1b}[38;5;"@ + decimal(
        fg as nat,
    ) + "m"@ + text + "\u{1b}[0m"@);
    assert(styled(text, PaletteColor::EightBit(fg), Some(PaletteColor::EightBit(bg)), true)
        =~= "\u{1b}[1;48;5;"@ + decimal(bg as nat) + ";38;5;"@ + decimal(fg as nat) + "m"@ + text
        + "\u{1b}[0m"@);
    match color {
        PaletteColor::Rgb(r, g, b) => {
            assert(styled(text, color, None, false) =~= "\u{1b}[38;2;"@ + decimal(r as nat) + ";"@
                + decimal(g as nat) + ";"@ + decimal(b as nat) + "m"@ + text + "\u{1b}[0m"@);
        },
        _ => {},
    }
}

/// What one number exceeds another by makes up the difference, and is nothing where
/// there is none.
pub proof fn law_excess(a: nat, b: nat)
    ensures
        a >= b ==> excess(a, b) + b == a,
        a <= b ==> excess(a, b) == 0,
{
}

} // verus!
