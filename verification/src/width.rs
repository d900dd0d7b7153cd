//! Display widths, as the `unicode-width` crate measures them.
use vstd::prelude::*;

verus! {

/// The control characters: C0, DEL and C1.
pub open spec fn is_control(c: char) -> bool {
    c < ' ' || '\u{7f}' <= c < '\u{a0}'
}

/// The ASCII characters that are not control characters.
pub open spec fn is_ascii_printable(c: char) -> bool {
    ' ' <= c <= '~'
}

/// Whether `s` is made of printable ASCII characters.
pub open spec fn is_plain(s: Seq<char>) -> bool {
    forall|i: int| 0 <= i < s.len() ==> is_ascii_printable(#[trigger] s[i])
}

/// What `UnicodeWidthChar::width` returns for `c`.
pub uninterp spec fn char_width(c: char) -> Option<usize>;

/// What `UnicodeWidthStr::width` returns for the string of the characters `s`.
pub uninterp spec fn str_width(s: Seq<char>) -> usize;

/// Calls `unicode_width::UnicodeWidthChar::width`.
///
/// The result is a function of the character alone. It is `None` for the
/// control characters and for no others, one column for a printable ASCII
/// character, and never more than three columns.
#[verifier::external_body]
pub(crate) fn measure_char(c: char) -> (r: Option<usize>)
    ensures
        r == char_width(c),
        r is None <==> is_control(c),
        is_ascii_printable(c) ==> r == Some(1usize),
        r matches Some(w) ==> w <= 3,
{
    unicode_width::UnicodeWidthChar::width(c)
}

/// Calls `unicode_width::UnicodeWidthStr::width`.
///
/// The result is a function of the characters of the string alone. It is not in
/// general the sum of the widths of the characters, but a string of printable
/// ASCII characters has one column for each of them.
#[verifier::external_body]
pub(crate) fn measure_str(s: &str) -> (r: usize)
    ensures
        r == str_width(s@),
        is_plain(s@) ==> r == s@.len(),
{
    unicode_width::UnicodeWidthStr::width(s)
}

/// The columns that a character is given: what was measured, or one column
/// where there is no width.
pub open spec fn cells_of(measured: Option<usize>) -> usize {
    match measured {
        Some(w) => w,
        None => 1,
    }
}

/// The columns that a character is given, from what was measured for it.
pub fn cells_or_one(measured: Option<usize>) -> (r: usize)
    ensures
        r == cells_of(measured),
{
    match measured {
        Some(w) => w,
        None => 1,
    }
}

/// The columns by which a character moves the cursor from column `col`: a tab
/// goes on to the next tab stop, one every eight columns, and any other
/// character takes its `cells`.
pub open spec fn advance(ch: char, cells: usize, col: nat) -> nat {
    if ch == '\t' {
        (8 - col % 8) as nat
    } else {
        cells as nat
    }
}

/// The columns by which `ch`, which takes `cells` columns unless it is a tab,
/// moves the cursor from column `col`.
pub fn column_advance(ch: char, cells: usize, col: usize) -> (r: usize)
    ensures
        r == advance(ch, cells, col as nat),
{
    if ch == '\t' {
        8 - (col % 8)
    } else {
        cells
    }
}

/// Display-column width of a single character at column `col`, for the
/// purposes of terminal line-wrap calculations.
///
/// A tab advances to the next tab stop, one every eight columns. A control
/// character other than the tab is counted as one column.
pub fn char_display_width(ch: char, col: usize) -> (r: usize)
    ensures
        r == advance(ch, cells_of(char_width(ch)), col as nat),
        is_control(ch) && ch != '\t' ==> r == 1,
        is_ascii_printable(ch) ==> r == 1,
{
    let measured = measure_char(ch);
    column_advance(ch, cells_or_one(measured), col)
}

} // verus!
