//! Display width of characters and strings, as the `unicode-width` crate measures it.
//!
//! Layout measures text in character cells, never in bytes or `char`s. The measuring
//! itself belongs to `unicode-width`; what this module states about it is what that
//! crate's source shows.

use vstd::prelude::*;
use unicode_width::{UnicodeWidthChar, UnicodeWidthStr};
use crate::text::string_from;

verus! {

/// What `UnicodeWidthChar::width` returns for a character.
pub uninterp spec fn char_width_table(c: char) -> Option<usize>;

/// What `UnicodeWidthStr::width` returns for a string, given by its characters.
pub uninterp spec fn str_width_table(s: Seq<char>) -> usize;

/// Calls `UnicodeWidthChar::width` (non-CJK widths).
///
/// The result is named by `char_width_table`. As the crate's source
/// (`lookup::single_char_width`) shows, printable ASCII (U+0020..U+007E) is one cell
/// wide, the C0 and C1 control ranges (below U+0020, and U+007F..U+009F) have no width,
/// and every character from U+00A0 up has some width from the crate's tables; what that
/// width is for a given character is left to the name.
#[verifier::external_body]
pub fn unicode_char_width(c: char) -> (r: Option<usize>)
    ensures
        r == char_width_table(c),
        0x20 <= (c as u32) < 0x7f ==> r == Some(1usize),
        ((c as u32) < 0x20 || 0x7f <= (c as u32) < 0xa0) ==> r is None,
        (c as u32) >= 0xa0 ==> r is Some,
{
    UnicodeWidthChar::width(c)
}

/// Calls `UnicodeWidthStr::width` (non-CJK widths) on the string made of `s`.
///
/// The result is named by `str_width_table`. The crate's string width is not always the
/// sum of its characters' widths (ligatures, emoji sequences, `\r\n`), so nothing more is
/// claimed here.
#[verifier::external_body]
pub fn unicode_str_width(s: &str) -> (r: usize)
    ensures
        r == str_width_table(s@),
{
    UnicodeWidthStr::width(s)
}

/// Display width of one character in cells: its table width, or zero for a control
/// character.
pub open spec fn cell_width(c: char) -> int {
    match char_width_table(c) {
        Some(w) => w as int,
        None => 0,
    }
}

/// Display width of a run of characters, as `unicode-width` measures the string they make.
pub fn chars_width(chars: &[char]) -> (r: usize)
    ensures
        r == str_width_table(chars@),
{
    let s = string_from(chars);
    unicode_str_width(s.as_str())
}

/// Display width of one character in cells, as layout counts it.
pub fn char_cells(c: char) -> (r: usize)
    ensures
        r as int == cell_width(c),
{
    match unicode_char_width(c) {
        Some(w) => w,
        None => 0,
    }
}

} // verus!
