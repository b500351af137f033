//! Display widths of characters and strings, as the `unicode-width` crate measures them.

use unicode_width::{UnicodeWidthChar, UnicodeWidthStr};
use vstd::prelude::*;

verus! {

/// The column width that `unicode-width` assigns to one character
/// (`None` for a control character).
pub uninterp spec fn unicode_char_width(c: char) -> Option<usize>;

/// The column width that `unicode-width` assigns to a whole string.
pub uninterp spec fn unicode_str_width(s: Seq<char>) -> usize;

/// A character in U+0020..=U+007E.
pub open spec fn is_printable_ascii(c: char) -> bool {
    0x20 <= (c as u32) && (c as u32) <= 0x7e
}

/// A C0 or C1 control character, or DEL.
pub open spec fn is_control(c: char) -> bool {
    (c as u32) < 0x20 || (0x7f <= (c as u32) && (c as u32) < 0xa0)
}

/// Every character of `s` is printable ASCII.
pub open spec fn all_printable_ascii(s: Seq<char>) -> bool {
    forall|i: int| 0 <= i < s.len() ==> is_printable_ascii(#[trigger] s[i])
}

/// `UnicodeWidthChar::width`: the crate's width of one character.  The source
/// gives printable ASCII width 1, control characters no width, and no character
/// more than 3 columns; the remaining values are named, not stated.
#[verifier::external_body]
fn unicode_width_char(c: char) -> (r: Option<usize>)
    ensures
        r == unicode_char_width(c),
        is_printable_ascii(c) ==> r == Some(1usize),
        is_control(c) ==> r is None,
        r matches Some(w) ==> w <= 3,
{
    UnicodeWidthChar::width(c)
}

/// `UnicodeWidthStr::width`: the crate's width of a string.  The source gives
/// a string of printable ASCII characters one column per character; other
/// strings (ligatures, emoji sequences) are named, not stated.
#[verifier::external_body]
fn unicode_width_str(s: &str) -> (r: usize)
    ensures
        r == unicode_str_width(s@),
        all_printable_ascii(s@) ==> r == s@.len(),
{
    UnicodeWidthStr::width(s)
}

/// Columns that one character occupies: 1 for printable ASCII, 0 for a control
/// character, else the crate's width.
pub open spec fn spec_char_width(c: char) -> nat {
    if is_printable_ascii(c) {
        1
    } else {
        match unicode_char_width(c) {
            Some(w) => w as nat,
            None => 0,
        }
    }
}

/// Columns of a string: its length when it is printable ASCII, else the crate's width.
pub open spec fn spec_str_width(s: Seq<char>) -> nat {
    if all_printable_ascii(s) {
        s.len()
    } else {
        unicode_str_width(s) as nat
    }
}

/// Columns of one character; a control character counts as zero columns.
pub fn char_width(c: char) -> (w: usize)
    ensures
        w == spec_char_width(c),
        w <= 3,
        is_printable_ascii(c) ==> w == 1,
{
    match unicode_width_char(c) {
        Some(w) => w,
        None => 0,
    }
}

/// Columns of a string.
pub fn str_width(s: &str) -> (w: usize)
    ensures
        w == spec_str_width(s@),
{
    unicode_width_str(s)
}

} // verus!
