//! Trusted bindings to the Unicode segmentation and width tables.
//!
//! Grapheme-cluster boundaries and display widths are defined by large
//! Unicode data tables; the results are named here as uninterpreted
//! functions of the text alone, and outside crates compute them.

use unicode_segmentation::UnicodeSegmentation;
use unicode_width::UnicodeWidthChar;
use vstd::prelude::*;

verus! {

/// The number of extended grapheme clusters in a character sequence.
pub uninterp spec fn grapheme_count(s: Seq<char>) -> int;

/// The display width in terminal columns of a character: 0 for combining
/// marks and control characters, 1 or 2 otherwise.
pub uninterp spec fn char_display_width(c: char) -> int;

/// Relies on `unicode_segmentation::UnicodeSegmentation::graphemes`: the
/// iterator partitions the text into its extended grapheme clusters, a
/// function of the characters alone. Each cluster holds at least one
/// character, so there are no more clusters than characters, and an empty
/// text has none.
#[verifier::external_body]
pub fn count_graphemes(s: &str) -> (n: usize)
    ensures
        n as int == grapheme_count(s@),
        n as int <= s@.len(),
        s@.len() == 0 ==> n == 0,
{
    s.graphemes(true).count()
}

/// Relies on `unicode_width::UnicodeWidthChar::width`: the displayed width
/// in columns is a function of the character alone; a printable ASCII
/// character is one column wide, and a control character (`None`) is
/// rendered here as zero columns.
#[verifier::external_body]
pub fn display_width_of_char(c: char) -> (w: usize)
    ensures
        w as int == char_display_width(c),
        0x20 <= (c as u32) < 0x7f ==> w == 1,
{
    c.width().unwrap_or(0)
}

} // verus!
