//! What the Unicode tables decide: white space, letters, display width and
//! grapheme clusters.

use vstd::prelude::*;
use unicode_segmentation::UnicodeSegmentation;
use unicode_width::UnicodeWidthStr;

verus! {

/// Whether `c` has the Unicode property `White_Space`.
pub uninterp spec fn white_space(c: char) -> bool;

/// The number of terminal columns that `text` takes when it is shown.
pub uninterp spec fn display_width(text: Seq<char>) -> usize;

/// The byte offsets at which the extended grapheme clusters of `text`
/// begin, in their order.
pub uninterp spec fn grapheme_starts(text: Seq<char>) -> Seq<usize>;

/// Whether `c` has the Unicode property `Alphabetic`.
pub uninterp spec fn alphabetic(c: char) -> bool;

/// `char::is_alphabetic` of the standard library. Which characters are
/// alphabetic is a matter of the Unicode character database: the result is
/// known here only by its name, [`alphabetic`].
#[verifier::external_body]
pub(crate) fn is_alphabetic(c: char) -> (letter: bool)
    ensures
        letter == alphabetic(c),
{
    c.is_alphabetic()
}

/// `char::is_whitespace` of the standard library. Which characters are
/// white space is a matter of the Unicode character database: the result is
/// known here only by its name, [`white_space`].
#[verifier::external_body]
pub(crate) fn is_whitespace(c: char) -> (white: bool)
    ensures
        white == white_space(c),
{
    c.is_whitespace()
}

/// `UnicodeWidthStr::width` of the crate `unicode-width`: the displayed
/// width of a string in columns, by Unicode Standard Annex #11, with
/// ambiguous characters taken as narrow. It depends on the string alone;
/// the tables behind it are not restated, so the result is known here only
/// by its name, [`display_width`].
#[verifier::external_body]
pub(crate) fn str_width(text: &str) -> (width: usize)
    ensures
        width == display_width(text@),
{
    text.width()
}

/// `UnicodeSegmentation::grapheme_indices` of the crate
/// `unicode-segmentation`, asked for extended grapheme clusters: of each
/// cluster that the iterator hands out, the byte offset at which it begins.
/// Where the clusters of a string begin is a matter of Unicode Standard
/// Annex #29 and depends on the string alone; the offsets are known here
/// only by their name, [`grapheme_starts`].
#[verifier::external_body]
pub(crate) fn grapheme_offsets(text: &str) -> (offsets: Vec<usize>)
    ensures
        offsets@ == grapheme_starts(text@),
{
    text.grapheme_indices(true).map(|(offset, _)| offset).collect()
}

} // verus!
