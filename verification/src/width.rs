//! The graphemes of text and the columns that it takes on a terminal.

use unicode_segmentation::UnicodeSegmentation;
use unicode_width::UnicodeWidthStr;
use vstd::prelude::*;

verus! {

/// The number of columns that a text takes.
pub uninterp spec fn width_of(text: Seq<char>) -> usize;

/// The display width of a text by `UnicodeWidthStr::width`.
#[verifier::external_body]
pub(crate) fn text_width(text: &str) -> (width: usize)
    ensures
        width == width_of(text@),
{
    text.width()
}

/// The extended grapheme clusters of a text.
pub uninterp spec fn graphemes_of(text: Seq<char>) -> Seq<Seq<char>>;

/// What the strings hold.
pub open spec fn grapheme_views(graphemes: Seq<String>) -> Seq<Seq<char>> {
    graphemes.map_values(|grapheme: String| grapheme@)
}

/// The extended grapheme clusters of a text by `UnicodeSegmentation::graphemes`, which are a
/// function of the text.
#[verifier::external_body]
pub(crate) fn split_graphemes(text: &str) -> (graphemes: Vec<String>)
    ensures
        grapheme_views(graphemes@) == graphemes_of(text@),
{
    text.graphemes(true).map(|grapheme| grapheme.to_string()).collect()
}

} // verus!
