//! Grapheme segmentation and display width, as computed by the Unicode crates.
use vstd::prelude::*;
use unicode_segmentation::UnicodeSegmentation;
use unicode_width::UnicodeWidthStr;

verus! {

/// The extended grapheme clusters of a text, in order.
pub uninterp spec fn grapheme_clusters(s: Seq<char>) -> Seq<Seq<char>>;

/// The number of terminal cells a text occupies.
pub uninterp spec fn display_width(s: Seq<char>) -> nat;

/// Relies on `UnicodeSegmentation::graphemes(s, true)`: the extended grapheme
/// clusters of `s`, none of them empty, which together spell `s` out.
#[verifier::external_body]
pub(crate) fn graphemes_of(s: &str) -> (r: Vec<&str>)
    ensures
        r@.map_values(|g: &str| g@) == grapheme_clusters(s@),
        r@.map_values(|g: &str| g@).flatten() == s@,
        forall|i: int| 0 <= i < r@.len() ==> r@[i]@.len() > 0,
{
    s.graphemes(true).collect()
}

/// Relies on `UnicodeWidthStr::width`: the display width of `s` in columns.
#[verifier::external_body]
pub(crate) fn str_width(s: &str) -> (r: usize)
    ensures
        r as nat == display_width(s@),
{
    UnicodeWidthStr::width(s)
}

} // verus!
