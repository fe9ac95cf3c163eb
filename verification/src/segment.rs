//! Trusted boundary to the Unicode text segmentation and case folding the
//! indexes tokenize with. Each outside routine is a function of its input
//! characters alone, so its result is given a name that the verified
//! contracts build on.
use vstd::prelude::*;

verus! {

/// The UAX#29 words of a character sequence.
pub uninterp spec fn words_of(s: Seq<char>) -> Seq<Seq<char>>;

/// The extended grapheme clusters of a character sequence.
pub uninterp spec fn graphemes_of(s: Seq<char>) -> Seq<Seq<char>>;

/// The lowercase form of a character sequence.
pub uninterp spec fn lower_of(s: Seq<char>) -> Seq<char>;

/// Relies on unicode-segmentation's `unicode_words`: splits on UAX#29 word
/// boundaries and keeps the substrings holding an alphanumeric character.
/// The result depends on the characters alone; words are nonempty
/// substrings between boundaries and never hold a space.
#[verifier::external_body]
pub fn unicode_words_vec(s: &str) -> (r: Vec<String>)
    ensures
        r.deep_view() == words_of(s@),
        s@.len() == 0 ==> r@.len() == 0,
        forall|i: int|
            0 <= i < r@.len() ==> (#[trigger] r@[i]@).len() > 0 && !r@[i]@.contains(' '),
{
    unicode_segmentation::UnicodeSegmentation::unicode_words(s).map(|w| w.to_string()).collect()
}

/// Relies on unicode-segmentation's `graphemes` (extended clusters): the
/// clusters partition the string, so they are nonempty and concatenate
/// back to it, and depend on the characters alone.
#[verifier::external_body]
pub fn graphemes_vec(s: &str) -> (r: Vec<String>)
    ensures
        r.deep_view() == graphemes_of(s@),
        r.deep_view().flatten() == s@,
        forall|i: int| 0 <= i < r@.len() ==> (#[trigger] r@[i]@).len() > 0,
{
    unicode_segmentation::UnicodeSegmentation::graphemes(s, true).map(|g| g.to_string()).collect()
}

/// Relies on `str::to_lowercase` from std: the Unicode lowercase of the
/// string, a function of its characters alone; empty stays empty.
#[verifier::external_body]
pub fn lowercase(s: &str) -> (r: String)
    ensures
        r@ == lower_of(s@),
        s@.len() == 0 ==> r@.len() == 0,
{
    s.to_lowercase()
}

} // verus!
