//! English stemming, done by the Snowball stemmer of the `rust_stemmers`
//! crate.

use vstd::prelude::*;

verus! {

/// The longest word, in characters, that is handed to the stemmer. The
/// stemmer keeps its positions in 32-bit signed integers, counted in bytes of
/// UTF-8; a word of this length stays below that limit.
pub const MAX_STEM_CHARS: usize = 0x0FFF_FFFF;

/// The stem that the Snowball English stemmer gives for `word`.
pub uninterp spec fn english_stem(word: Seq<char>) -> Seq<char>;

/// Calls `rust_stemmers::Stemmer::stem` on a stemmer created for
/// `Algorithm::English`. The stemmer reads nothing but the word, so its
/// answer is a function of the word alone, and that is all that is claimed
/// here. Words beyond `MAX_STEM_CHARS` are kept away from it.
#[verifier::external_body]
pub(crate) fn stem(word: &str) -> (stemmed: String)
    requires
        word@.len() <= MAX_STEM_CHARS,
    ensures
        stemmed@ == english_stem(word@),
{
    rust_stemmers::Stemmer::create(rust_stemmers::Algorithm::English).stem(word).into_owned()
}

} // verus!
