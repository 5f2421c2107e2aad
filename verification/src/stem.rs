use vstd::prelude::*;

verus! {

/// The Snowball English stem of a word: a fixed rule-based function of the
/// word alone.
pub uninterp spec fn english_stem_of(w: Seq<char>) -> Seq<char>;

/// Relies on rust_stemmers::Stemmer::create with Algorithm::English and
/// Stemmer::stem: the Snowball English stemmer is deterministic, so the stem
/// depends on the word alone.
#[verifier::external_body]
pub(crate) fn stem_english(w: &str) -> (r: String)
    ensures
        r@ == english_stem_of(w@),
{
    rust_stemmers::Stemmer::create(rust_stemmers::Algorithm::English).stem(w).into_owned()
}

} // verus!
