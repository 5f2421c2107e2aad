use vstd::prelude::*;

verus! {

/// What symbol stripping leaves of a text: every character that is not a
/// Unicode word character, white space or an apostrophe is removed, and so is
/// every underscore.
pub uninterp spec fn stripped_of(s: Seq<char>) -> Seq<char>;

/// Relies on regex::Regex::replace_all with the fixed pattern below: it
/// removes exactly the matched characters, so the result depends on the input
/// alone, no removable character survives (stripping the result again changes
/// nothing), and an empty input gives an empty result.
#[verifier::external_body]
pub(crate) fn strip_symbols(s: &str) -> (r: String)
    ensures
        r@ == stripped_of(s@),
        stripped_of(r@) == r@,
        s@.len() == 0 ==> r@.len() == 0,
{
    let re = regex::Regex::new(r"[^\w\s\d']|[_]").unwrap();
    re.replace_all(s, "").into_owned()
}

} // verus!
