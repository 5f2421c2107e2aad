use vstd::prelude::*;

use crate::chars::str_views;
use crate::strip::{strip_symbols, stripped_of};

verus! {

/// The fixed stop-word list that the stop_words crate compiles in for a
/// supported language code.
pub uninterp spec fn stop_words_for(lang: Seq<char>) -> Seq<Seq<char>>;

/// Relies on stop_words::get: the list of a supported language code is a
/// fixed table compiled into that crate, so it depends on the code alone; the
/// code "en" (English) is always enabled, so the call cannot panic.
#[verifier::external_body]
fn fetch_english_stop_words() -> (r: Vec<String>)
    ensures
        str_views(r@) == stop_words_for("en"@),
{
    stop_words::get("en").iter().map(|w| (*w).to_string()).collect()
}

/// The stop-word set of a run: empty when stop-word removal is off, otherwise
/// the fixed English list with every entry passed through the same stripping
/// transform that the input text undergoes.
pub open spec fn stop_set_spec(enabled: bool) -> Seq<Seq<char>> {
    if enabled {
        stop_words_for("en"@).map_values(|w: Seq<char>| stripped_of(w))
    } else {
        Seq::<Seq<char>>::empty()
    }
}

/// Builds the stop-word set. Every stored entry is already stripped, so a
/// second stripping changes no entry: membership tests against stripped
/// tokens are meaningful.
pub fn build_stop_set(enabled: bool) -> (r: Vec<String>)
    ensures
        str_views(r@) == stop_set_spec(enabled),
        forall|i: int| 0 <= i < r@.len() ==> stripped_of(#[trigger] r@[i]@) == r@[i]@,
{
    if !enabled {
        let r: Vec<String> = Vec::new();
        assert(str_views(r@) =~= stop_set_spec(false));
        return r;
    }
    let raw = fetch_english_stop_words();
    let mut out: Vec<String> = Vec::new();
    let mut i: usize = 0;
    while i < raw.len()
        invariant
            i <= raw.len(),
            str_views(raw@) == stop_words_for("en"@),
            out@.len() == i,
            forall|k: int|
                0 <= k < i ==> #[trigger] out@[k]@ == stripped_of(stop_words_for("en"@)[k]),
            forall|k: int| 0 <= k < i ==> stripped_of(#[trigger] out@[k]@) == out@[k]@,
        decreases raw.len() - i,
    {
        let entry = strip_symbols(raw[i].as_str());
        assert(raw@[i as int]@ == stop_words_for("en"@)[i as int]);
        out.push(entry);
        i = i + 1;
    }
    assert(str_views(out@) =~= stop_set_spec(true));
    out
}

/// Whether one of the strings of `v` holds exactly the characters of `s`.
pub fn contains_string(v: &Vec<String>, s: &String) -> (r: bool)
    ensures
        r == str_views(v@).contains(s@),
{
    let mut i: usize = 0;
    while i < v.len()
        invariant
            i <= v.len(),
            forall|k: int| 0 <= k < i ==> #[trigger] v@[k]@ != s@,
        decreases v.len() - i,
    {
        if v[i].eq(s) {
            assert(str_views(v@)[i as int] == s@);
            return true;
        }
        i = i + 1;
    }
    assert(forall|k: int| 0 <= k < v@.len() ==> #[trigger] str_views(v@)[k] != s@);
    false
}

} // verus!
