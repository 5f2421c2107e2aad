use vstd::prelude::*;
use vstd::string::StrSliceExecFns;

use crate::chars::{lower_or_digit_initial, str_views};

verus! {

/// The evidence set holds exactly the words that tell against proper-noun
/// status.
pub open spec fn evidence_matches(evs: Seq<Seq<char>>, words: Seq<Seq<char>>) -> bool {
    forall|w: Seq<char>|
        #[trigger] evs.contains(w) <==> (words.contains(w) && lower_or_digit_initial(w))
}

fn word_lower_or_digit_initial(w: &str) -> (r: bool)
    ensures
        r == lower_or_digit_initial(w@),
{
    let n = w.unicode_len();
    if n == 0 {
        true
    } else {
        let c = w.get_char(0);
        ('a' <= c && c <= 'z') || ('0' <= c && c <= '9')
    }
}

/// Collects the evidence against proper-noun status: every word, as it
/// appears (original case, already stripped), that is empty or starts with an
/// ASCII lowercase letter or digit.
pub fn collect_evidence(words: &Vec<String>) -> (r: Vec<String>)
    ensures
        evidence_matches(str_views(r@), str_views(words@)),
{
    let ghost ws = str_views(words@);
    let mut out: Vec<String> = Vec::new();
    let mut j: usize = 0;
    while j < words.len()
        invariant
            j <= words@.len(),
            ws == str_views(words@),
            forall|k: int|
                0 <= k < out@.len() ==> ws.contains(#[trigger] str_views(out@)[k])
                    && lower_or_digit_initial(str_views(out@)[k]),
            forall|k: int|
                0 <= k < j ==> lower_or_digit_initial(#[trigger] ws[k]) ==> str_views(
                    out@,
                ).contains(ws[k]),
        decreases words@.len() - j,
    {
        let ghost old_out = out@;
        if word_lower_or_digit_initial(words[j].as_str()) {
            out.push(words[j].clone());
            proof {
                assert(str_views(out@) =~= str_views(old_out).push(ws[j as int]));
                assert forall|k: int|
                    0 <= k < j + 1 && lower_or_digit_initial(#[trigger] ws[k]) implies str_views(
                    out@,
                ).contains(ws[k]) by {
                    if k < j {
                        let m = choose|m: int|
                            0 <= m < str_views(old_out).len() && str_views(old_out)[m] == ws[k];
                        assert(str_views(out@)[m] == ws[k]);
                    } else {
                        assert(str_views(out@)[old_out.len() as int] == ws[j as int]);
                    }
                }
            }
        }
        j = j + 1;
    }
    proof {
        assert forall|w: Seq<char>|
            #[trigger] str_views(out@).contains(w) <==> (ws.contains(w) && lower_or_digit_initial(
                w,
            )) by {
            if str_views(out@).contains(w) {
                let k = choose|k: int| 0 <= k < str_views(out@).len() && str_views(out@)[k] == w;
                assert(ws.contains(str_views(out@)[k]));
            }
            if ws.contains(w) && lower_or_digit_initial(w) {
                let k = choose|k: int| 0 <= k < ws.len() && ws[k] == w;
                assert(lower_or_digit_initial(ws[k]) ==> str_views(out@).contains(ws[k]));
            }
        }
    }
    out
}

} // verus!
