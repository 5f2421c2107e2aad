use vstd::prelude::*;

use crate::chars::{lower_or_digit_initial, lower_seq, str_views};
use crate::evidence::{collect_evidence, evidence_matches};
use crate::rank::{
    contains_token, count_of, count_tokens, entry_views, kept_entry,
    lemma_proper_filter_membership, lemma_proper_filter_sorted, lemma_strict_sorted_unique,
    proper_filter_spec, proper_noun_filter, same_entry, sort_entries, strict_sorted, sum_counts,
    tokens_distinct, FrequencyEntry,
};
use crate::split::{split_whitespace_tokens, split_ws};
use crate::stem::{english_stem_of, stem_english};
use crate::stopwords::{build_stop_set, contains_string, stop_set_spec};
use crate::strip::{strip_symbols, stripped_of};

verus! {

/// The flags of one analysis run. The input path and the output destination
/// live with the caller; the analysis itself reads only these switches.
pub struct RunConfig {
    pub strip_punctuation: bool,
    pub lowercase: bool,
    pub stem: bool,
    pub remove_stop_words: bool,
    pub proper_noun_filter: bool,
}

/// The text as tokenization sees it: stripped of symbols when stripping is
/// on, untouched otherwise (punctuation then stays inside the words, a total
/// behaviour in either case).
pub open spec fn stripped_text_spec(t: Seq<char>, strip: bool) -> Seq<char> {
    if strip {
        stripped_of(t)
    } else {
        t
    }
}

/// The words of the run, before any case folding: what the proper-noun
/// evidence is collected from.
pub open spec fn raw_words_spec(t: Seq<char>, strip: bool) -> Seq<Seq<char>> {
    split_ws(stripped_text_spec(t, strip))
}

/// Whether a word form counts as evidence against proper-noun status: it was
/// observed in the text (before lowercasing) starting with an ASCII lowercase
/// letter or digit.
pub open spec fn in_evidence_spec(t: Seq<char>, strip: bool, w: Seq<char>) -> bool {
    raw_words_spec(t, strip).contains(w) && lower_or_digit_initial(w)
}

/// The tokens that survive normalization: each word is case-folded when the
/// lowercase flag is set, dropped if it is then a stop word, and replaced by
/// its stem when stemming is on.
pub open spec fn survivors(words: Seq<Seq<char>>, lowercase: bool, stem: bool, remove: bool) -> Seq<
    Seq<char>,
>
    decreases words.len(),
{
    if words.len() == 0 {
        Seq::<Seq<char>>::empty()
    } else {
        let rest = survivors(words.drop_last(), lowercase, stem, remove);
        let w = if lowercase {
            lower_seq(words.last())
        } else {
            words.last()
        };
        if stop_set_spec(remove).contains(w) {
            rest
        } else {
            rest.push(
                if stem {
                    english_stem_of(w)
                } else {
                    w
                },
            )
        }
    }
}

/// All tokens that the counting stage receives, in document order.
pub open spec fn surviving_tokens_spec(t: Seq<char>, cfg: RunConfig) -> Seq<Seq<char>> {
    survivors(
        raw_words_spec(t, cfg.strip_punctuation),
        cfg.lowercase,
        cfg.stem,
        cfg.remove_stop_words,
    )
}

/// Whether a (count, token) pair belongs in the final report: a positive
/// count always; under the proper-noun filter, a count above one and no
/// lowercase-initial occurrence of the token's lowercase form in the text.
pub open spec fn entry_kept_spec(t: Seq<char>, cfg: RunConfig, count: nat, token: Seq<char>) -> bool {
    count > 0 && (cfg.proper_noun_filter ==> count > 1 && !in_evidence_spec(
        t,
        cfg.strip_punctuation,
        lower_seq(token),
    ))
}

/// The full contract of one analysis run: the result is strictly ordered by
/// (count descending, token descending), holds each kept token exactly once
/// with its exact occurrence count, and holds every kept token.
pub open spec fn is_run_output(t: Seq<char>, cfg: RunConfig, r: Seq<FrequencyEntry>) -> bool {
    let toks = surviving_tokens_spec(t, cfg);
    &&& strict_sorted(r)
    &&& tokens_distinct(r)
    &&& forall|k: int|
        0 <= k < r.len() ==> (#[trigger] r[k]).count == count_of(toks, r[k].token@)
            && entry_kept_spec(t, cfg, r[k].count as nat, r[k].token@)
    &&& forall|tok: Seq<char>|
        #[trigger] count_of(toks, tok) > 0 && entry_kept_spec(t, cfg, count_of(toks, tok), tok)
            ==> contains_token(r, tok)
}

/// Runs the whole analysis: builds the stop-word set, strips the text, splits
/// it into words, collects the proper-noun evidence, case-folds, drops stop
/// words, stems, counts, ranks, and applies the proper-noun filter when the
/// flag asks for it.
pub fn analyze(text: &str, cfg: &RunConfig) -> (r: Vec<FrequencyEntry>)
    ensures
        is_run_output(text@, *cfg, r@),
        !cfg.proper_noun_filter ==> sum_counts(r@) == surviving_tokens_spec(text@, *cfg).len(),
        text@.len() == 0 ==> r@.len() == 0,
{
    let ghost t = text@;
    let stop = build_stop_set(cfg.remove_stop_words);
    let text1: String = if cfg.strip_punctuation {
        strip_symbols(text)
    } else {
        text.to_owned()
    };
    assert(text1@ == stripped_text_spec(t, cfg.strip_punctuation));
    let words = split_whitespace_tokens(text1.as_str());
    let ghost ws = str_views(words@);
    assert(ws == raw_words_spec(t, cfg.strip_punctuation));
    let evidence = collect_evidence(&words);
    let ghost ev = str_views(evidence@);
    let mut toks: Vec<String> = Vec::new();
    let mut j: usize = 0;
    while j < words.len()
        invariant
            j <= words@.len(),
            ws == str_views(words@),
            str_views(stop@) == stop_set_spec(cfg.remove_stop_words),
            str_views(toks@) == survivors(
                ws.take(j as int),
                cfg.lowercase,
                cfg.stem,
                cfg.remove_stop_words,
            ),
        decreases words@.len() - j,
    {
        proof {
            assert(ws.take(j as int + 1).drop_last() =~= ws.take(j as int));
            assert(ws.take(j as int + 1).last() == ws[j as int]);
        }
        let ghost old_toks = toks@;
        let w: String = if cfg.lowercase {
            crate::chars::ascii_lower(words[j].as_str())
        } else {
            words[j].clone()
        };
        let ghost wv = w@;
        assert(wv == if cfg.lowercase {
            lower_seq(ws[j as int])
        } else {
            ws[j as int]
        });
        if !contains_string(&stop, &w) {
            let w2: String = if cfg.stem {
                stem_english(w.as_str())
            } else {
                w
            };
            assert(w2@ == if cfg.stem {
                english_stem_of(wv)
            } else {
                wv
            });
            toks.push(w2);
            proof {
                assert(str_views(toks@) =~= str_views(old_toks).push(w2@));
            }
        }
        j = j + 1;
    }
    proof {
        assert(ws.take(words@.len() as int) =~= ws);
    }
    let ghost toksv = surviving_tokens_spec(t, *cfg);
    assert(str_views(toks@) == toksv);
    let counted = count_tokens(&toks);
    let ghost cv = counted@;
    let ranked = sort_entries(counted);
    proof {
        assert(toksv.len() == toks@.len());
        assert forall|k: int|
            0 <= k < ranked@.len() implies (#[trigger] ranked@[k]).count == count_of(
            toksv,
            ranked@[k].token@,
        ) && ranked@[k].count > 0 by {
            assert(cv.contains(ranked@[k]));
            let m = choose|m: int| 0 <= m < cv.len() && cv[m] == ranked@[k];
            assert(cv[m].count == count_of(toksv, cv[m].token@) && cv[m].count > 0);
        }
        assert forall|tok: Seq<char>| #[trigger] count_of(toksv, tok) > 0 implies contains_token(
            ranked@,
            tok,
        ) by {
            assert(contains_token(cv, tok));
            let m = choose|m: int| 0 <= m < cv.len() && cv[m].token@ == tok;
            assert(ranked@.contains(cv[m]));
            let m2 = choose|m2: int| 0 <= m2 < ranked@.len() && ranked@[m2] == cv[m];
            assert(ranked@[m2].token@ == tok);
        }
        if t.len() == 0 {
            assert(text1@.len() == 0);
            assert(ws.len() == 0);
            assert(toksv.len() == 0);
            if ranked@.len() > 0 {
                assert(ranked@[0].count == count_of(toksv, ranked@[0].token@));
                assert(count_of(toksv, ranked@[0].token@) == 0);
                assert(false);
            }
        }
        assert(evidence_matches(ev, ws));
    }
    if cfg.proper_noun_filter {
        let filtered = proper_noun_filter(&ranked, &evidence);
        proof {
            lemma_proper_filter_sorted(ranked@, ev);
            assert forall|k: int|
                0 <= k < filtered@.len() implies (#[trigger] filtered@[k]).count == count_of(
                toksv,
                filtered@[k].token@,
            ) && entry_kept_spec(t, *cfg, filtered@[k].count as nat, filtered@[k].token@) by {
                let e = filtered@[k];
                assert(proper_filter_spec(ranked@, ev).contains(e));
                lemma_proper_filter_membership(ranked@, ev, e);
                let m = choose|m: int| 0 <= m < ranked@.len() && ranked@[m] == e;
                assert(ranked@[m].count == count_of(toksv, ranked@[m].token@));
                assert(kept_entry(e, ev));
                assert(ev.contains(lower_seq(e.token@)) == in_evidence_spec(
                    t,
                    cfg.strip_punctuation,
                    lower_seq(e.token@),
                ));
            }
            assert forall|tok: Seq<char>|
                #[trigger] count_of(toksv, tok) > 0 && entry_kept_spec(
                    t,
                    *cfg,
                    count_of(toksv, tok),
                    tok,
                ) implies contains_token(filtered@, tok) by {
                assert(contains_token(ranked@, tok));
                let m = choose|m: int| 0 <= m < ranked@.len() && ranked@[m].token@ == tok;
                let e = ranked@[m];
                assert(e.count == count_of(toksv, tok));
                assert(ev.contains(lower_seq(tok)) == in_evidence_spec(
                    t,
                    cfg.strip_punctuation,
                    lower_seq(tok),
                ));
                assert(kept_entry(e, ev));
                lemma_proper_filter_membership(ranked@, ev, e);
                assert(ranked@[m] == e);
                assert(ranked@.contains(e));
                assert(proper_filter_spec(ranked@, ev).contains(e));
                let m2 = choose|m2: int| 0 <= m2 < filtered@.len() && filtered@[m2] == e;
                assert(filtered@[m2].token@ == tok);
            }
            if t.len() == 0 {
                assert(ranked@.len() == 0);
                assert(filtered@.len() == 0);
            }
        }
        filtered
    } else {
        proof {
            assert forall|k: int|
                0 <= k < ranked@.len() implies entry_kept_spec(
                t,
                *cfg,
                (#[trigger] ranked@[k]).count as nat,
                ranked@[k].token@,
            ) by {}
        }
        ranked
    }
}

/// One analysis, one answer: any two results that meet the run contract for
/// the same text and flags hold the same (count, token) pairs in the same
/// order. Ranking, and sorting an already ranked list again, cannot give a
/// second answer.
pub proof fn lemma_analysis_deterministic(
    t: Seq<char>,
    cfg: RunConfig,
    r1: Seq<FrequencyEntry>,
    r2: Seq<FrequencyEntry>,
)
    requires
        is_run_output(t, cfg, r1),
        is_run_output(t, cfg, r2),
    ensures
        entry_views(r1) == entry_views(r2),
{
    let toks = surviving_tokens_spec(t, cfg);
    assert forall|tok: Seq<char>| contains_token(r1, tok) implies contains_token(r2, tok) by {
        let k = choose|k: int| 0 <= k < r1.len() && r1[k].token@ == tok;
        assert(r1[k].count == count_of(toks, tok));
        assert(count_of(toks, tok) > 0);
    }
    assert forall|tok: Seq<char>| contains_token(r2, tok) implies contains_token(r1, tok) by {
        let k = choose|k: int| 0 <= k < r2.len() && r2[k].token@ == tok;
        assert(r2[k].count == count_of(toks, tok));
        assert(count_of(toks, tok) > 0);
    }
    assert forall|i: int, j: int|
        0 <= i < r1.len() && 0 <= j < r2.len() && (#[trigger] r1[i]).token@ == (
        #[trigger] r2[j]).token@ implies r1[i].count == r2[j].count by {
        assert(r1[i].count == count_of(toks, r1[i].token@));
        assert(r2[j].count == count_of(toks, r2[j].token@));
    }
    lemma_strict_sorted_unique(r1, r2);
}

/// The proper-noun filter yields a subset: every entry of a filtered run
/// stands, with the same count and token, in the unfiltered run over the same
/// text and otherwise identical flags.
pub proof fn lemma_proper_filter_subset(
    t: Seq<char>,
    cfg_on: RunConfig,
    cfg_off: RunConfig,
    r_on: Seq<FrequencyEntry>,
    r_off: Seq<FrequencyEntry>,
    k: int,
)
    requires
        cfg_on.proper_noun_filter,
        !cfg_off.proper_noun_filter,
        cfg_on.strip_punctuation == cfg_off.strip_punctuation,
        cfg_on.lowercase == cfg_off.lowercase,
        cfg_on.stem == cfg_off.stem,
        cfg_on.remove_stop_words == cfg_off.remove_stop_words,
        is_run_output(t, cfg_on, r_on),
        is_run_output(t, cfg_off, r_off),
        0 <= k < r_on.len(),
    ensures
        exists|m: int| 0 <= m < r_off.len() && same_entry(r_on[k], #[trigger] r_off[m]),
{
    let toks = surviving_tokens_spec(t, cfg_on);
    assert(toks == surviving_tokens_spec(t, cfg_off));
    let tok = r_on[k].token@;
    assert(r_on[k].count == count_of(toks, tok));
    assert(count_of(toks, tok) > 0);
    assert(entry_kept_spec(t, cfg_off, count_of(toks, tok), tok));
    assert(contains_token(r_off, tok));
    let m = choose|m: int| 0 <= m < r_off.len() && r_off[m].token@ == tok;
    assert(r_off[m].count == count_of(toks, tok));
    assert(same_entry(r_on[k], r_off[m]));
}

} // verus!

