use vstd::prelude::*;

use crate::chars::{lower_seq, str_views};
use crate::order::{
    lemma_lex_asym, lemma_lex_connected, lemma_lex_irrefl, lemma_lex_trans, lex_lt, str_lex_lt,
};

verus! {

/// One line of the ranked report: a token and how often it occurred.
pub struct FrequencyEntry {
    pub count: usize,
    pub token: String,
}

/// The ranked order: by count descending, ties broken by token descending.
pub open spec fn precedes(a: FrequencyEntry, b: FrequencyEntry) -> bool {
    a.count > b.count || (a.count == b.count && lex_lt(b.token@, a.token@))
}

/// Two entries that carry the same (count, token) pair.
pub open spec fn same_entry(a: FrequencyEntry, b: FrequencyEntry) -> bool {
    a.count == b.count && a.token@ == b.token@
}

pub open spec fn precedes_eq(a: FrequencyEntry, b: FrequencyEntry) -> bool {
    precedes(a, b) || same_entry(a, b)
}

/// Strictly ordered: every earlier entry comes strictly before every later
/// one, so the list is a total order with no repeated pair.
pub open spec fn strict_sorted(s: Seq<FrequencyEntry>) -> bool {
    forall|i: int, j: int| 0 <= i < j < s.len() ==> precedes(s[i], s[j])
}

pub open spec fn tokens_distinct(s: Seq<FrequencyEntry>) -> bool {
    forall|i: int, j: int| 0 <= i < j < s.len() ==> s[i].token@ != s[j].token@
}

pub open spec fn contains_token(s: Seq<FrequencyEntry>, t: Seq<char>) -> bool {
    exists|k: int| 0 <= k < s.len() && s[k].token@ == t
}

/// How often a token occurs in a token sequence.
pub open spec fn count_of(toks: Seq<Seq<char>>, t: Seq<char>) -> nat
    decreases toks.len(),
{
    if toks.len() == 0 {
        0
    } else {
        count_of(toks.drop_last(), t) + (if toks.last() == t {
            1nat
        } else {
            0nat
        })
    }
}

/// The sum of all counts of a list of entries.
pub open spec fn sum_counts(s: Seq<FrequencyEntry>) -> nat
    decreases s.len(),
{
    if s.len() == 0 {
        0
    } else {
        sum_counts(s.drop_last()) + s.last().count as nat
    }
}

/// The (count, token) pairs an entry list holds, in order.
pub open spec fn entry_views(s: Seq<FrequencyEntry>) -> Seq<(nat, Seq<char>)> {
    s.map_values(|e: FrequencyEntry| (e.count as nat, e.token@))
}

pub proof fn lemma_precedes_irrefl(a: FrequencyEntry, b: FrequencyEntry)
    requires
        same_entry(a, b),
    ensures
        !precedes(a, b),
{
    lemma_lex_irrefl(a.token@);
}

pub proof fn lemma_precedes_asym(a: FrequencyEntry, b: FrequencyEntry)
    requires
        precedes(a, b),
    ensures
        !precedes(b, a),
{
    if a.count == b.count {
        lemma_lex_asym(b.token@, a.token@);
    }
}

pub proof fn lemma_precedes_total(a: FrequencyEntry, b: FrequencyEntry)
    ensures
        precedes_eq(a, b) || precedes(b, a),
{
    if a.count == b.count && a.token@ != b.token@ {
        lemma_lex_connected(a.token@, b.token@);
    }
}

pub proof fn lemma_precedes_trans(a: FrequencyEntry, b: FrequencyEntry, c: FrequencyEntry)
    requires
        precedes(a, b),
        precedes_eq(b, c),
    ensures
        precedes(a, c),
{
    if a.count == b.count && b.count == c.count {
        if b.token@ == c.token@ {
        } else {
            lemma_lex_trans(c.token@, b.token@, a.token@);
        }
    }
}

fn entry_before_eq(a: &FrequencyEntry, b: &FrequencyEntry) -> (r: bool)
    ensures
        r == precedes_eq(*a, *b),
{
    if a.count > b.count {
        true
    } else if a.count < b.count {
        false
    } else {
        let lt = str_lex_lt(a.token.as_str(), b.token.as_str());
        proof {
            if a.token@ == b.token@ {
                lemma_lex_irrefl(a.token@);
            } else {
                lemma_lex_connected(a.token@, b.token@);
                if lex_lt(a.token@, b.token@) {
                    lemma_lex_asym(a.token@, b.token@);
                }
            }
        }
        !lt
    }
}

proof fn lemma_count_of_le_len(toks: Seq<Seq<char>>, t: Seq<char>)
    ensures
        count_of(toks, t) <= toks.len(),
    decreases toks.len(),
{
    if toks.len() > 0 {
        lemma_count_of_le_len(toks.drop_last(), t);
    }
}

proof fn lemma_count_of_step(toks: Seq<Seq<char>>, j: int, t: Seq<char>)
    requires
        0 <= j < toks.len(),
    ensures
        count_of(toks.take(j + 1), t) == count_of(toks.take(j), t) + (if toks[j] == t {
            1int
        } else {
            0int
        }),
{
    assert(toks.take(j + 1).drop_last() =~= toks.take(j));
    assert(toks.take(j + 1).last() == toks[j]);
}

proof fn lemma_sum_update(s: Seq<FrequencyEntry>, i: int, e: FrequencyEntry)
    requires
        0 <= i < s.len(),
    ensures
        sum_counts(s.update(i, e)) + s[i].count == sum_counts(s) + e.count,
    decreases s.len(),
{
    if i == s.len() - 1 {
        assert(s.update(i, e).drop_last() =~= s.drop_last());
        assert(s.update(i, e).last() == e);
    } else {
        assert(s.update(i, e).drop_last() =~= s.drop_last().update(i, e));
        assert(s.update(i, e).last() == s.last());
        lemma_sum_update(s.drop_last(), i, e);
    }
}

proof fn lemma_sum_remove(s: Seq<FrequencyEntry>, i: int)
    requires
        0 <= i < s.len(),
    ensures
        sum_counts(s.remove(i)) + s[i].count == sum_counts(s),
    decreases s.len(),
{
    if i == s.len() - 1 {
        assert(s.remove(i) =~= s.drop_last());
    } else {
        assert(s.remove(i).drop_last() =~= s.drop_last().remove(i));
        assert(s.remove(i).last() == s.last());
        lemma_sum_remove(s.drop_last(), i);
    }
}

fn find_token(entries: &Vec<FrequencyEntry>, t: &String) -> (r: Option<usize>)
    ensures
        match r {
            Some(idx) => idx < entries@.len() && entries@[idx as int].token@ == t@,
            None => forall|k: int| 0 <= k < entries@.len() ==> entries@[k].token@ != t@,
        },
{
    let mut i: usize = 0;
    while i < entries.len()
        invariant
            i <= entries@.len(),
            forall|k: int| 0 <= k < i ==> entries@[k].token@ != t@,
        decreases entries@.len() - i,
    {
        if entries[i].token.eq(t) {
            return Some(i);
        }
        i = i + 1;
    }
    None
}

/// Counts how often each distinct token occurs. Every entry carries a
/// positive count, tokens are unique across entries, every token of the input
/// is covered, and the counts add up to the number of tokens.
pub fn count_tokens(tokens: &Vec<String>) -> (r: Vec<FrequencyEntry>)
    ensures
        tokens_distinct(r@),
        forall|k: int|
            0 <= k < r@.len() ==> (#[trigger] r@[k]).count == count_of(
                str_views(tokens@),
                r@[k].token@,
            ) && r@[k].count > 0,
        forall|t: Seq<char>| count_of(str_views(tokens@), t) > 0 ==> contains_token(r@, t),
        sum_counts(r@) == tokens@.len(),
{
    let ghost toks = str_views(tokens@);
    let mut entries: Vec<FrequencyEntry> = Vec::new();
    let mut j: usize = 0;
    while j < tokens.len()
        invariant
            j <= tokens@.len(),
            toks == str_views(tokens@),
            toks.len() == tokens@.len(),
            tokens_distinct(entries@),
            forall|k: int|
                0 <= k < entries@.len() ==> (#[trigger] entries@[k]).count == count_of(
                    toks.take(j as int),
                    entries@[k].token@,
                ) && entries@[k].count > 0,
            forall|t: Seq<char>| count_of(toks.take(j as int), t) > 0 ==> contains_token(
                entries@,
                t,
            ),
            sum_counts(entries@) == j,
        decreases tokens@.len() - j,
    {
        let t = &tokens[j];
        proof {
            assert(toks[j as int] == t@);
        }
        match find_token(&entries, t) {
            Some(idx) => {
                let c = entries[idx].count;
                proof {
                    lemma_count_of_le_len(toks.take(j as int), t@);
                }
                let e = FrequencyEntry { count: c + 1, token: t.clone() };
                let ghost old_entries = entries@;
                entries.set(idx, e);
                proof {
                    lemma_sum_update(old_entries, idx as int, e);
                    assert forall|t2: Seq<char>|
                        count_of(toks.take(j as int + 1), t2) > 0 implies contains_token(
                        entries@,
                        t2,
                    ) by {
                        lemma_count_of_step(toks, j as int, t2);
                        if count_of(toks.take(j as int), t2) > 0 {
                            assert(contains_token(old_entries, t2));
                            let k = choose|k: int|
                                0 <= k < old_entries.len() && old_entries[k].token@ == t2;
                            assert(entries@[k].token@ == t2);
                        } else {
                            assert(t2 == t@);
                            assert(entries@[idx as int].token@ == t2);
                        }
                    }
                    assert forall|k: int| 0 <= k < entries@.len() implies (#[trigger] entries@[k]).count
                        == count_of(toks.take(j as int + 1), entries@[k].token@)
                        && entries@[k].count > 0 by {
                        lemma_count_of_step(toks, j as int, entries@[k].token@);
                        if k != idx {
                            assert(entries@[k] == old_entries[k]);
                            assert(old_entries[k].token@ != t@);
                        }
                    }
                }
            },
            None => {
                let e = FrequencyEntry { count: 1, token: t.clone() };
                let ghost old_entries = entries@;
                entries.push(e);
                proof {
                    assert(entries@.drop_last() =~= old_entries);
                    assert(entries@.last() == e);
                    assert forall|t2: Seq<char>|
                        count_of(toks.take(j as int + 1), t2) > 0 implies contains_token(
                        entries@,
                        t2,
                    ) by {
                        lemma_count_of_step(toks, j as int, t2);
                        if count_of(toks.take(j as int), t2) > 0 {
                            assert(contains_token(old_entries, t2));
                            let k = choose|k: int|
                                0 <= k < old_entries.len() && old_entries[k].token@ == t2;
                            assert(entries@[k].token@ == t2);
                        } else {
                            assert(t2 == t@);
                            assert(entries@[old_entries.len() as int].token@ == t2);
                        }
                    }
                    assert forall|k: int| 0 <= k < entries@.len() implies (#[trigger] entries@[k]).count
                        == count_of(toks.take(j as int + 1), entries@[k].token@)
                        && entries@[k].count > 0 by {
                        lemma_count_of_step(toks, j as int, entries@[k].token@);
                        if k < old_entries.len() {
                            assert(entries@[k] == old_entries[k]);
                            assert(old_entries[k].token@ != t@);
                        } else {
                            assert(entries@[k] == e);
                            if count_of(toks.take(j as int), t@) > 0 {
                                assert(contains_token(old_entries, t@));
                                let w = choose|w: int|
                                    0 <= w < old_entries.len() && old_entries[w].token@ == t@;
                                assert(false);
                            }
                        }
                    }
                }
            },
        }
        j = j + 1;
    }
    proof {
        assert(toks.take(j as int) =~= toks);
    }
    entries
}

/// Sorts entries into the ranked order: count descending, then token
/// descending. The result holds the same entries.
pub fn sort_entries(v: Vec<FrequencyEntry>) -> (r: Vec<FrequencyEntry>)
    requires
        tokens_distinct(v@),
    ensures
        strict_sorted(r@),
        tokens_distinct(r@),
        sum_counts(r@) == sum_counts(v@),
        r@.len() == v@.len(),
        forall|k: int| 0 <= k < r@.len() ==> v@.contains(#[trigger] r@[k]),
        forall|k: int| 0 <= k < v@.len() ==> r@.contains(#[trigger] v@[k]),
{
    let ghost orig = v@;
    let mut src = v;
    let mut out: Vec<FrequencyEntry> = Vec::new();
    while src.len() > 0
        invariant
            tokens_distinct(orig),
            sum_counts(out@) + sum_counts(src@) == sum_counts(orig),
            out@.len() + src@.len() == orig.len(),
            forall|k: int| 0 <= k < out@.len() ==> orig.contains(#[trigger] out@[k]),
            forall|k: int| 0 <= k < src@.len() ==> orig.contains(#[trigger] src@[k]),
            forall|k: int|
                0 <= k < orig.len() ==> out@.contains(#[trigger] orig[k]) || src@.contains(
                    orig[k],
                ),
            tokens_distinct(out@),
            tokens_distinct(src@),
            forall|i: int, j: int|
                0 <= i < out@.len() && 0 <= j < src@.len() ==> (#[trigger] out@[i]).token@ != (
                #[trigger] src@[j]).token@,
            strict_sorted(out@),
            forall|i: int, j: int|
                0 <= i < out@.len() && 0 <= j < src@.len() ==> precedes_eq(
                    #[trigger] out@[i],
                    #[trigger] src@[j],
                ),
        decreases src@.len(),
    {
        let mut best: usize = 0;
        let mut m: usize = 1;
        while m < src.len()
            invariant
                best < m <= src@.len(),
                forall|x: int| 0 <= x < m ==> precedes_eq(src@[best as int], #[trigger] src@[x]),
            decreases src@.len() - m,
        {
            if !entry_before_eq(&src[best], &src[m]) {
                proof {
                    lemma_precedes_total(src@[best as int], src@[m as int]);
                    assert(precedes(src@[m as int], src@[best as int]));
                    assert forall|x: int| 0 <= x < m + 1 implies precedes_eq(
                        src@[m as int],
                        #[trigger] src@[x],
                    ) by {
                        if x < m {
                            lemma_precedes_trans(src@[m as int], src@[best as int], src@[x]);
                        } else {
                            lemma_lex_irrefl(src@[m as int].token@);
                        }
                    }
                }
                best = m;
            }
            m = m + 1;
        }
        let ghost old_src = src@;
        let ghost old_out = out@;
        let e = src.remove(best);
        proof {
            lemma_sum_remove(old_src, best as int);
        }
        out.push(e);
        proof {
            assert(e == old_src[best as int]);
            assert(out@.drop_last() =~= old_out);
            assert(out@.last() == e);
            assert(forall|x: int| 0 <= x < best ==> src@[x] == old_src[x]);
            assert(forall|x: int| best <= x < src@.len() ==> src@[x] == old_src[x + 1]);
            assert forall|k: int|
                0 <= k < orig.len() implies out@.contains(#[trigger] orig[k]) || src@.contains(
                orig[k],
            ) by {
                if old_out.contains(orig[k]) {
                    let x = choose|x: int| 0 <= x < old_out.len() && old_out[x] == orig[k];
                    assert(out@[x] == orig[k]);
                } else {
                    let x = choose|x: int| 0 <= x < old_src.len() && old_src[x] == orig[k];
                    if x == best {
                        assert(out@.last() == orig[k]);
                    } else if x < best {
                        assert(src@[x] == orig[k]);
                    } else {
                        assert(src@[x - 1] == orig[k]);
                    }
                }
            }
            assert forall|i: int, j: int|
                0 <= i < out@.len() && 0 <= j < src@.len() implies precedes_eq(
                #[trigger] out@[i],
                #[trigger] src@[j],
            ) by {
                if i < old_out.len() {
                } else {
                    assert(out@[i] == e);
                }
            }
            assert forall|i: int, j: int| 0 <= i < j < out@.len() implies precedes(
                out@[i],
                out@[j],
            ) by {
                if j == out@.len() - 1 {
                    assert(precedes_eq(old_out[i], e));
                    assert(old_out[i].token@ != e.token@);
                }
            }
        }
    }
    out
}

/// Whether a proper-noun candidate survives: it recurs, and its lowercase
/// form was never observed starting with a lowercase letter or digit.
pub open spec fn kept_entry(e: FrequencyEntry, ev: Seq<Seq<char>>) -> bool {
    e.count > 1 && !ev.contains(lower_seq(e.token@))
}

/// The entries that the proper-noun filter keeps, in their original order.
pub open spec fn proper_filter_spec(s: Seq<FrequencyEntry>, ev: Seq<Seq<char>>) -> Seq<
    FrequencyEntry,
>
    decreases s.len(),
{
    if s.len() == 0 {
        Seq::<FrequencyEntry>::empty()
    } else {
        let rest = proper_filter_spec(s.drop_last(), ev);
        if kept_entry(s.last(), ev) {
            rest.push(s.last())
        } else {
            rest
        }
    }
}

pub proof fn lemma_proper_filter_membership(
    s: Seq<FrequencyEntry>,
    ev: Seq<Seq<char>>,
    e: FrequencyEntry,
)
    ensures
        proper_filter_spec(s, ev).contains(e) <==> (s.contains(e) && kept_entry(e, ev)),
    decreases s.len(),
{
    if s.len() > 0 {
        lemma_proper_filter_membership(s.drop_last(), ev, e);
        let rest = proper_filter_spec(s.drop_last(), ev);
        if kept_entry(s.last(), ev) {
            assert(proper_filter_spec(s, ev) == rest.push(s.last()));
            if rest.push(s.last()).contains(e) {
                let k = choose|k: int|
                    0 <= k < rest.push(s.last()).len() && rest.push(s.last())[k] == e;
                if k < rest.len() {
                    assert(rest[k] == e);
                    let k2 = choose|k2: int| 0 <= k2 < s.drop_last().len() && s.drop_last()[k2] == e;
                    assert(s[k2] == e);
                } else {
                    assert(e == s.last());
                    assert(s[s.len() - 1] == e);
                }
            }
            if s.contains(e) && kept_entry(e, ev) {
                let k = choose|k: int| 0 <= k < s.len() && s[k] == e;
                if k < s.len() - 1 {
                    assert(s.drop_last()[k] == e);
                    assert(rest.contains(e));
                    let k3 = choose|k3: int| 0 <= k3 < rest.len() && rest[k3] == e;
                    assert(rest.push(s.last())[k3] == e);
                } else {
                    assert(rest.push(s.last()).last() == e);
                }
            }
        } else {
            if s.contains(e) && kept_entry(e, ev) {
                let k = choose|k: int| 0 <= k < s.len() && s[k] == e;
                assert(k < s.len() - 1);
                assert(s.drop_last()[k] == e);
            }
            if rest.contains(e) {
                let k2 = choose|k2: int| 0 <= k2 < s.drop_last().len() && s.drop_last()[k2] == e;
                assert(s[k2] == e);
            }
        }
    }
}

pub proof fn lemma_proper_filter_sorted(s: Seq<FrequencyEntry>, ev: Seq<Seq<char>>)
    requires
        strict_sorted(s),
        tokens_distinct(s),
    ensures
        strict_sorted(proper_filter_spec(s, ev)),
        tokens_distinct(proper_filter_spec(s, ev)),
    decreases s.len(),
{
    if s.len() > 0 {
        assert(forall|i: int, j: int|
            0 <= i < j < s.drop_last().len() ==> precedes(s.drop_last()[i], s.drop_last()[j]));
        assert(forall|i: int, j: int|
            0 <= i < j < s.drop_last().len() ==> s.drop_last()[i].token@ != s.drop_last()[j].token@);
        lemma_proper_filter_sorted(s.drop_last(), ev);
        let rest = proper_filter_spec(s.drop_last(), ev);
        if kept_entry(s.last(), ev) {
            let f = rest.push(s.last());
            assert(proper_filter_spec(s, ev) == f);
            assert forall|i: int, j: int| 0 <= i < j < f.len() implies precedes(f[i], f[j]) && f[i].token@
                != f[j].token@ by {
                if j == f.len() - 1 {
                    assert(f[i] == rest[i]);
                    assert(f[j] == s.last());
                    assert(rest.contains(rest[i]));
                    lemma_proper_filter_membership(s.drop_last(), ev, f[i]);
                    let k = choose|k: int| 0 <= k < s.drop_last().len() && s.drop_last()[k] == f[i];
                    assert(s[k] == f[i]);
                    assert(precedes(s[k], s[s.len() - 1]));
                    assert(s[k].token@ != s[s.len() - 1].token@);
                    assert(s[s.len() - 1] == s.last());
                } else {
                    assert(f[i] == rest[i]);
                    assert(f[j] == rest[j]);
                }
            }
            assert(strict_sorted(f));
            assert forall|i: int, j: int| 0 <= i < j < f.len() implies (#[trigger] f[i]).token@ != (
            #[trigger] f[j]).token@ by {
                assert(precedes(f[i], f[j]) && f[i].token@ != f[j].token@);
            }
            assert(tokens_distinct(f));
        }
    }
}

/// Keeps only the entries that pass the proper-noun heuristic: a count above
/// one and no lowercase-initial occurrence of the token's lowercase form.
pub fn proper_noun_filter(entries: &Vec<FrequencyEntry>, evidence: &Vec<String>) -> (r: Vec<
    FrequencyEntry,
>)
    ensures
        r@ == proper_filter_spec(entries@, str_views(evidence@)),
{
    let ghost ev = str_views(evidence@);
    let mut out: Vec<FrequencyEntry> = Vec::new();
    let mut j: usize = 0;
    while j < entries.len()
        invariant
            j <= entries@.len(),
            ev == str_views(evidence@),
            out@ == proper_filter_spec(entries@.take(j as int), ev),
        decreases entries@.len() - j,
    {
        proof {
            assert(entries@.take(j as int + 1).drop_last() =~= entries@.take(j as int));
            assert(entries@.take(j as int + 1).last() == entries@[j as int]);
        }
        if entries[j].count > 1 {
            let low = crate::chars::ascii_lower(entries[j].token.as_str());
            if !crate::stopwords::contains_string(evidence, &low) {
                let e = FrequencyEntry { count: entries[j].count, token: entries[j].token.clone() };
                assert(e == entries@[j as int]);
                out.push(e);
            }
        }
        j = j + 1;
    }
    proof {
        assert(entries@.take(j as int) =~= entries@);
    }
    out
}

/// The counts alone, in ranked order: what the plot renderer consumes.
pub fn counts_of(entries: &Vec<FrequencyEntry>) -> (r: Vec<usize>)
    ensures
        r@ == entries@.map_values(|e: FrequencyEntry| e.count),
{
    let mut out: Vec<usize> = Vec::new();
    let mut j: usize = 0;
    while j < entries.len()
        invariant
            j <= entries@.len(),
            out@ =~= entries@.take(j as int).map_values(|e: FrequencyEntry| e.count),
        decreases entries@.len() - j,
    {
        out.push(entries[j].count);
        proof {
            assert(entries@.take(j as int + 1) =~= entries@.take(j as int).push(
                entries@[j as int],
            ));
            assert(entries@.take(j as int + 1).map_values(|e: FrequencyEntry| e.count)
                =~= entries@.take(j as int).map_values(|e: FrequencyEntry| e.count).push(
                entries@[j as int].count,
            ));
        }
        j = j + 1;
    }
    proof {
        assert(entries@.take(entries@.len() as int) =~= entries@);
        assert(out@ =~= entries@.map_values(|e: FrequencyEntry| e.count));
    }
    out
}

/// In a ranked list any two entries at different positions differ as
/// (count, token) pairs: the order is total.
pub proof fn lemma_ranked_pairs_unequal(r: Seq<FrequencyEntry>, i: int, j: int)
    requires
        strict_sorted(r),
        0 <= i < r.len(),
        0 <= j < r.len(),
        i != j,
    ensures
        r[i].count != r[j].count || r[i].token@ != r[j].token@,
{
    if i < j {
        if same_entry(r[i], r[j]) {
            lemma_precedes_irrefl(r[i], r[j]);
        }
    } else {
        if same_entry(r[j], r[i]) {
            lemma_precedes_irrefl(r[j], r[i]);
        }
    }
}

/// A strictly ordered ranked list is determined by what it holds: two such
/// lists with the same tokens, agreeing on every token's count, are the same
/// list of (count, token) pairs. In particular sorting is deterministic and
/// sorting a sorted list changes nothing.
pub proof fn lemma_strict_sorted_unique(a: Seq<FrequencyEntry>, b: Seq<FrequencyEntry>)
    requires
        strict_sorted(a),
        strict_sorted(b),
        forall|t: Seq<char>| contains_token(a, t) <==> contains_token(b, t),
        forall|i: int, j: int|
            0 <= i < a.len() && 0 <= j < b.len() && (#[trigger] a[i]).token@ == (
            #[trigger] b[j]).token@ ==> a[i].count == b[j].count,
    ensures
        entry_views(a) == entry_views(b),
    decreases a.len(),
{
    if a.len() == 0 {
        if b.len() > 0 {
            assert(contains_token(b, b[0].token@));
            assert(contains_token(a, b[0].token@));
            assert(false);
        }
        assert(entry_views(a) =~= entry_views(b));
    } else {
        assert(contains_token(a, a[0].token@));
        let j0 = choose|j: int| 0 <= j < b.len() && b[j].token@ == a[0].token@;
        assert(a[0].count == b[j0].count);
        assert(contains_token(b, b[0].token@));
        let i0 = choose|i: int| 0 <= i < a.len() && a[i].token@ == b[0].token@;
        assert(a[i0].count == b[0].count);
        if j0 > 0 {
            assert(precedes(b[0], b[j0]));
            if i0 > 0 {
                assert(precedes(a[0], a[i0]));
                assert(same_entry(a[i0], b[0]));
                assert(same_entry(b[j0], a[0]));
                lemma_precedes_trans(a[0], a[i0], b[j0]);
                lemma_precedes_irrefl(a[0], b[j0]);
                assert(false);
            } else {
                assert(same_entry(a[0], b[0]));
                assert(same_entry(b[j0], a[0]));
                lemma_precedes_irrefl(b[0], b[j0]);
                assert(false);
            }
        }
        assert(same_entry(a[0], b[0]));
        let a2 = a.drop_first();
        let b2 = b.drop_first();
        assert(forall|i: int, j: int| 0 <= i < j < a2.len() ==> precedes(a2[i], a2[j]));
        assert(forall|i: int, j: int| 0 <= i < j < b2.len() ==> precedes(b2[i], b2[j]));
        assert forall|t: Seq<char>| contains_token(a2, t) implies contains_token(b2, t) by {
            lemma_tail_token(a, b, t);
        }
        assert forall|t: Seq<char>| contains_token(b2, t) implies contains_token(a2, t) by {
            lemma_tail_token(b, a, t);
        }
        assert(forall|i: int, j: int|
            0 <= i < a2.len() && 0 <= j < b2.len() && (#[trigger] a2[i]).token@ == (
            #[trigger] b2[j]).token@ ==> a2[i].count == b2[j].count);
        lemma_strict_sorted_unique(a2, b2);
        assert(entry_views(a2).len() == a2.len());
        assert(entry_views(b2).len() == b2.len());
        assert(a.len() == b.len());
        assert forall|k: int| 0 <= k < a.len() implies entry_views(a)[k] == entry_views(b)[k] by {
            if k == 0 {
                assert(same_entry(a[0], b[0]));
            } else {
                assert(a2[k - 1] == a[k]);
                assert(b2[k - 1] == b[k]);
                assert(entry_views(a2)[k - 1] == entry_views(b2)[k - 1]);
            }
        }
        assert(entry_views(a) =~= entry_views(b));
    }
}

proof fn lemma_tail_token(a: Seq<FrequencyEntry>, b: Seq<FrequencyEntry>, t: Seq<char>)
    requires
        strict_sorted(a),
        strict_sorted(b),
        a.len() > 0,
        b.len() > 0,
        same_entry(a[0], b[0]),
        contains_token(a.drop_first(), t),
        contains_token(b, t),
        forall|i: int, j: int|
            0 <= i < a.len() && 0 <= j < b.len() && (#[trigger] a[i]).token@ == (
            #[trigger] b[j]).token@ ==> a[i].count == b[j].count,
    ensures
        contains_token(b.drop_first(), t),
{
    let k = choose|k: int| 0 <= k < a.drop_first().len() && a.drop_first()[k].token@ == t;
    assert(a[k + 1].token@ == t);
    let j = choose|j: int| 0 <= j < b.len() && b[j].token@ == t;
    if j == 0 {
        assert(a[0].token@ == t);
        assert(a[0].count == b[0].count && a[k + 1].count == b[0].count);
        assert(same_entry(a[0], a[k + 1]));
        assert(precedes(a[0], a[k + 1]));
        lemma_precedes_irrefl(a[0], a[k + 1]);
        assert(false);
    }
    assert(b.drop_first()[j - 1].token@ == t);
}

} // verus!
