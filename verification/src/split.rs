use vstd::prelude::*;
use vstd::string::StrSliceExecFns;

use crate::chars::{is_space, is_space_char};

verus! {

/// The words of a text: the maximal runs of non-white-space characters, in
/// document order.
pub open spec fn split_ws(s: Seq<char>) -> Seq<Seq<char>>
    decreases s.len(),
{
    if s.len() == 0 {
        Seq::<Seq<char>>::empty()
    } else if is_space(s[0]) {
        split_ws(s.drop_first())
    } else if s.len() >= 2 && !is_space(s[1]) {
        let rest = split_ws(s.drop_first());
        rest.update(0, seq![s[0]] + rest[0])
    } else {
        seq![seq![s[0]]] + split_ws(s.drop_first())
    }
}

/// A word as splitting produces it: non-empty and free of white space.
pub open spec fn word_wf(w: Seq<char>) -> bool {
    w.len() > 0 && forall|j: int| 0 <= j < w.len() ==> !is_space(#[trigger] w[j])
}

pub open spec fn words_wf(ws: Seq<Seq<char>>) -> bool {
    forall|i: int| 0 <= i < ws.len() ==> word_wf(#[trigger] ws[i])
}

/// The words joined back into one text, with a single space between
/// neighbours.
pub open spec fn join_spaced(ws: Seq<Seq<char>>) -> Seq<char>
    decreases ws.len(),
{
    if ws.len() == 0 {
        Seq::<char>::empty()
    } else if ws.len() == 1 {
        ws[0]
    } else {
        ws[0] + seq![' '] + join_spaced(ws.drop_first())
    }
}

/// Splitting picks up a leading word whole: a non-empty space-free prefix,
/// followed by nothing or by a space, is the first word of the split.
pub proof fn lemma_split_prepend_word(w: Seq<char>, t: Seq<char>)
    requires
        word_wf(w),
        t.len() == 0 || is_space(t[0]),
    ensures
        split_ws(w + t) == seq![w] + split_ws(t),
    decreases w.len(),
{
    let s = w + t;
    assert(s[0] == w[0]);
    if w.len() == 1 {
        assert(s.drop_first() =~= t);
        if t.len() == 0 {
            assert(split_ws(s) =~= seq![seq![s[0]]] + split_ws(t));
        } else {
            assert(s.len() >= 2 && is_space(s[1]));
            assert(split_ws(s) =~= seq![seq![s[0]]] + split_ws(t));
        }
        assert(seq![s[0]] =~= w);
    } else {
        assert(s[1] == w[1]);
        assert(!is_space(s[1]));
        assert(s.drop_first() =~= w.drop_first() + t);
        assert(word_wf(w.drop_first()));
        lemma_split_prepend_word(w.drop_first(), t);
        let rest = split_ws(s.drop_first());
        assert(rest == seq![w.drop_first()] + split_ws(t));
        assert(rest[0] == w.drop_first());
        assert(split_ws(s) == rest.update(0, seq![s[0]] + rest[0]));
        assert(seq![s[0]] + w.drop_first() =~= w);
        assert(rest.update(0, w) =~= seq![w] + split_ws(t));
    }
}

/// Every word that splitting yields is non-empty and free of white space.
pub proof fn lemma_split_ws_wf(s: Seq<char>)
    ensures
        words_wf(split_ws(s)),
    decreases s.len(),
{
    if s.len() == 0 {
    } else if is_space(s[0]) {
        lemma_split_ws_wf(s.drop_first());
    } else if s.len() >= 2 && !is_space(s[1]) {
        lemma_split_ws_wf(s.drop_first());
        let rest = split_ws(s.drop_first());
        lemma_split_ws_nonempty(s.drop_first());
        assert(word_wf(rest[0]));
        let w = seq![s[0]] + rest[0];
        assert(forall|j: int| 0 <= j < w.len() ==> !is_space(#[trigger] w[j])) by {
            assert(w[0] == s[0]);
            assert(forall|j: int| 1 <= j < w.len() ==> w[j] == rest[0][j - 1]);
        }
        assert(word_wf(w));
        let out = rest.update(0, w);
        assert(forall|i: int| 0 <= i < out.len() ==> word_wf(#[trigger] out[i]));
    } else {
        lemma_split_ws_wf(s.drop_first());
        let out = seq![seq![s[0]]] + split_ws(s.drop_first());
        assert(word_wf(out[0]));
        assert(forall|i: int| 0 <= i < out.len() ==> word_wf(#[trigger] out[i]));
    }
}

/// A text that starts with a character other than white space splits into at
/// least one word.
pub proof fn lemma_split_ws_nonempty(s: Seq<char>)
    requires
        s.len() > 0,
        !is_space(s[0]),
    ensures
        split_ws(s).len() > 0,
    decreases s.len(),
{
    if s.len() >= 2 && !is_space(s[1]) {
        lemma_split_ws_nonempty(s.drop_first());
    }
}

/// Splitting the joined form of well-formed words gives the words back.
pub proof fn lemma_join_then_split(ws: Seq<Seq<char>>)
    requires
        words_wf(ws),
    ensures
        split_ws(join_spaced(ws)) == ws,
    decreases ws.len(),
{
    if ws.len() == 0 {
        assert(split_ws(join_spaced(ws)) =~= ws);
    } else if ws.len() == 1 {
        assert(word_wf(ws[0]));
        assert(ws[0] + Seq::<char>::empty() =~= ws[0]);
        lemma_split_prepend_word(ws[0], Seq::<char>::empty());
        assert(split_ws(join_spaced(ws)) =~= ws);
    } else {
        let tail = join_spaced(ws.drop_first());
        lemma_join_then_split(ws.drop_first());
        lemma_split_prepend_word(ws[0], seq![' '] + tail);
        assert(ws[0] + (seq![' '] + tail) =~= join_spaced(ws));
        assert((seq![' '] + tail).drop_first() =~= tail);
        assert(split_ws(seq![' '] + tail) == split_ws(tail));
        assert(seq![ws[0]] + ws.drop_first() =~= ws);
    }
}

/// Whitespace splitting is idempotent under re-joining: joining the words of
/// a text with single spaces and splitting again yields the same words.
pub proof fn lemma_split_rejoin(s: Seq<char>)
    ensures
        split_ws(join_spaced(split_ws(s))) == split_ws(s),
{
    lemma_split_ws_wf(s);
    lemma_join_then_split(split_ws(s));
}

proof fn lemma_split_skip_space(s: Seq<char>, i: int)
    requires
        0 <= i < s.len(),
        is_space(s[i]),
    ensures
        split_ws(s.skip(i)) == split_ws(s.skip(i + 1)),
{
    assert(s.skip(i)[0] == s[i]);
    assert(s.skip(i).drop_first() =~= s.skip(i + 1));
}

/// Splits a text on runs of white space, dropping empty pieces: the words of
/// the text in document order.
pub fn split_whitespace_tokens(s: &str) -> (r: Vec<String>)
    ensures
        crate::chars::str_views(r@) == split_ws(s@),
{
    let n = s.unicode_len();
    let mut out: Vec<String> = Vec::new();
    let mut i: usize = 0;
    proof {
        assert(s@.skip(0) =~= s@);
    }
    while i < n
        invariant
            i <= n,
            n == s@.len(),
            split_ws(s@) =~= crate::chars::str_views(out@) + split_ws(s@.skip(i as int)),
        decreases n - i,
    {
        let c = s.get_char(i);
        if is_space_char(c) {
            proof {
                lemma_split_skip_space(s@, i as int);
            }
            i = i + 1;
        } else {
            let start = i;
            i = i + 1;
            while i < n && !is_space_char(s.get_char(i))
                invariant
                    start < i <= n,
                    n == s@.len(),
                    forall|k: int| start <= k < i ==> !is_space(#[trigger] s@[k]),
                decreases n - i,
            {
                i = i + 1;
            }
            let word = s.substring_char(start, i).to_owned();
            proof {
                let w = s@.subrange(start as int, i as int);
                assert(word_wf(w));
                let t = s@.skip(i as int);
                assert(s@.skip(start as int) =~= w + t);
                lemma_split_prepend_word(w, t);
                assert(crate::chars::str_views(out@.push(word)) =~= crate::chars::str_views(
                    out@,
                ).push(word@));
                assert(crate::chars::str_views(out@) + seq![w] + split_ws(t)
                    =~= crate::chars::str_views(out@.push(word)) + split_ws(t));
            }
            out.push(word);
        }
    }
    proof {
        assert(s@.skip(n as int) =~= Seq::<char>::empty());
    }
    out
}

} // verus!
