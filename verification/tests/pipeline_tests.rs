use wordfreq::pipeline::{analyze, RunConfig};
use wordfreq::rank::counts_of;

fn cfg(strip: bool, lower: bool, stem: bool, stop: bool, proper: bool) -> RunConfig {
    RunConfig {
        strip_punctuation: strip,
        lowercase: lower,
        stem,
        remove_stop_words: stop,
        proper_noun_filter: proper,
    }
}

fn pairs(r: &[wordfreq::rank::FrequencyEntry]) -> Vec<(usize, String)> {
    r.iter().map(|e| (e.count, e.token.clone())).collect()
}

#[test]
fn scenario_two_sentences_ranked() {
    let r = analyze("The cat sat. The cat ran.", &cfg(true, true, false, false, false));
    assert_eq!(
        pairs(&r),
        vec![
            (2, "the".to_string()),
            (2, "cat".to_string()),
            (1, "sat".to_string()),
            (1, "ran".to_string())
        ]
    );
}

#[test]
fn scenario_stop_words_removed() {
    let r = analyze("The cat sat. The cat ran.", &cfg(true, true, false, true, false));
    // "the" and "ran" are stop words; three tokens survive.
    assert!(r.iter().all(|e| e.token != "the"));
    assert_eq!(pairs(&r), vec![(2, "cat".to_string()), (1, "sat".to_string())]);
    let sum: usize = r.iter().map(|e| e.count).sum();
    assert_eq!(sum, 3);
}

#[test]
fn scenario_empty_input() {
    let r = analyze("", &cfg(true, true, false, false, false));
    assert_eq!(r.len(), 0);
    let counts = counts_of(&r);
    assert!(counts.is_empty());
}

#[test]
fn whitespace_only_input() {
    let r = analyze(" \t\n  ", &cfg(true, true, false, true, false));
    assert_eq!(r.len(), 0);
}

#[test]
fn analysis_is_deterministic() {
    let text = "Betty bought a bit of better butter. But the butter was bitter.";
    let a = analyze(text, &cfg(true, true, true, true, false));
    let b = analyze(text, &cfg(true, true, true, true, false));
    assert_eq!(pairs(&a), pairs(&b));
}

#[test]
fn ranked_pairs_all_distinct() {
    let r = analyze(
        "one two two three three three four four four four",
        &cfg(true, true, false, false, false),
    );
    let ps = pairs(&r);
    for i in 0..ps.len() {
        for j in 0..ps.len() {
            if i != j {
                assert_ne!(ps[i], ps[j]);
            }
        }
    }
    // Strictly descending (count, token) order.
    for w in ps.windows(2) {
        assert!(w[0].0 > w[1].0 || (w[0].0 == w[1].0 && w[0].1 > w[1].1));
    }
}

#[test]
fn proper_filter_is_subset() {
    let text = "Alice met Bob. Alice met bob. Alice smiled.";
    let with = analyze(text, &cfg(true, false, false, false, true));
    let without = analyze(text, &cfg(true, false, false, false, false));
    let wp = pairs(&with);
    let wo = pairs(&without);
    for p in &wp {
        assert!(wo.contains(p));
    }
    assert!(wp.len() < wo.len());
}

#[test]
fn proper_filter_vetoes_lowercase_evidence() {
    // "Alice" recurs and is never seen lowercase-initial: kept.
    // "met" recurs but is lowercase-initial: dropped.
    // "Bob" occurs once capitalized, once as "bob": dropped twice over.
    let text = "Alice met Bob. Alice met bob.";
    let r = analyze(text, &cfg(true, false, false, false, true));
    assert_eq!(pairs(&r), vec![(2, "Alice".to_string())]);
}

#[test]
fn sum_of_counts_equals_surviving_tokens() {
    let text = "red green blue red? blue! red";
    let r = analyze(text, &cfg(true, true, false, false, false));
    let sum: usize = r.iter().map(|e| e.count).sum();
    assert_eq!(sum, 6);
}

#[test]
fn stemming_merges_inflections() {
    let r = analyze("running runs RUNNING", &cfg(true, true, true, false, false));
    assert_eq!(pairs(&r), vec![(3, "run".to_string())]);
}

#[test]
fn lowercasing_is_ascii_only() {
    let r = analyze("CAFÉ Café café", &cfg(true, true, false, false, false));
    // ASCII letters fold; the non-ASCII letters stay as they are.
    assert_eq!(pairs(&r), vec![(2, "café".to_string()), (1, "cafÉ".to_string())]);
}

#[test]
fn punctuation_kept_when_stripping_off() {
    // With stripping off the text is tokenized as it stands: punctuation
    // stays inside the words.
    let r = analyze("a.b c", &cfg(false, false, false, false, false));
    assert_eq!(pairs(&r), vec![(1, "c".to_string()), (1, "a.b".to_string())]);
}

#[test]
fn stripping_removes_symbols_but_keeps_apostrophes() {
    let r = analyze("don't stop-me now_", &cfg(true, true, false, false, false));
    assert_eq!(
        pairs(&r),
        vec![
            (1, "stopme".to_string()),
            (1, "now".to_string()),
            (1, "don't".to_string())
        ]
    );
}

#[test]
fn counts_for_plot_in_ranked_order() {
    let r = analyze("The cat sat. The cat ran.", &cfg(true, true, false, false, false));
    assert_eq!(counts_of(&r), vec![2, 2, 1, 1]);
}

#[test]
fn report_lines_format() {
    let r = analyze("The cat sat. The cat ran.", &cfg(true, true, false, false, false));
    let lines = wordfreq::report::report_lines(&r);
    assert_eq!(
        lines,
        vec![
            "the 2".to_string(),
            "cat 2".to_string(),
            "sat 1".to_string(),
            "ran 1".to_string()
        ]
    );
}

#[test]
fn report_lines_multi_digit_count() {
    let e = wordfreq::rank::FrequencyEntry {
        count: 1042,
        token: "x".to_string(),
    };
    let lines = wordfreq::report::report_lines(&vec![e]);
    assert_eq!(lines, vec!["x 1042".to_string()]);
}

#[test]
fn report_lines_empty_report() {
    let r = analyze("", &cfg(true, true, false, true, false));
    let lines = wordfreq::report::report_lines(&r);
    assert!(lines.is_empty());
}
