use wordfreq::split::split_whitespace_tokens;
use wordfreq::stopwords::build_stop_set;

#[test]
fn stop_set_entries_survive_restripping() {
    // Every stored stop word is already stripped: stripping it again with the
    // same character class changes nothing.
    let re = regex::Regex::new(r"[^\w\s\d']|[_]").unwrap();
    let stop = build_stop_set(true);
    assert!(!stop.is_empty());
    for w in &stop {
        let again = re.replace_all(w, "").to_string();
        assert_eq!(&again, w);
    }
}

#[test]
fn stop_set_contains_the() {
    let stop = build_stop_set(true);
    assert!(stop.iter().any(|w| w == "the"));
}

#[test]
fn stop_set_empty_when_disabled() {
    let stop = build_stop_set(false);
    assert!(stop.is_empty());
}

#[test]
fn tokenization_idempotent_under_rejoin() {
    let text = "  The quick\tbrown fox\n jumps  over the lazy dog ";
    let tokens = split_whitespace_tokens(text);
    let rejoined = tokens.join(" ");
    let again = split_whitespace_tokens(&rejoined);
    assert_eq!(tokens, again);
}

#[test]
fn split_drops_empty_pieces() {
    let tokens = split_whitespace_tokens("   ");
    assert!(tokens.is_empty());
    let tokens = split_whitespace_tokens("a  b");
    assert_eq!(tokens, vec!["a".to_string(), "b".to_string()]);
}

#[test]
fn split_handles_unicode_whitespace() {
    let tokens = split_whitespace_tokens("one\u{00A0}two\u{2003}three");
    assert_eq!(
        tokens,
        vec!["one".to_string(), "two".to_string(), "three".to_string()]
    );
}
