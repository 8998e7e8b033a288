use wisp::text::{decimal_text, join};

#[test]
fn decimal_text_matches_display() {
    for n in [0u64, 1, 9, 10, 11, 99, 100, 7100, 50052, 1_000_000, u64::MAX] {
        assert_eq!(decimal_text(n), n.to_string());
    }
}

#[test]
fn join_puts_separator_between_parts_only() {
    assert_eq!(join(&vec![], ","), "");
    assert_eq!(join(&vec!["a".to_string()], ","), "a");
    assert_eq!(join(&vec!["a".to_string(), "".to_string(), "c".to_string()], ", "), "a, , c");
}
