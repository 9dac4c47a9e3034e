use ollama_classifier_rs::label_map::LabelMap;
use ollama_classifier_rs::text::{decimal_text, padded_text, signed_decimal_text, trim};

#[test]
fn insertion_keeps_order_and_replaces_values() {
    let mut m: LabelMap<u32> = LabelMap::new();
    assert!(m.is_empty());
    m.insert("b".to_string(), 1);
    m.insert("a".to_string(), 2);
    m.insert("b".to_string(), 3);
    assert_eq!(m.len(), 2);
    assert_eq!(m.all_keys(), vec!["b", "a"]);
    assert_eq!(m.get("b"), Some(&3));
    assert_eq!(m.get("c"), None);
    assert!(m.contains_key("a"));
    assert!(!m.contains_key("c"));
    assert_eq!(m.key_at(1), "a");
    assert_eq!(*m.value_at(0), 3);
    let n = m.clone();
    assert_eq!(n.all_keys(), m.all_keys());
    assert_eq!(n.get("a"), Some(&2));
}

#[test]
fn numbers_are_written_in_decimal() {
    assert_eq!(decimal_text(0), "0");
    assert_eq!(decimal_text(18446744073709551615), "18446744073709551615");
    assert_eq!(signed_decimal_text(-1), "-1");
    assert_eq!(signed_decimal_text(i64::MIN), "-9223372036854775808");
    assert_eq!(signed_decimal_text(42), "42");
    assert_eq!(padded_text(7, 2), "07");
    assert_eq!(padded_text(12345, 4), "12345");
    assert_eq!(padded_text(0, 2), "00");
}

#[test]
fn trim_removes_unicode_white_space() {
    for s in ["", "  a b \n", "\u{3000}x\u{a0}", "\t\u{2028}", "\u{200b}y", "plain"] {
        assert_eq!(trim(s), s.trim());
        assert_eq!(trim(&trim(s)), trim(s));
    }
}
