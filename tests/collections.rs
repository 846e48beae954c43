use termdoc::collections::{Dictionary, FrequencyDistribution};

#[test]
fn dictionary_ids_follow_first_appearance() {
    let d = Dictionary::from_iter(&["b", "a", "b", "c", "a"]);
    assert_eq!(d.get("b"), 1);
    assert_eq!(d.get("a"), 2);
    assert_eq!(d.get("c"), 3);
    assert_eq!(d.size(), 3);
}

#[test]
fn dictionary_unknown_token_is_zero() {
    let d = Dictionary::from_iter(&["x", "y"]);
    assert_eq!(d.get("z"), 0);
    assert_eq!(d.get(""), 0);
    assert_eq!(d.get("X"), 0);
    let empty = Dictionary::new();
    assert_eq!(empty.get("x"), 0);
    assert_eq!(empty.size(), 0);
}

#[test]
fn dictionary_extend_keeps_ids() {
    let mut d = Dictionary::from_iter(&["a", "b"]);
    d.extend(&["b", "c", "a", "d"]);
    assert_eq!(d.get("a"), 1);
    assert_eq!(d.get("b"), 2);
    assert_eq!(d.get("c"), 3);
    assert_eq!(d.get("d"), 4);
    assert_eq!(d.size(), 4);
}

#[test]
fn dictionary_extend_with_seen_tokens_changes_nothing() {
    let mut d = Dictionary::from_iter(&["a", "b", "c"]);
    d.extend(&["c", "a", "a", "b"]);
    assert_eq!(d.size(), 3);
    assert_eq!(d.get("a"), 1);
    assert_eq!(d.get("b"), 2);
    assert_eq!(d.get("c"), 3);
    d.extend(&[]);
    assert_eq!(d.size(), 3);
}

#[test]
fn dictionary_keys_in_id_order() {
    let mut d = Dictionary::new();
    d.extend(&["z", "y", "z"]);
    d.extend(&["x", "y"]);
    assert_eq!(d.keys(), vec!["z".to_string(), "y".to_string(), "x".to_string()]);
}

#[test]
fn dictionary_tokens_compare_by_exact_content() {
    let d = Dictionary::from_iter(&["Word", "word", "word "]);
    assert_eq!(d.size(), 3);
    assert_eq!(d.get("word"), 2);
}

#[test]
fn frequency_counts_occurrences() {
    let f = FrequencyDistribution::from_iter(&["a", "b", "a", "c", "a"]);
    assert_eq!(f.get("a"), 3);
    assert_eq!(f.get("b"), 1);
    assert_eq!(f.get("c"), 1);
    assert_eq!(f.get("d"), 0);
}

#[test]
fn frequency_extend_accumulates() {
    let mut f = FrequencyDistribution::new();
    assert_eq!(f.get("a"), 0);
    f.extend(&["a", "b"]);
    f.extend(&["a", "a", "c"]);
    assert_eq!(f.get("a"), 3);
    assert_eq!(f.get("b"), 1);
    assert_eq!(f.get("c"), 1);
    assert_eq!(f.get("e"), 0);
}
