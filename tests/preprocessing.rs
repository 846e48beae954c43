use termdoc::preprocessing::{encode_int, encode_one_hot, tokenize};

#[test]
fn tokenize_collapses_whitespace() {
    assert_eq!(tokenize("a  b\tc"), vec!["a", "b", "c"]);
}

#[test]
fn tokenize_edges() {
    assert_eq!(tokenize(""), Vec::<&str>::new());
    assert_eq!(tokenize(" \t\n "), Vec::<&str>::new());
    assert_eq!(tokenize("  lead and trail  "), vec!["lead", "and", "trail"]);
    assert_eq!(tokenize("one"), vec!["one"]);
}

#[test]
fn tokenize_keeps_punctuation_and_case() {
    assert_eq!(tokenize("Hello, World!\r\nbye."), vec!["Hello,", "World!", "bye."]);
}

#[test]
fn tokenize_unicode_whitespace() {
    assert_eq!(tokenize("é\u{3000}ü\u{a0}ß"), vec!["é", "ü", "ß"]);
}

#[test]
fn encode_int_example() {
    assert_eq!(encode_int(vec!["x", "y", "x"]), vec![1, 2, 1]);
}

#[test]
fn encode_int_empty() {
    assert_eq!(encode_int(vec![]), Vec::<u32>::new());
}

#[test]
fn encode_one_hot_example() {
    assert_eq!(
        encode_one_hot(vec!["x", "y", "x"]),
        vec![vec![0, 1, 0], vec![0, 0, 1], vec![0, 1, 0]]
    );
}

#[test]
fn encode_one_hot_empty() {
    assert_eq!(encode_one_hot(vec![]), Vec::<Vec<u32>>::new());
}

#[test]
fn encode_one_hot_single_token() {
    assert_eq!(encode_one_hot(vec!["only"]), vec![vec![0, 1]]);
}
