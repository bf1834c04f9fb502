use chunkpack::tokenizer::tokenize;

#[test]
fn test_tokenize() {
    let input = "Hello, world!\nThis is a test.".to_string();
    let expected_output = vec!["Hello,", "world!\nThis", "is", "a", "test."];
    assert_eq!(tokenize(input), expected_output);
}

#[test]
fn test_tokenize_empty_input() {
    let expected: Vec<String> = Vec::new();
    assert_eq!(tokenize(String::new()), expected);
}

#[test]
fn test_tokenize_only_separators() {
    let expected: Vec<String> = Vec::new();
    assert_eq!(tokenize("  \t ".to_string()), expected);
}

#[test]
fn test_tokenize_single_run() {
    assert_eq!(tokenize("alone".to_string()), vec!["alone"]);
}

#[test]
fn test_tokenize_repeated_separators() {
    assert_eq!(tokenize("a  b\t\tc".to_string()), vec!["a", "b", "c"]);
}

#[test]
fn test_tokenize_retains_newlines() {
    assert_eq!(tokenize("one\ntwo three\n".to_string()), vec!["one\ntwo", "three\n"]);
}

#[test]
fn test_tokenize_unicode_whitespace() {
    assert_eq!(tokenize("a\u{2003}b".to_string()), vec!["a", "b"]);
}
