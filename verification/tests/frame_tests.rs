use chunkpack::frame::build_frame;
use chunkpack::frame::search_pattern;

#[test]
fn test_build_frame_header_and_lines() {
    let lines = vec!["Hello, world!".to_string(), "This is a test.".to_string()];
    let frame = build_frame("test_files/file1.txt", &lines);
    assert_eq!(frame, "=====<test_files/file1.txt>=====\nHello, world!\nThis is a test.\n");
}

#[test]
fn test_build_frame_no_lines() {
    let lines: Vec<String> = Vec::new();
    assert_eq!(build_frame("empty.txt", &lines), "=====<empty.txt>=====\n");
}

#[test]
fn test_build_frame_normalizes_trailing_newline() {
    let lines = vec!["only line".to_string()];
    assert_eq!(build_frame("a", &lines), "=====<a>=====\nonly line\n");
}

#[test]
fn test_search_pattern() {
    assert_eq!(search_pattern("./my_dir", "*.txt"), "./my_dir/**/*.txt");
}
