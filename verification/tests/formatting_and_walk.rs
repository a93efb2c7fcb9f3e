use region_grep::line_format::{format_line_with_markers, format_line_with_number};
use region_grep::rx::LineRegex;
use region_grep::walk::{append_file_block, format_file_header};

#[test]
fn marker_is_appended_verbatim() {
    assert_eq!(
        format_line_with_markers("hello"),
        "hello <------- XXXXXXXXXXXXX"
    );
}

#[test]
fn marker_on_empty_line() {
    assert_eq!(format_line_with_markers(""), " <------- XXXXXXXXXXXXX");
}

#[test]
fn number_prefix_is_index_colon_space() {
    assert_eq!(format_line_with_number(7, "abc"), "7: abc");
}

#[test]
fn number_prefix_zero() {
    assert_eq!(format_line_with_number(0, "x"), "0: x");
}

#[test]
fn number_prefix_multi_digit() {
    assert_eq!(format_line_with_number(1234567890, "line"), "1234567890: line");
}

#[test]
fn file_header_names_the_path() {
    assert_eq!(
        format_file_header("dir/file.txt"),
        "-------- dir/file.txt --------"
    );
}

#[test]
fn file_with_no_lines_contributes_nothing() {
    let mut acc = vec!["earlier".to_string()];
    append_file_block(&mut acc, "dir/empty.txt", Vec::new());
    assert_eq!(acc, vec!["earlier".to_string()]);
}

#[test]
fn file_with_lines_gets_exactly_one_header() {
    let mut acc: Vec<String> = Vec::new();
    append_file_block(
        &mut acc,
        "dir/a.txt",
        vec!["one".to_string(), "two".to_string()],
    );
    assert_eq!(
        acc,
        vec![
            "-------- dir/a.txt --------".to_string(),
            "one".to_string(),
            "two".to_string(),
        ]
    );
}

#[test]
fn blocks_accumulate_in_order() {
    let mut acc: Vec<String> = Vec::new();
    append_file_block(&mut acc, "a", vec!["1".to_string()]);
    append_file_block(&mut acc, "b", Vec::new());
    append_file_block(&mut acc, "c", vec!["2".to_string()]);
    assert_eq!(
        acc,
        vec![
            "-------- a --------".to_string(),
            "1".to_string(),
            "-------- c --------".to_string(),
            "2".to_string(),
        ]
    );
}

#[test]
fn invalid_pattern_is_rejected() {
    let r = LineRegex::new("(");
    assert!(r.is_err());
    assert!(!r.err().unwrap().message.is_empty());
}

#[test]
fn valid_pattern_compiles() {
    assert!(LineRegex::new(r"^a+b?$").is_ok());
}
