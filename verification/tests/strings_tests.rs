use fgm::sorting::sort_strings;
use fgm::strings::{
    contains_str, join_lines, lines_of, replace_str, str_le, trim_str,
};

#[test]
fn replace_rewrites_every_occurrence() {
    assert_eq!(replace_str("a~b~", "~", "X"), "aXbX");
    assert_eq!(replace_str("go1.22.3.tar.gz", ".tar.gz", ""), "go1.22.3");
    assert_eq!(replace_str("", "~", "X"), "");
}

#[test]
fn trim_drops_the_blank_edges() {
    assert_eq!(trim_str(" \t1.22.3\r\n"), "1.22.3");
    assert_eq!(trim_str("1.22.3"), "1.22.3");
    assert_eq!(trim_str("  "), "");
}

#[test]
fn trim_drops_every_unicode_blank() {
    // The same set the standard library's trim uses.
    assert_eq!(trim_str("\u{a0}\u{2003}1.22.3\u{3000}"), "1.22.3");
    assert_eq!("\u{a0}\u{2003}1.22.3\u{3000}".trim(), "1.22.3");
}

#[test]
fn lines_split_like_a_text_file() {
    assert_eq!(lines_of("a\r\nb\nc"), vec!["a", "b", "c"]);
    assert_eq!(lines_of("a\n"), vec!["a"]);
    assert_eq!(lines_of("\n"), vec![""]);
    assert!(lines_of("").is_empty());
}

#[test]
fn joined_lines_split_back() {
    let v = vec!["1.22.3".to_string(), "1.21.0".to_string()];
    let joined = join_lines(&v);
    assert_eq!(joined, "1.22.3\n1.21.0");
    assert_eq!(lines_of(&joined), v);
}

#[test]
fn substring_search_finds_the_architecture_token() {
    assert!(contains_str("go1.22.3.linux-amd64.tar.gz", "linux-amd64"));
    assert!(!contains_str("go1.22.3.windows-amd64.msi", "linux-amd64"));
    assert!(contains_str("anything", ""));
}

#[test]
fn comparison_is_lexicographic_by_code_point() {
    assert!(str_le("", "a"));
    assert!(str_le("1.21.0", "1.22.3"));
    assert!(!str_le("1.22.3", "1.21.0"));
    assert!(str_le("go1.21", "go1.21.0"));
}

#[test]
fn sorting_is_non_decreasing_and_keeps_every_element() {
    let v = vec![
        "b".to_string(),
        "a".to_string(),
        "ab".to_string(),
        "".to_string(),
        "a".to_string(),
    ];
    let sorted = sort_strings(&v);
    assert_eq!(sorted, vec!["", "a", "a", "ab", "b"]);
    for w in sorted.windows(2) {
        assert!(str_le(&w[0], &w[1]));
    }
}
