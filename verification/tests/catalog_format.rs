//! The catalog's tab-separated text format on concrete lines.

use batch_fetch::catalog::{parse_catalog_line, parse_catalog_lines};

#[test]
fn line_splits_name_and_url_on_tab() {
    let e = parse_catalog_line("a.tar\thttp://x/a").unwrap();
    assert_eq!(e.file_name, "a.tar");
    assert_eq!(e.url, "http://x/a");
}

#[test]
fn url_field_is_trimmed() {
    let e = parse_catalog_line("a.tar\t  http://x/a \r").unwrap();
    assert_eq!(e.file_name, "a.tar");
    assert_eq!(e.url, "http://x/a");
}

#[test]
fn third_field_is_ignored() {
    let e = parse_catalog_line("a.tar\thttp://x/a\textra").unwrap();
    assert_eq!(e.url, "http://x/a");
}

#[test]
fn line_without_tab_is_malformed() {
    assert!(parse_catalog_line("just one field").is_none());
    assert!(parse_catalog_line("").is_none());
}

#[test]
fn header_line_is_skipped() {
    let lines = vec![
        "file_name\turl".to_string(),
        "a.tar\thttp://x/a".to_string(),
        "b.tar\thttp://x/b".to_string(),
    ];
    let entries = parse_catalog_lines(&lines);
    assert_eq!(entries.len(), 2);
    assert_eq!(entries[0].file_name, "a.tar");
    assert_eq!(entries[1].file_name, "b.tar");
}

#[test]
fn blank_and_malformed_lines_are_ignored() {
    let lines = vec![
        "a.tar\thttp://x/a".to_string(),
        "".to_string(),
        "nonsense".to_string(),
        "b.tar\thttp://x/b".to_string(),
    ];
    let entries = parse_catalog_lines(&lines);
    assert_eq!(entries.len(), 2);
    assert_eq!(entries[0].file_name, "a.tar");
    assert_eq!(entries[1].file_name, "b.tar");
}

#[test]
fn first_line_is_only_a_header_when_it_starts_so() {
    let lines = vec!["a.tar\thttp://x/a".to_string()];
    let entries = parse_catalog_lines(&lines);
    assert_eq!(entries.len(), 1);
    assert_eq!(entries[0].url, "http://x/a");
}
