use thurbox_kernel::links::{detect_urls, offered_links, url_at, url_at_position};

#[test]
fn detect_https_url() {
    let rows = vec!["Visit https://example.com for info".to_string()];
    let links = detect_urls(&rows);
    assert_eq!(links.len(), 1);
    assert_eq!(links[0].url, "https://example.com");
    assert_eq!(links[0].row, 0);
    assert_eq!(links[0].start_col, 6);
    assert_eq!(links[0].end_col, 25);
}

#[test]
fn detect_http_url() {
    let rows = vec!["http://example.org/path?q=1".to_string()];
    let links = detect_urls(&rows);
    assert_eq!(links.len(), 1);
    assert_eq!(links[0].url, "http://example.org/path?q=1");
}

#[test]
fn strip_trailing_punctuation() {
    let rows = vec!["See https://example.com/page.".to_string()];
    let links = detect_urls(&rows);
    assert_eq!(links.len(), 1);
    assert_eq!(links[0].url, "https://example.com/page");
}

#[test]
fn strip_trailing_paren() {
    let rows = vec!["(https://example.com)".to_string()];
    let links = detect_urls(&rows);
    assert_eq!(links.len(), 1);
    assert_eq!(links[0].url, "https://example.com");
}

#[test]
fn multiple_urls_on_one_row() {
    let rows = vec!["https://a.com and https://b.com here".to_string()];
    let links = detect_urls(&rows);
    assert_eq!(links.len(), 2);
    assert_eq!(links[0].url, "https://a.com");
    assert_eq!(links[1].url, "https://b.com");
}

#[test]
fn no_urls() {
    let rows = vec!["no links here".to_string()];
    let links = detect_urls(&rows);
    assert!(links.is_empty());
}

#[test]
fn url_at_position_hit() {
    let rows = vec!["Visit https://example.com for info".to_string()];
    let links = detect_urls(&rows);
    assert_eq!(url_at_position(&links, 0, 6), Some("https://example.com"));
    assert_eq!(url_at_position(&links, 0, 24), Some("https://example.com"));
}

#[test]
fn url_at_position_miss() {
    let rows = vec!["Visit https://example.com for info".to_string()];
    let links = detect_urls(&rows);
    assert_eq!(url_at_position(&links, 0, 0), None);
    assert_eq!(url_at_position(&links, 0, 25), None);
    assert_eq!(url_at_position(&links, 1, 10), None);
}

#[test]
fn file_url_detected() {
    let rows = vec!["file:///home/user/doc.txt".to_string()];
    let links = detect_urls(&rows);
    assert_eq!(links.len(), 1);
    assert_eq!(links[0].url, "file:///home/user/doc.txt");
}

#[test]
fn preserves_path_components() {
    let rows = vec!["https://example.com/a/b/c?x=1&y=2#frag".to_string()];
    let links = detect_urls(&rows);
    assert_eq!(links.len(), 1);
    assert_eq!(links[0].url, "https://example.com/a/b/c?x=1&y=2#frag");
}

#[test]
fn empty_rows() {
    let links = detect_urls(&[]);
    assert!(links.is_empty());
}

#[test]
fn url_at_position_empty_links() {
    assert_eq!(url_at_position(&[], 0, 0), None);
}

#[test]
fn strip_multiple_trailing_punctuation() {
    let rows = vec!["https://example.com);;".to_string()];
    let links = detect_urls(&rows);
    assert_eq!(links.len(), 1);
    assert_eq!(links[0].url, "https://example.com");
}

#[test]
fn url_at_start_of_row() {
    let rows = vec!["https://example.com".to_string()];
    let links = detect_urls(&rows);
    assert_eq!(links.len(), 1);
    assert_eq!(links[0].start_col, 0);
}

#[test]
fn urls_across_multiple_rows() {
    let rows = vec![
        "first https://a.com here".to_string(),
        "no url line".to_string(),
        "last https://b.com end".to_string(),
    ];
    let links = detect_urls(&rows);
    assert_eq!(links.len(), 2);
    assert_eq!(links[0].row, 0);
    assert_eq!(links[0].url, "https://a.com");
    assert_eq!(links[1].row, 2);
    assert_eq!(links[1].url, "https://b.com");
}

#[test]
fn bare_scheme_rejected() {
    let rows = vec!["see https:// here".to_string()];
    let links = detect_urls(&rows);
    assert!(links.is_empty());
}

#[test]
fn strip_trailing_colon_and_bracket() {
    let rows = vec!["[https://example.com/path]:".to_string()];
    let links = detect_urls(&rows);
    assert_eq!(links.len(), 1);
    assert_eq!(links[0].url, "https://example.com/path");
}

#[test]
fn non_ascii_before_url_uses_char_offsets() {
    let rows = vec!["• https://example.com".to_string()];
    let links = detect_urls(&rows);
    assert_eq!(links.len(), 1);
    assert_eq!(links[0].start_col, 2);
    assert_eq!(links[0].end_col, 21);
    assert_eq!(url_at_position(&links, 0, 2), Some("https://example.com"));
    assert_eq!(url_at_position(&links, 0, 1), None);
}

#[test]
fn wide_chars_before_url_use_display_width() {
    let rows = vec!["漢字 https://example.com".to_string()];
    let links = detect_urls(&rows);
    assert_eq!(links.len(), 1);
    assert_eq!(links[0].url, "https://example.com");
    assert_eq!(links[0].start_col, 5);
    assert_eq!(links[0].end_col, 5 + "https://example.com".len());
    assert_eq!(url_at_position(&links, 0, 5), Some("https://example.com"));
    assert_eq!(url_at_position(&links, 0, 4), None);
}

#[test]
fn emoji_before_url_uses_display_width() {
    let rows = vec!["🚀 https://example.com".to_string()];
    let links = detect_urls(&rows);
    assert_eq!(links.len(), 1);
    assert_eq!(links[0].start_col, 3);
    assert_eq!(url_at_position(&links, 0, 3), Some("https://example.com"));
}

#[test]
fn a_scheme_with_a_single_wide_character_is_kept() {
    let rows = vec!["http://é".to_string()];
    let links = detect_urls(&rows);
    assert_eq!(links.len(), 1);
    assert_eq!(links[0].url, "http://é");
}

#[test]
fn wide_chars_through_parser_match_cell_columns() {
    let mut parser = vt100::Parser::new(std::num::NonZeroU16::new(1).unwrap(), std::num::NonZeroU16::new(40).unwrap(), 0);
    parser.process("漢字 https://example.com".as_bytes());
    let rows = thurbox_kernel::links::extract_screen_rows(parser.screen());
    let links = detect_urls(&rows);
    assert_eq!(links.len(), 1);
    assert_eq!(links[0].start_col, 5);
    assert_eq!(url_at_position(&links, 0, 5), Some("https://example.com"));
    assert_eq!(url_at_position(&links, 0, 4), None);
}

#[test]
fn extract_screen_rows_from_parser() {
    let mut parser = vt100::Parser::new(std::num::NonZeroU16::new(2).unwrap(), std::num::NonZeroU16::new(10).unwrap(), 0);
    parser.process(b"hello");
    let rows = thurbox_kernel::links::extract_screen_rows(parser.screen());
    assert_eq!(rows.len(), 2);
    assert_eq!(rows[0], "hello     ");
    assert_eq!(rows[1], "          ");
}

#[test]
fn a_run_takes_precedence_over_the_bare_url_it_wraps() {
    let rows = vec!["see https://a.test and https://b.test".to_string()];
    let detected = detect_urls(&rows);
    assert_eq!(detected.len(), 2);
    let runs = vec![("https://a.test/real".to_string(), 0, 4)];
    let offered = offered_links(&runs, &detected, &vec![true, false]);
    assert_eq!(
        offered,
        vec![("https://a.test/real".to_string(), 0, 4), ("https://b.test".to_string(), 0, 23)]
    );
}

#[test]
fn the_escape_answers_first_and_the_scan_only_when_it_declines() {
    let rows = vec!["go https://plain.test now".to_string()];
    let detected = detect_urls(&rows);
    assert_eq!(url_at(Some("https://rich.test".to_string()), &detected, 0, 5), Some("https://rich.test".to_string()));
    assert_eq!(url_at(None, &detected, 0, 5), Some("https://plain.test".to_string()));
    assert_eq!(url_at(None, &detected, 0, 0), None);
}
