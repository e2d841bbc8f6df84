use brr::to_display_rows;

fn rows_as_pairs(rows: &[brr::DisplayRow]) -> Vec<(String, usize)> {
    rows.iter().map(|r| (r.content.clone(), r.len)).collect()
}

#[test]
fn wrap_fits_on_one_row() {
    let rows = to_display_rows(0, "hello", 10);
    assert_eq!(rows_as_pairs(&rows), vec![("hello".to_string(), 5)]);
}

#[test]
fn wrap_empty_text_has_no_rows() {
    let rows = to_display_rows(0, "", 10);
    assert!(rows.is_empty());
}

#[test]
fn wrap_at_width_ten_keeps_last_word_whole() {
    // terminal width 10: "eeeee" must stay unsplit and no row reaches 10
    let rows = to_display_rows(0, "a bb ccc dddd eeeee", 10);
    assert_eq!(
        rows_as_pairs(&rows),
        vec![
            ("a bb ccc ".to_string(), 9),
            ("dddd ".to_string(), 5),
            ("eeeee".to_string(), 5),
        ]
    );
    for r in &rows {
        assert!(r.len < 10);
    }
}

#[test]
fn wrap_reproduces_words_of_the_text() {
    let text = "the quick brown fox jumps over the lazy dog";
    let rows = to_display_rows(0, text, 12);
    let rejoined: String = rows.iter().map(|r| r.content.as_str()).collect::<String>();
    assert_eq!(rejoined, text);
}

#[test]
fn wrap_splits_lines_on_newline() {
    let rows = to_display_rows(0, "ab\ncd", 10);
    assert_eq!(
        rows_as_pairs(&rows),
        vec![("ab".to_string(), 2), ("cd".to_string(), 2)]
    );
}

#[test]
fn wrap_consumes_crlf_terminators() {
    let rows = to_display_rows(0, "ab\r\ncd", 10);
    assert_eq!(
        rows_as_pairs(&rows),
        vec![("ab".to_string(), 2), ("cd".to_string(), 2)]
    );
}

#[test]
fn wrap_swallows_one_trailing_newline() {
    // the caller restores a trailing blank line; the wrapper itself
    // consumes the final terminator as `str::lines` does
    let rows = to_display_rows(0, "ab\n", 10);
    assert_eq!(rows_as_pairs(&rows), vec![("ab".to_string(), 2)]);
}

#[test]
fn wrap_starting_column_continues_first_row() {
    // continuing at column 3 with width 6 forces "hello" onto a new row,
    // closing a first row that holds only the inherited column width
    let rows = to_display_rows(3, "hello", 6);
    assert_eq!(
        rows_as_pairs(&rows),
        vec![("".to_string(), 3), ("hello".to_string(), 5)]
    );
}

#[test]
fn wrap_oversized_word_stays_unsplit() {
    let rows = to_display_rows(0, "abcdefghij xy", 5);
    assert_eq!(
        rows_as_pairs(&rows),
        vec![
            ("".to_string(), 0),
            ("abcdefghij ".to_string(), 11),
            ("xy".to_string(), 2),
        ]
    );
}

#[test]
fn wrap_spaces_travel_with_preceding_word() {
    let rows = to_display_rows(0, "aa bb", 4);
    assert_eq!(
        rows_as_pairs(&rows),
        vec![("aa ".to_string(), 3), ("bb".to_string(), 2)]
    );
}

#[test]
fn wrap_counts_graphemes_not_bytes() {
    // five accented characters, far more than five bytes, fit width 6
    let text = "\u{e9}\u{e9}\u{e9}\u{e9}\u{e9}";
    let rows = to_display_rows(0, text, 6);
    assert_eq!(rows.len(), 1);
    assert_eq!(rows[0].len, 5);
    assert_eq!(rows[0].content, text);
}

#[test]
fn wrap_counts_grapheme_clusters_not_code_points() {
    // three clusters of a letter plus a combining accent: six characters,
    // but a display width of three
    let text = "e\u{301}e\u{301}e\u{301}";
    let rows = to_display_rows(0, text, 4);
    assert_eq!(rows.len(), 1);
    assert_eq!(rows[0].len, 3);
    assert_eq!(rows[0].content, text);
}
