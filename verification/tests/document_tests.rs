use brr::{append_newline, Document, Extension, Metadata, Position};

fn meta() -> Metadata {
    Metadata {
        current_dir: String::new(),
        path: "notes.txt".to_string(),
        name: "notes.txt".to_string(),
        extension: Extension::Txt,
    }
}

fn type_text(doc: &mut Document, text: &str) {
    for c in text.chars() {
        doc.insert(c);
    }
}

#[test]
fn open_missing_file_starts_empty() {
    let doc = Document::open(meta(), None, 80);
    assert_eq!(doc.content, "");
    assert_eq!(doc.count.words, 0);
    assert_eq!(doc.count.characters, 0);
    assert_eq!(doc.start_count, doc.count);
    assert!(!doc.append_buffer.is_dirty());
}

#[test]
fn open_strips_one_trailing_newline() {
    let doc = Document::open(meta(), Some("abc\n".to_string()), 80);
    assert_eq!(doc.content, "abc");
    // the counts are taken before the strip
    assert_eq!(doc.count.characters, 4);
    assert_eq!(doc.count.words, 1);
}

#[test]
fn open_strips_crlf_terminator() {
    let doc = Document::open(meta(), Some("abc\r\n".to_string()), 80);
    assert_eq!(doc.content, "abc");
}

#[test]
fn open_keeps_inner_newlines() {
    let doc = Document::open(meta(), Some("a\nb\n\n".to_string()), 80);
    assert_eq!(doc.content, "a\nb\n");
}

#[test]
fn typing_accumulates_in_buffer_only() {
    let mut doc = Document::open(meta(), None, 80);
    doc.wrap_file();
    doc.wrap_buffer();
    type_text(&mut doc, "hello world");
    assert_eq!(doc.append_buffer.buffer, "hello world");
    assert_eq!(doc.content, "");
    assert!(doc.append_buffer.is_dirty());
}

#[test]
fn manual_save_commits_whole_buffer() {
    // opening a missing file, typing, and saving with no word threshold
    let mut doc = Document::open(meta(), None, 80);
    doc.wrap_file();
    doc.wrap_buffer();
    type_text(&mut doc, "hello world");
    doc.commit_buffer(0);
    doc.wrap_file();
    doc.wrap_buffer();
    assert_eq!(doc.content, "hello world");
    assert_eq!(doc.append_buffer.buffer, "");
    assert!(!doc.append_buffer.is_dirty());
    // what the quit fix-up leaves on disk
    let mut on_disk = doc.content.clone();
    append_newline(&mut on_disk);
    assert_eq!(on_disk, "hello world\n");
}

#[test]
fn word_threshold_save_splits_at_word_boundary() {
    let mut doc = Document::open(meta(), None, 80);
    type_text(&mut doc, "alpha beta gamma delta epsilon zulu");
    doc.commit_buffer(5);
    assert_eq!(doc.content, "alpha beta gamma delta ");
    assert_eq!(doc.append_buffer.buffer, "epsilon zulu");
}

#[test]
fn word_threshold_save_needs_enough_words() {
    let mut doc = Document::open(meta(), None, 80);
    type_text(&mut doc, "one two");
    doc.commit_buffer(5);
    assert_eq!(doc.content, "");
    assert_eq!(doc.append_buffer.buffer, "one two");
}

#[test]
fn commit_recounts_lifetime_tallies() {
    let mut doc = Document::open(meta(), Some("one two".to_string()), 80);
    type_text(&mut doc, " three");
    doc.commit_buffer(0);
    assert_eq!(doc.content, "one two three");
    assert_eq!(doc.count.words, 3);
    assert_eq!(doc.count.characters, 13);
    let written = doc.written_this_session();
    assert_eq!(written.words, 1);
    assert_eq!(written.characters, 6);
}

#[test]
fn written_this_session_never_goes_negative() {
    let mut doc = Document::open(meta(), Some("one two three".to_string()), 80);
    // committing an empty buffer recounts, leaving the tallies unchanged
    doc.commit_buffer(0);
    let written = doc.written_this_session();
    assert_eq!(written.words, 0);
    assert_eq!(written.characters, 0);
}

#[test]
fn wrap_file_sets_join_after_last_row() {
    let mut doc = Document::open(meta(), Some("hello".to_string()), 80);
    doc.wrap_file();
    assert_eq!(doc.file_drows.len(), 1);
    assert_eq!(doc.append_buffer.join_pos, Position { x: 5, y: 0 });
}

#[test]
fn wrap_file_preserves_trailing_blank_line() {
    let mut doc = Document::open(meta(), Some("ab\n\n".to_string()), 80);
    assert_eq!(doc.content, "ab\n");
    doc.wrap_file();
    assert_eq!(doc.file_drows.len(), 2);
    assert_eq!(doc.file_drows[1].content, "");
    assert_eq!(doc.append_buffer.join_pos, Position { x: 0, y: 1 });
}

#[test]
fn join_row_shows_file_and_buffer_together() {
    let mut doc = Document::open(meta(), Some("line one".to_string()), 80);
    doc.wrap_file();
    doc.wrap_buffer();
    type_text(&mut doc, " and more");
    let join_y = doc.append_buffer.join_pos.y;
    let (file_part, buf_part) = doc.get_display_row(join_y);
    assert!(file_part.is_some());
    assert!(buf_part.is_some());
    assert_eq!(file_part.unwrap().content, "line one");
    assert_eq!(buf_part.unwrap().content, " and more");
}

#[test]
fn join_row_of_empty_file_is_buffer_alone() {
    let mut doc = Document::open(meta(), None, 80);
    doc.wrap_file();
    doc.wrap_buffer();
    type_text(&mut doc, "typed");
    let (file_part, buf_part) = doc.get_display_row(0);
    assert!(file_part.is_none());
    assert_eq!(buf_part.unwrap().content, "typed");
}

#[test]
fn rows_before_join_are_file_rows_alone() {
    let mut doc = Document::open(meta(), Some("one\ntwo".to_string()), 80);
    doc.wrap_file();
    doc.wrap_buffer();
    type_text(&mut doc, "!");
    let (file_part, buf_part) = doc.get_display_row(0);
    assert_eq!(file_part.unwrap().content, "one");
    assert!(buf_part.is_none());
}

#[test]
fn rows_past_join_are_buffer_rows_offset_by_one() {
    let mut doc = Document::open(meta(), Some("head".to_string()), 10);
    doc.wrap_file();
    doc.wrap_buffer();
    // wraps the buffer into several rows past the join row
    type_text(&mut doc, " aa bb cc dd ee");
    let join_y = doc.append_buffer.join_pos.y;
    let (file_part, buf_part) = doc.get_display_row(join_y + 1);
    assert!(file_part.is_none());
    assert!(buf_part.is_some());
    assert_eq!(buf_part.unwrap().content, doc.buf_drows[1].content);
}

#[test]
fn display_len_counts_join_row_once() {
    let mut doc = Document::open(meta(), Some("head".to_string()), 10);
    doc.wrap_file();
    doc.wrap_buffer();
    type_text(&mut doc, " aa bb cc dd ee");
    assert_eq!(
        doc.display_len(),
        doc.file_drows.len() + doc.buf_drows.len() - 1
    );
    let mut plain = Document::open(meta(), Some("head".to_string()), 10);
    plain.wrap_file();
    plain.wrap_buffer();
    assert_eq!(plain.display_len(), plain.file_drows.len());
}

#[test]
fn delete_removes_last_character_only() {
    let mut doc = Document::open(meta(), None, 80);
    type_text(&mut doc, "ab");
    doc.delete();
    assert_eq!(doc.append_buffer.buffer, "a");
    doc.delete();
    doc.delete();
    assert_eq!(doc.append_buffer.buffer, "");
}

#[test]
fn count_words_recounts_the_buffer() {
    let mut doc = Document::open(meta(), None, 80);
    type_text(&mut doc, "hello there world");
    doc.append_buffer.count_words();
    assert_eq!(doc.append_buffer.word_count, 3);
}

#[test]
fn append_newline_is_idempotent() {
    let mut s = "text".to_string();
    append_newline(&mut s);
    assert_eq!(s, "text\n");
    append_newline(&mut s);
    assert_eq!(s, "text\n");
    let mut empty = String::new();
    append_newline(&mut empty);
    assert_eq!(empty, "\n");
    append_newline(&mut empty);
    assert_eq!(empty, "\n");
}

#[test]
fn save_then_open_round_trips_content() {
    // what save writes, plus the quit fix-up's newline, opens back as the
    // very content that was committed
    let mut doc = Document::open(meta(), None, 80);
    type_text(&mut doc, "first line\nsecond line");
    doc.commit_buffer(0);
    let mut on_disk = doc.content.clone();
    append_newline(&mut on_disk);
    let reopened = Document::open(meta(), Some(on_disk), 80);
    assert_eq!(reopened.content, doc.content);
}

#[test]
fn render_expands_tabs_to_two_spaces() {
    assert_eq!(brr::render("a\tb"), "a  b");
    assert_eq!(brr::render("\t\t"), "    ");
    assert_eq!(brr::render("plain"), "plain");
}
