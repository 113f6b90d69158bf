use editcore::buffer::TextBuffer;
use editcore::selection::Selection;

fn buf(text: &str) -> TextBuffer {
    TextBuffer::from_contents(text, None)
}

fn text(b: &TextBuffer) -> String {
    b.content.to_string()
}

#[test]
fn selection_stays_ordered_when_dragged_backwards() {
    let mut b = buf("hello\nworld");
    b.cursor_position = (1, 3);
    b.start_selection();
    b.move_cursor_up();
    b.move_cursor_left();
    b.update_selection();
    let s = b.selection.unwrap();
    assert_eq!(s.start, (0, 2));
    assert_eq!(s.end, (1, 3));
    assert_eq!(s.anchor, (1, 3));
    b.move_cursor_down();
    b.move_cursor_right();
    b.move_cursor_right();
    b.update_selection();
    let s = b.selection.unwrap();
    assert_eq!(s.start, (1, 3));
    assert_eq!(s.end, (1, 4));
}

#[test]
fn selection_update_end_orders_endpoints() {
    let mut s = Selection::new((2, 5));
    s.update_end((1, 9));
    assert_eq!((s.start, s.end, s.anchor), ((1, 9), (2, 5), (2, 5)));
    s.update_end((2, 7));
    assert_eq!((s.start, s.end, s.anchor), ((2, 5), (2, 7), (2, 5)));
    assert!(!s.is_empty());
    s.update_end((2, 5));
    assert!(s.is_empty());
}

#[test]
fn undo_then_redo_restores_final_state() {
    let mut b = buf("ab");
    b.cursor_position = (0, 2);
    b.insert_char('c');
    b.insert_char('\n');
    b.insert_str("xy");
    b.delete_char();
    let final_text = text(&b);
    let final_cursor = b.cursor_position;
    assert_eq!(final_text, "abc\nx");
    for _ in 0..4 {
        assert!(b.undo());
    }
    assert_eq!(text(&b), "ab");
    assert_eq!(b.cursor_position, (0, 2));
    assert!(!b.undo());
    for _ in 0..4 {
        assert!(b.redo());
    }
    assert!(!b.redo());
    assert_eq!(text(&b), final_text);
    assert_eq!(b.cursor_position, final_cursor);
}

#[test]
fn new_edit_clears_redo() {
    let mut b = buf("");
    b.insert_char('a');
    assert!(b.undo());
    assert!(b.can_redo());
    b.insert_char('b');
    assert!(!b.can_redo());
    assert!(b.can_undo());
}

#[test]
fn undo_history_keeps_at_most_a_thousand() {
    let mut b = buf("");
    for _ in 0..1005 {
        b.insert_char('a');
    }
    let mut n = 0;
    while b.undo() {
        n += 1;
    }
    assert_eq!(n, 1000);
    assert_eq!(text(&b).len(), 5);
}

#[test]
fn insert_then_backspace_restores() {
    let mut b = buf("one\ntwo");
    b.cursor_position = (1, 1);
    b.insert_char('x');
    assert_eq!(text(&b), "one\ntxwo");
    assert_eq!(b.cursor_position, (1, 2));
    b.delete_char();
    assert_eq!(text(&b), "one\ntwo");
    assert_eq!(b.cursor_position, (1, 1));
}

#[test]
fn newline_then_backspace_restores() {
    let mut b = buf("abcd");
    b.cursor_position = (0, 2);
    b.insert_char('\n');
    assert_eq!(text(&b), "ab\ncd");
    assert_eq!(b.cursor_position, (1, 0));
    b.delete_char();
    assert_eq!(text(&b), "abcd");
    assert_eq!(b.cursor_position, (0, 2));
}

#[test]
fn backspace_at_document_start_does_nothing() {
    let mut b = buf("abc");
    b.delete_char();
    assert_eq!(text(&b), "abc");
    assert!(!b.modified);
    assert!(!b.can_undo());
}

#[test]
fn delete_forward_removes_char_and_joins_lines() {
    let mut b = buf("ab\ncd");
    b.cursor_position = (0, 1);
    b.delete_forward();
    assert_eq!(text(&b), "a\ncd");
    b.delete_forward();
    assert_eq!(text(&b), "acd");
    assert_eq!(b.cursor_position, (0, 1));
    b.cursor_position = (0, 3);
    b.delete_forward();
    assert_eq!(text(&b), "acd");
}

#[test]
fn insert_str_moves_cursor_past_text() {
    let mut b = buf("ab");
    b.cursor_position = (0, 1);
    b.insert_str("x\nyz");
    assert_eq!(text(&b), "ax\nyzb");
    assert_eq!(b.cursor_position, (1, 2));
    assert!(b.modified);
}

#[test]
fn vertical_moves_clamp_column() {
    let mut b = buf("long line\nab\n");
    b.cursor_position = (0, 7);
    b.move_cursor_down();
    assert_eq!(b.cursor_position, (1, 2));
    b.move_cursor_down();
    assert_eq!(b.cursor_position, (2, 0));
    b.move_cursor_down();
    assert_eq!(b.cursor_position, (2, 0));
    b.move_cursor_up();
    b.move_cursor_up();
    assert_eq!(b.cursor_position, (0, 0));
    b.move_cursor_up();
    assert_eq!(b.cursor_position, (0, 0));
}

#[test]
fn horizontal_moves_wrap_lines() {
    let mut b = buf("ab\ncd");
    b.cursor_position = (0, 1);
    b.move_cursor_right();
    assert_eq!(b.cursor_position, (0, 2));
    b.move_cursor_right();
    assert_eq!(b.cursor_position, (1, 0));
    b.move_cursor_left();
    assert_eq!(b.cursor_position, (0, 2));
    b.cursor_position = (0, 0);
    b.move_cursor_left();
    assert_eq!(b.cursor_position, (0, 0));
    b.move_to_line_end();
    assert_eq!(b.cursor_position, (0, 2));
    b.move_to_line_start();
    assert_eq!(b.cursor_position, (0, 0));
}

#[test]
fn word_moves_skip_whitespace_and_words() {
    let mut b = buf("foo  bar baz");
    b.move_cursor_word_right();
    assert_eq!(b.cursor_position, (0, 5));
    b.move_cursor_word_right();
    assert_eq!(b.cursor_position, (0, 9));
    b.move_cursor_word_right();
    assert_eq!(b.cursor_position, (0, 11));
    b.move_cursor_word_left();
    assert_eq!(b.cursor_position, (0, 9));
    b.cursor_position = (0, 5);
    b.move_cursor_word_left();
    assert_eq!(b.cursor_position, (0, 0));
}

#[test]
fn lines_and_visible_lines() {
    let b = buf("a\nbc\n\nd");
    assert_eq!(b.line_count(), 4);
    assert_eq!(b.get_line(1), "bc\n");
    assert_eq!(b.get_line(3), "d");
    assert_eq!(b.get_line(9), "");
    assert_eq!(b.get_visible_lines(1, 2), vec!["bc\n".to_string(), "\n".to_string()]);
    assert_eq!(b.get_visible_lines(3, 5), vec!["d".to_string()]);
    assert!(b.get_visible_lines(4, 5).is_empty());
    assert_eq!(buf("").line_count(), 1);
}

#[test]
fn selected_text_and_deletion() {
    let mut b = buf("hello\nworld");
    b.cursor_position = (0, 3);
    b.start_selection();
    b.cursor_position = (1, 2);
    b.update_selection();
    assert!(b.has_selection());
    assert_eq!(b.get_selection_lines(), Some((0, 1)));
    assert_eq!(b.get_selected_text().as_deref(), Some("lo\nwo"));
    assert_eq!(b.delete_selection().as_deref(), Some("lo\nwo"));
    assert_eq!(text(&b), "helrld");
    assert_eq!(b.cursor_position, (0, 3));
    assert!(b.selection.is_none());
    assert_eq!(b.delete_selection(), None);
}

#[test]
fn empty_selection_selects_nothing() {
    let mut b = buf("abc");
    b.start_selection();
    assert!(!b.has_selection());
    assert_eq!(b.get_selected_text(), None);
    assert!(!b.is_position_selected(0, 0));
    b.clear_selection();
    assert!(b.selection.is_none());
}

#[test]
fn position_selected_over_lines() {
    let mut b = buf("aaaa\nbbbb\ncccc");
    b.selection = Some(Selection { start: (0, 2), end: (2, 1), anchor: (0, 2) });
    assert!(!b.is_position_selected(0, 1));
    assert!(b.is_position_selected(0, 2));
    assert!(b.is_position_selected(1, 0));
    assert!(b.is_position_selected(2, 0));
    assert!(!b.is_position_selected(2, 1));
    b.selection = Some(Selection { start: (1, 1), end: (1, 3), anchor: (1, 1) });
    assert!(b.is_position_selected(1, 2));
    assert!(!b.is_position_selected(1, 3));
}

#[test]
fn cursor_moves_only_to_positions() {
    let mut b = buf("ab\ncd");
    assert!(b.move_cursor_to((1, 2)));
    assert_eq!(b.cursor_position, (1, 2));
    assert!(!b.move_cursor_to((0, 3)));
    assert!(!b.move_cursor_to((2, 0)));
    assert_eq!(b.cursor_position, (1, 2));
}

#[test]
fn select_all_spans_document() {
    let mut b = buf("ab\ncde");
    b.cursor_position = (1, 1);
    b.select_all();
    let s = b.selection.unwrap();
    assert_eq!((s.start, s.end), ((0, 0), (1, 2)));
    assert_eq!(b.cursor_position, (1, 2));
    assert_eq!(b.get_selected_text().as_deref(), Some("ab\ncd"));
}
