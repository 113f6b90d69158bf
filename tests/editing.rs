use editcore::buffer::TextBuffer;
use editcore::comment::{comment_token_for, comment_token_of_name};
use editcore::selection::Selection;

fn buf(text: &str) -> TextBuffer {
    TextBuffer::from_contents(text, None)
}

fn text(b: &TextBuffer) -> String {
    b.content.to_string()
}

fn select_rows(b: &mut TextBuffer, a: usize, z: usize) {
    b.selection = Some(Selection { start: (a, 0), end: (z, 1), anchor: (a, 0) });
}

#[test]
fn indent_then_unindent_restores_lines() {
    let mut b = buf("a\n  b\n\tc\nd");
    select_rows(&mut b, 0, 2);
    b.indent_selection(true, 4);
    assert_eq!(text(&b), "    a\n      b\n    \tc\nd");
    b.unindent_selection(true, 4);
    assert_eq!(text(&b), "a\n  b\n\tc\nd");
}

#[test]
fn indent_moves_cursor_and_selection() {
    let mut b = buf("ab\ncd");
    b.cursor_position = (1, 1);
    b.selection = Some(Selection { start: (0, 1), end: (1, 1), anchor: (0, 1) });
    b.indent_selection(false, 4);
    assert_eq!(text(&b), "\tab\n\tcd");
    assert_eq!(b.cursor_position, (1, 2));
    let s = b.selection.unwrap();
    assert_eq!((s.start, s.end, s.anchor), ((0, 2), (1, 2), (0, 2)));
}

#[test]
fn unindent_removes_what_exists() {
    let mut b = buf("  x\n\ty\n      z");
    b.cursor_position = (2, 7);
    select_rows(&mut b, 0, 2);
    let removed = b.unindent_selection(true, 4);
    assert_eq!(removed, 0);
    assert_eq!(text(&b), "x\ny\n  z");
    assert_eq!(b.cursor_position, (2, 3));
    let mut one = buf("   q");
    one.selection = Some(Selection { start: (0, 0), end: (0, 0), anchor: (0, 0) });
    assert_eq!(one.unindent_selection(true, 4), 3);
    assert_eq!(text(&one), "q");
}

#[test]
fn indent_without_selection_does_nothing() {
    let mut b = buf("ab");
    b.indent_selection(true, 4);
    assert_eq!(text(&b), "ab");
    assert_eq!(b.unindent_selection(true, 4), 0);
    assert!(!b.modified);
}

#[test]
fn line_comment_toggles_twice_back() {
    let mut b = buf("    let x = 1;\nnext");
    b.cursor_position = (0, 6);
    let tok = comment_token_of_name(&"rust".chars().collect());
    assert!(b.toggle_line_comment(&tok));
    assert_eq!(text(&b), "    // let x = 1;\nnext");
    assert_eq!(b.cursor_position, (0, 9));
    assert!(!b.toggle_line_comment(&tok));
    assert_eq!(text(&b), "    let x = 1;\nnext");
    assert_eq!(b.cursor_position, (0, 6));
}

#[test]
fn comment_on_empty_line_stays_on_it() {
    let mut b = buf("\nx");
    let tok: Vec<char> = "#".chars().collect();
    b.toggle_line_comment(&tok);
    assert_eq!(text(&b), "# \nx");
    b.toggle_line_comment(&tok);
    assert_eq!(text(&b), "\nx");
}

#[test]
fn block_comment_all_or_nothing() {
    let mut b = buf("a\n\n// b\nc");
    select_rows(&mut b, 0, 3);
    let tok: Vec<char> = "//".chars().collect();
    assert!(b.toggle_block_comment(&tok));
    assert_eq!(text(&b), "// a\n\n// // b\n// c");
    assert!(!b.toggle_block_comment(&tok));
    assert_eq!(text(&b), "a\n\n// b\nc");
}

#[test]
fn toggle_comment_uses_language_token() {
    let mut b = buf("print(1)");
    b.syntax_name = Some("Python".to_string());
    assert!(b.toggle_comment());
    assert_eq!(text(&b), "# print(1)");
    let mut c = buf("x");
    assert!(c.toggle_comment());
    assert_eq!(text(&c), "// x");
}

#[test]
fn comment_tokens_by_language() {
    let tok = |n: &str| -> String { comment_token_for(&Some(n.to_string())).into_iter().collect() };
    assert_eq!(tok("Rust"), "//");
    assert_eq!(tok("PYTHON"), "#");
    assert_eq!(tok("html"), "<!--");
    assert_eq!(tok("CSS"), "/*");
    assert_eq!(tok("Lua"), "--");
    assert_eq!(tok("vim"), "\"");
    assert_eq!(tok("Cobol"), "//");
    let none: String = comment_token_for(&None).into_iter().collect();
    assert_eq!(none, "//");
}

#[test]
fn matching_brackets_both_ways() {
    let b = buf("f(a[1], (b))\n{\n  x\n}");
    assert_eq!(b.find_matching_bracket((0, 1)), Some((0, 11)));
    assert_eq!(b.find_matching_bracket((0, 11)), Some((0, 1)));
    assert_eq!(b.find_matching_bracket((0, 3)), Some((0, 5)));
    assert_eq!(b.find_matching_bracket((0, 5)), Some((0, 3)));
    assert_eq!(b.find_matching_bracket((1, 0)), Some((3, 0)));
    assert_eq!(b.find_matching_bracket((3, 0)), Some((1, 0)));
    assert_eq!(b.find_matching_bracket((0, 0)), None);
    assert_eq!(b.find_matching_bracket((7, 0)), None);
}

#[test]
fn unbalanced_brackets_have_no_match() {
    let b = buf("(()\n]");
    assert_eq!(b.find_matching_bracket((0, 0)), None);
    assert_eq!(b.find_matching_bracket((1, 0)), None);
    assert_eq!(b.get_bracket_depth_at((1, 0)), 0);
}

#[test]
fn bracket_depth_counts_from_start() {
    let b = buf("({[x]})\n(y)");
    assert_eq!(b.get_bracket_depth_at((0, 0)), 0);
    assert_eq!(b.get_bracket_depth_at((0, 2)), 2);
    assert_eq!(b.get_bracket_depth_at((0, 4)), 2);
    assert_eq!(b.get_bracket_depth_at((0, 6)), 0);
    assert_eq!(b.get_bracket_depth_at((1, 0)), 0);
    assert_eq!(b.get_bracket_depth_at((0, 3)), 0);
}

#[test]
fn find_next_wraps_around() {
    let b = buf("foo\nbar\nfoo");
    assert_eq!(b.find_next("foo", (2, 0), false), Some((0, 0)));
    assert_eq!(b.find_next("foo", (0, 0), false), Some((2, 0)));
    assert_eq!(b.find_next("bar", (1, 0), true), Some((1, 0)));
    assert_eq!(b.find_next("", (0, 0), true), None);
    assert_eq!(b.find_next("zzz", (0, 0), true), None);
}

#[test]
fn search_case_folding() {
    let b = buf("Foo fOO");
    assert_eq!(b.find_next("foo", (0, 0), true), None);
    assert_eq!(b.find_next("foo", (0, 0), false), Some((0, 4)));
    assert_eq!(b.find_all_matches("FOO", false), vec![(0, 0, 3), (0, 4, 7)]);
    assert!(b.find_all_matches("FOO", true).is_empty());
}

#[test]
fn find_all_matches_do_not_overlap() {
    let b = buf("aaaa\nxaax");
    assert_eq!(b.find_all_matches("aa", true), vec![(0, 0, 2), (0, 2, 4), (1, 1, 3)]);
    assert!(b.find_all_matches("", true).is_empty());
}

#[test]
fn replace_splices_and_moves_cursor() {
    let mut b = buf("say hello world");
    b.replace("WORLD", "there", false);
    assert_eq!(text(&b), "say hello there");
    assert_eq!(b.cursor_position, (0, 15));
    b.cursor_position = (0, 0);
    b.replace("hello", "a\nb", false);
    assert_eq!(text(&b), "say a\nb there");
    assert_eq!(b.cursor_position, (1, 1));
    b.replace("absent", "x", false);
    assert_eq!(text(&b), "say a\nb there");
}

#[test]
fn smart_indent_follows_previous_line() {
    let mut b = buf("fn f() {\n");
    b.cursor_position = (1, 0);
    assert_eq!(b.get_smart_indent(4), 4);
    let mut c = buf("\tif x:\n");
    c.cursor_position = (1, 0);
    assert_eq!(c.get_smart_indent(4), 4);
    c.file_path = Some("a.py".to_string());
    c.syntax_name = Some("Python".to_string());
    assert_eq!(c.get_smart_indent(4), 8);
    let mut d = buf("  call(\n");
    d.file_path = Some("a.txt".to_string());
    d.cursor_position = (1, 0);
    assert_eq!(d.get_smart_indent(2), 2);
    d.syntax_name = Some("Rust".to_string());
    assert_eq!(d.get_smart_indent(2), 4);
    assert_eq!(buf("x").get_smart_indent(4), 0);
}
