use editcore::buffer::TextBuffer;
use editcore::buffer_manager::BufferManager;
use editcore::config::Config;
use editcore::cursor::{Cursor, CursorManager};
use editcore::theme::{hex_to_color, Theme, ThemeManager};
use editcore::undo::{EditorState, UndoManager};

#[test]
fn cursors_add_remove_merge() {
    let mut m = CursorManager::new();
    m.add_cursor((1, 1));
    m.add_cursor((1, 1));
    m.add_cursor((2, 0));
    assert_eq!(m.cursor_count(), 3);
    assert!(m.has_multiple_cursors());
    m.remove_cursor(0);
    assert_eq!(m.cursor_count(), 3);
    m.remove_cursor(1);
    assert_eq!(m.cursor_count(), 2);
    assert_eq!(m.cursors[1].position, (2, 0));
    m.set_primary(1);
    assert_eq!(m.primary().position, (2, 0));
    assert!(!m.cursors[0].is_primary);
    m.primary_mut().position = (0, 5);
    assert_eq!(m.cursors[1].position, (0, 5));
    m.clear_secondary_cursors();
    assert_eq!(m.cursor_count(), 1);
    assert_eq!(m.primary().position, (0, 5));
}

#[test]
fn merging_keeps_first_of_each_position() {
    let mut m = CursorManager::new();
    m.cursors.push(Cursor::new((1, 0), false));
    m.cursors.push(Cursor::new((0, 0), false));
    m.cursors.push(Cursor::new((1, 0), false));
    m.set_primary(3);
    m.merge_overlapping_cursors();
    let positions: Vec<_> = m.cursors.iter().map(|c| c.position).collect();
    assert_eq!(positions, vec![(0, 0), (1, 0)]);
    assert_eq!(m.primary_index, 1);
    assert!(m.cursors[1].is_primary);
}

#[test]
fn buffers_open_close_cycle() {
    let mut m = BufferManager::new();
    assert_eq!(m.buffer_count(), 1);
    let mut b = TextBuffer::from_contents("x", Some("/tmp/a.rs".to_string()));
    b.modified = true;
    m.add_buffer(b);
    assert_eq!(m.current_buffer_index(), 2);
    assert_eq!(m.find_by_path("/tmp/a.rs"), Some(1));
    assert_eq!(m.find_by_path("/tmp/b.rs"), None);
    assert_eq!(m.has_unsaved_buffers(), vec![1]);
    m.next_buffer();
    assert_eq!(m.current_buffer_index(), 1);
    m.previous_buffer();
    assert_eq!(m.current_buffer_index(), 2);
    assert!(!m.go_to_buffer(5));
    assert!(m.close_current());
    assert_eq!(m.buffer_count(), 1);
    assert_eq!(m.current_buffer_index(), 1);
    m.current_mut().insert_char('q');
    assert_eq!(m.current().content.to_string(), "q");
    assert!(!m.close_current());
    assert_eq!(m.current().content.to_string(), "");
    m.new_buffer();
    assert_eq!(m.buffer_count(), 2);
}

#[test]
fn theme_manager_switches_and_adds() {
    let mut m = ThemeManager::new();
    assert_eq!(m.get_current_theme().name, "Dark");
    assert_eq!(m.get_available_themes(), vec!["Dark".to_string(), "Light".to_string()]);
    assert!(m.set_theme("Light"));
    assert_eq!(m.get_current_theme().ui.background, "#eff1f5");
    assert!(!m.set_theme("Solar"));
    assert_eq!(m.get_current_theme().name, "Light");
    let mut t = Theme::default_dark();
    t.name = "Solar".to_string();
    m.add_theme(t);
    assert!(m.set_theme("Solar"));
    assert_eq!(m.get_available_themes().len(), 3);
    let mut l = Theme::default_light();
    l.ui.border = "#000000".to_string();
    m.add_theme(l);
    assert_eq!(m.get_available_themes().len(), 3);
    assert!(m.set_theme("Light"));
    assert_eq!(m.get_current_theme().ui.border, "#000000");
}

#[test]
fn hex_colours_parse() {
    assert_eq!(hex_to_color("#1e1e2e"), Some((30, 30, 46)));
    assert_eq!(hex_to_color("##FFA000"), Some((255, 160, 0)));
    assert_eq!(hex_to_color("+12345"), Some((1, 35, 69)));
    assert_eq!(hex_to_color("#12345"), None);
    assert_eq!(hex_to_color("#12345g"), None);
    assert_eq!(hex_to_color(""), None);
}

#[test]
fn default_config_values() {
    let c = Config::default();
    assert_eq!(c.editor.tab_width, 4);
    assert!(c.editor.use_spaces);
    assert_eq!(c.sidebar.width, 25);
    assert_eq!(c.theme.syntax_theme, "base16-ocean.dark");
}

#[test]
fn backspace_at_all_cursors() {
    let mut content = ropey::Rope::from_str("abc\ndef");
    let mut m = CursorManager::new();
    m.cursors[0].position = (0, 2);
    m.add_cursor((1, 0));
    m.add_cursor((1, 3));
    m.delete_at_all_cursors(&mut content);
    assert_eq!(content.to_string(), "acde");
    let positions: Vec<_> = m.cursors.iter().map(|c| c.position).collect();
    assert_eq!(positions, vec![(0, 1), (0, 3), (1, 2)]);
}

#[test]
fn typing_at_all_cursors() {
    let mut content = ropey::Rope::from_str("ab\ncd");
    let mut m = CursorManager::new();
    m.cursors[0].position = (0, 1);
    m.add_cursor((1, 2));
    m.add_cursor((0, 2));
    let typed = m.insert_at_all_cursors(&mut content, "XY");
    assert_eq!(content.to_string(), "aXYbXY\ncdXY");
    assert_eq!(typed, vec![(1, 2), (0, 2), (0, 1)]);
    let positions: Vec<_> = m.cursors.iter().map(|c| c.position).collect();
    assert_eq!(positions, vec![(0, 3), (1, 4), (0, 6)]);
    let mut content = ropey::Rope::from_str("ab");
    let mut m = CursorManager::new();
    m.cursors[0].position = (0, 1);
    m.add_cursor((0, 2));
    m.insert_at_all_cursors(&mut content, "1\n22");
    assert_eq!(content.to_string(), "a1\n22b1\n22");
    let positions: Vec<_> = m.cursors.iter().map(|c| c.position).collect();
    assert_eq!(positions, vec![(1, 2), (2, 2)]);
}

#[test]
fn undo_manager_tracks_saved_text() {
    let state = |t: &str| EditorState { content: ropey::Rope::from_str(t), cursor_position: (0, 0), selection: None };
    let mut m = UndoManager::new();
    assert!(!m.is_modified(&state("")));
    assert!(m.is_modified(&state("x")));
    m.mark_saved(state("abc"));
    assert!(!m.is_modified(&state("abc")));
    assert!(m.is_modified(&state("abd")));
    m.save_state(state("a"));
    assert!(m.can_undo());
    let back = m.undo(state("ab")).unwrap();
    assert_eq!(back.content.to_string(), "a");
    assert!(m.can_redo());
    let fwd = m.redo(state("a")).unwrap();
    assert_eq!(fwd.content.to_string(), "ab");
    m.clear();
    assert!(!m.can_undo() && !m.can_redo());
}
