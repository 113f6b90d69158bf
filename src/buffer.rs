//! A text buffer: one document's content, cursor, selection and history.
use crate::comment::{char_is_whitespace, is_ws};
use crate::selection::Selection;
use crate::text::{
    lemma_insert_at_pos, lemma_join_lines, lemma_line_start, lemma_pos_bounds, lemma_pos_prefix,
    lemma_remove_before_pos, lemma_pos_valid_iff, line_len, last_col, line_count, line_start,
    line_text, nl_count, offset_of, pos_valid, chars_of, rope_clone, rope_from_str,
    rope_insert_char, rope_len_chars, rope_len_lines, rope_line_chars, rope_line_to_char, rope_new,
    rope_remove, rope_slice_string, rope_text,
};
use crate::undo::{record, redo_step, undo_step, EditorState, History, StateView, UndoManager};
use ropey::Rope;
use vstd::prelude::*;

verus! {

/// `p` is a valid position of `s`.
pub open spec fn cursor_ok(s: Seq<char>, p: (usize, usize)) -> bool {
    pos_valid(s, p.0 as nat, p.1 as nat)
}

/// Offset of position `p` in `s`.
pub open spec fn cursor_off(s: Seq<char>, p: (usize, usize)) -> int {
    offset_of(s, p.0 as nat, p.1 as nat)
}

/// `s` with the character at offset `i` removed.
pub open spec fn remove_at(s: Seq<char>, i: int) -> Seq<char> {
    s.take(i) + s.skip(i + 1)
}

/// Where the cursor ends after typing `s` from `(row, col)`.
pub open spec fn advance(row: int, col: int, s: Seq<char>) -> (int, int)
    decreases s.len(),
{
    if s.len() == 0 {
        (row, col)
    } else {
        let q = advance(row, col, s.drop_last());
        if s.last() == '\n' {
            (q.0 + 1, 0)
        } else {
            (q.0, q.1 + 1)
        }
    }
}

/// The offsets `[start, end)` that `sel` covers in `s`, when both ends are
/// positions of `s` in order.
pub open spec fn sel_range(s: Seq<char>, sel: Selection) -> Option<(int, int)> {
    if cursor_ok(s, sel.start) && cursor_ok(s, sel.end) && cursor_off(s, sel.start) <= cursor_off(
        s,
        sel.end,
    ) {
        Some((cursor_off(s, sel.start), cursor_off(s, sel.end)))
    } else {
        None
    }
}

/// `(row, col)` lies in `sel`: from `start` inclusive to `end` exclusive,
/// whole lines in between.
pub open spec fn in_selection(sel: Selection, row: usize, col: usize) -> bool {
    if sel.start == sel.end || row < sel.start.0 || row > sel.end.0 {
        false
    } else if row == sel.start.0 && row == sel.end.0 {
        sel.start.1 <= col < sel.end.1
    } else if row == sel.start.0 {
        col >= sel.start.1
    } else if row == sel.end.0 {
        col < sel.end.1
    } else {
        true
    }
}

/// Typing a character and then pressing backspace gives back the text and
/// the cursor: after a line break the cursor returns to the end of the
/// first half of the split line, which is the old column.
pub proof fn lemma_insert_then_delete(s: Seq<char>, row: usize, col: usize, c: char)
    requires
        cursor_ok(s, (row, col)),
        row < usize::MAX,
        col < usize::MAX,
    ensures
        ({
            let t = s.insert(cursor_off(s, (row, col)), c);
            &&& c != '\n' ==> remove_at(t, cursor_off(t, (row, (col + 1) as usize)) - 1) == s
            &&& c == '\n' ==> remove_at(t, cursor_off(t, ((row + 1) as usize, 0usize)) - 1) == s
                && last_col(t, row as nat) == col
        }),
{
    let o = cursor_off(s, (row, col));
    let t = s.insert(o, c);
    lemma_insert_at_pos(s, row as nat, col as nat, c);
    lemma_pos_bounds(s, row as nat, col as nat);
    assert(remove_at(t, o) =~= s);
    if c == '\n' {
        assert(t.take(o) =~= s.take(o));
        lemma_pos_prefix(s, t, row as nat, col as nat);
    }
}

/// The column reached from `col` going left over characters whose
/// whitespace-ness is `ws`.
pub open spec fn skip_back(line: Seq<char>, col: nat, ws: bool) -> nat
    decreases col,
{
    if col > 0 && col - 1 < line.len() && is_ws(line[col - 1]) == ws {
        skip_back(line, (col - 1) as nat, ws)
    } else {
        col
    }
}

/// The column reached from `col` going right over characters whose
/// whitespace-ness is `ws`.
pub open spec fn skip_fwd(line: Seq<char>, col: nat, ws: bool) -> nat
    decreases line.len() - col,
{
    if col < line.len() && is_ws(line[col as int]) == ws {
        skip_fwd(line, col + 1, ws)
    } else {
        col
    }
}

/// Start of the word at or before `col`: whitespace, then a word, skipped
/// leftwards.
pub open spec fn word_left_col(line: Seq<char>, col: nat) -> nat {
    skip_back(line, skip_back(line, col, true), false)
}

/// Start of the next word after `col`, kept on the line's last column.
pub open spec fn word_right_col(line: Seq<char>, col: nat) -> nat {
    let c = skip_fwd(line, skip_fwd(line, col, false), true);
    let last = if line.len() > 0 { (line.len() - 1) as nat } else { 0 };
    if c < last { c } else { last }
}

pub struct TextBuffer {
    pub content: Rope,
    pub file_path: Option<String>,
    pub modified: bool,
    pub cursor_position: (usize, usize),
    pub selection: Option<Selection>,
    pub syntax_name: Option<String>,
    pub undo_manager: UndoManager,
}

impl TextBuffer {
    /// The document's characters.
    pub open spec fn text(&self) -> Seq<char> {
        rope_text(self.content)
    }

    /// Content, cursor and selection as values.
    pub open spec fn state(&self) -> StateView {
        StateView { text: self.text(), cursor: self.cursor_position, selection: self.selection }
    }

    /// The present state with the undo and redo snapshots.
    pub open spec fn history(&self) -> History {
        History {
            present: self.state(),
            past: self.undo_manager.undo_states(),
            future: self.undo_manager.redo_states(),
        }
    }

    /// The cursor is a position of the document and the history is sound.
    pub open spec fn wf(&self) -> bool {
        &&& cursor_ok(self.text(), self.cursor_position)
        &&& self.undo_manager.wf()
    }

    /// The history after an edit made from `old`: its state recorded for
    /// undo, nothing left to redo.
    pub open spec fn edited_from(&self, old: &TextBuffer) -> bool {
        &&& self.undo_manager.undo_states() == record(old.undo_manager.undo_states(), old.state())
        &&& self.undo_manager.redo_states() == Seq::<StateView>::empty()
        &&& self.undo_manager.saved_text() == old.undo_manager.saved_text()
        &&& self.modified
        &&& self.file_path == old.file_path
        &&& self.syntax_name == old.syntax_name
    }

    /// Nothing but the cursor changed.
    pub open spec fn moved_from(&self, old: &TextBuffer) -> bool {
        &&& self.content == old.content
        &&& self.selection == old.selection
        &&& self.modified == old.modified
        &&& self.file_path == old.file_path
        &&& self.syntax_name == old.syntax_name
        &&& self.undo_manager == old.undo_manager
    }

    pub fn new() -> (b: TextBuffer)
        ensures
            b.text() == Seq::<char>::empty(),
            b.cursor_position == (0usize, 0usize),
            b.selection.is_none(),
            b.file_path.is_none(),
            b.syntax_name.is_none(),
            !b.modified,
            b.undo_manager.undo_states() == Seq::<StateView>::empty(),
            b.undo_manager.redo_states() == Seq::<StateView>::empty(),
            b.wf(),
    {
        TextBuffer {
            content: rope_new(),
            file_path: None,
            modified: false,
            cursor_position: (0, 0),
            selection: None,
            syntax_name: None,
            undo_manager: UndoManager::new(),
        }
    }

    /// A buffer holding `contents`, as read from `path`.
    pub fn from_contents(contents: &str, path: Option<String>) -> (b: TextBuffer)
        ensures
            b.text() == contents@,
            b.cursor_position == (0usize, 0usize),
            b.selection.is_none(),
            b.file_path == path,
            b.syntax_name.is_none(),
            !b.modified,
            b.undo_manager.undo_states() == Seq::<StateView>::empty(),
            b.undo_manager.redo_states() == Seq::<StateView>::empty(),
            b.wf(),
    {
        TextBuffer {
            content: rope_from_str(contents),
            file_path: path,
            modified: false,
            cursor_position: (0, 0),
            selection: None,
            syntax_name: None,
            undo_manager: UndoManager::new(),
        }
    }

    /// Offset of the cursor in the document.
    pub(crate) fn cursor_offset(&self) -> (o: usize)
        requires
            self.wf(),
        ensures
            o == cursor_off(self.text(), self.cursor_position),
    {
        let _ = rope_len_chars(&self.content);
        let ls = rope_line_to_char(&self.content, self.cursor_position.0);
        ls + self.cursor_position.1
    }

    /// Length of line `row`, its break included.
    pub(crate) fn line_len_at(&self, row: usize) -> (n: usize)
        requires
            row < line_count(self.text()),
        ensures
            n == line_len(self.text(), row as nat),
            line_start(self.text(), row as nat) + n <= self.text().len(),
    {
        proof {
            lemma_line_start(self.text(), row as nat);
        }
        let _ = rope_len_lines(&self.content);
        let a = rope_line_to_char(&self.content, row);
        let b = rope_line_to_char(&self.content, row + 1);
        b - a
    }

    fn snapshot(&self) -> (s: EditorState)
        ensures
            s@ == self.state(),
    {
        EditorState {
            content: rope_clone(&self.content),
            cursor_position: self.cursor_position,
            selection: self.selection,
        }
    }

    /// Records the present state for undo and forgets what could be redone.
    pub fn save_state(&mut self)
        requires
            old(self).wf(),
        ensures
            final(self).undo_manager.undo_states() == record(
                old(self).undo_manager.undo_states(),
                old(self).state(),
            ),
            final(self).undo_manager.redo_states() == Seq::<StateView>::empty(),
            final(self).undo_manager.saved_text() == old(self).undo_manager.saved_text(),
            final(self).content == old(self).content,
            final(self).cursor_position == old(self).cursor_position,
            final(self).selection == old(self).selection,
            final(self).modified == old(self).modified,
            final(self).file_path == old(self).file_path,
            final(self).syntax_name == old(self).syntax_name,
            final(self).wf(),
    {
        let state = self.snapshot();
        self.undo_manager.save_state(state);
    }

    /// Inserts `ch` at the cursor; a line break moves the cursor to the
    /// start of the next line, any other character one column right.
    pub fn insert_char(&mut self, ch: char)
        requires
            old(self).wf(),
            old(self).text().len() < usize::MAX,
        ensures
            final(self).text() == old(self).text().insert(
                cursor_off(old(self).text(), old(self).cursor_position),
                ch,
            ),
            final(self).cursor_position == (if ch == '\n' {
                ((old(self).cursor_position.0 + 1) as usize, 0usize)
            } else {
                (old(self).cursor_position.0, (old(self).cursor_position.1 + 1) as usize)
            }),
            final(self).selection == old(self).selection,
            final(self).edited_from(old(self)),
            final(self).wf(),
    {
        self.save_state();
        let (row, col) = self.cursor_position;
        let pos = self.cursor_offset();
        let _ = rope_len_lines(&self.content);
        proof {
            lemma_insert_at_pos(self.text(), row as nat, col as nat, ch);
            lemma_line_start(self.text(), row as nat);
        }
        rope_insert_char(&mut self.content, pos, ch);
        if ch == '\n' {
            self.cursor_position = (row + 1, 0);
        } else {
            self.cursor_position = (row, col + 1);
        }
        self.modified = true;
    }

    /// Inserts the characters of `text` at the cursor one after another,
    /// with one snapshot for the whole insertion.
    pub fn insert_str(&mut self, text: &str)
        requires
            old(self).wf(),
            old(self).text().len() + text@.len() <= usize::MAX,
        ensures
            final(self).text() == old(self).text().take(
                cursor_off(old(self).text(), old(self).cursor_position),
            ) + text@ + old(self).text().skip(cursor_off(old(self).text(), old(self).cursor_position)),
            final(self).cursor_position.0 == advance(
                old(self).cursor_position.0 as int,
                old(self).cursor_position.1 as int,
                text@,
            ).0,
            final(self).cursor_position.1 == advance(
                old(self).cursor_position.0 as int,
                old(self).cursor_position.1 as int,
                text@,
            ).1,
            final(self).selection == old(self).selection,
            final(self).edited_from(old(self)),
            final(self).wf(),
    {
        self.save_state();
        let chars = chars_of(text);
        self.type_chars(&chars);
        self.modified = true;
    }

    /// Inserts `chars` at the cursor one after another, moving the cursor
    /// past each; the history is left as it is.
    pub(crate) fn type_chars(&mut self, chars: &Vec<char>)
        requires
            old(self).wf(),
            old(self).text().len() + chars@.len() <= usize::MAX,
        ensures
            final(self).text() == old(self).text().take(
                cursor_off(old(self).text(), old(self).cursor_position),
            ) + chars@ + old(self).text().skip(cursor_off(old(self).text(), old(self).cursor_position)),
            final(self).cursor_position.0 == advance(
                old(self).cursor_position.0 as int,
                old(self).cursor_position.1 as int,
                chars@,
            ).0,
            final(self).cursor_position.1 == advance(
                old(self).cursor_position.0 as int,
                old(self).cursor_position.1 as int,
                chars@,
            ).1,
            final(self).selection == old(self).selection,
            final(self).undo_manager == old(self).undo_manager,
            final(self).modified == old(self).modified,
            final(self).file_path == old(self).file_path,
            final(self).syntax_name == old(self).syntax_name,
            final(self).wf(),
    {
        let ghost s0 = self.text();
        let ghost o = cursor_off(s0, self.cursor_position);
        let ghost start = self.cursor_position;
        let n = chars.len();
        let mut i: usize = 0;
        proof {
            lemma_pos_bounds(s0, start.0 as nat, start.1 as nat);
            assert(s0 =~= s0.take(o) + chars@.take(0) + s0.skip(o));
        }
        while i < n
            invariant
                0 <= i <= n,
                n == chars@.len(),
                s0 == old(self).text(),
                o == cursor_off(s0, start),
                start == old(self).cursor_position,
                0 <= o <= s0.len(),
                self.wf(),
                self.text() == s0.take(o) + chars@.take(i as int) + s0.skip(o),
                cursor_off(self.text(), self.cursor_position) == o + i,
                self.cursor_position.0 == advance(start.0 as int, start.1 as int, chars@.take(i as int)).0,
                self.cursor_position.1 == advance(start.0 as int, start.1 as int, chars@.take(i as int)).1,
                self.undo_manager == old(self).undo_manager,
                self.selection == old(self).selection,
                self.modified == old(self).modified,
                self.file_path == old(self).file_path,
                self.syntax_name == old(self).syntax_name,
                s0.len() + n <= usize::MAX,
            decreases n - i,
        {
            let ch = chars[i];
            let (row, col) = self.cursor_position;
            let pos = self.cursor_offset();
            let _ = rope_len_lines(&self.content);
            let ghost cur = self.text();
            proof {
                lemma_insert_at_pos(cur, row as nat, col as nat, ch);
                lemma_pos_bounds(cur, row as nat, col as nat);
            }
            rope_insert_char(&mut self.content, pos, ch);
            if ch == '\n' {
                self.cursor_position = (row + 1, 0);
            } else {
                self.cursor_position = (row, col + 1);
            }
            proof {
                assert(chars@.take(i + 1).drop_last() =~= chars@.take(i as int));
                assert(chars@.take(i + 1).last() == ch);
                assert(self.text() =~= s0.take(o) + chars@.take(i + 1) + s0.skip(o));
            }
            i = i + 1;
        }
        proof {
            assert(chars@.take(n as int) =~= chars@);
        }
    }

    /// Backspace: removes the character before the cursor, or joins the
    /// line to the one above at column 0; nothing at the very start.
    pub fn delete_char(&mut self)
        requires
            old(self).wf(),
        ensures
            ({
                let s = old(self).text();
                let (row, col) = old(self).cursor_position;
                let o = cursor_off(s, old(self).cursor_position);
                &&& col > 0 ==> final(self).text() == remove_at(s, o - 1) && final(self).cursor_position
                    == (row, (col - 1) as usize) && final(self).edited_from(old(self))
                &&& col == 0 && row > 0 ==> final(self).text() == remove_at(s, o - 1)
                    && final(self).cursor_position == ((row - 1) as usize, last_col(s, (row - 1) as nat) as usize)
                    && final(self).edited_from(old(self))
                &&& col == 0 && row == 0 ==> *final(self) == *old(self)
            }),
            final(self).selection == old(self).selection,
            final(self).wf(),
    {
        let (row, col) = self.cursor_position;
        if col > 0 || row > 0 {
            self.save_state();
            let ghost s = self.text();
            if col > 0 {
                let pos = self.cursor_offset();
                proof {
                    lemma_remove_before_pos(s, row as nat, col as nat);
                    lemma_pos_bounds(s, row as nat, col as nat);
                    assert(s.take(pos - 1) + s.skip(pos as int) =~= remove_at(s, pos - 1));
                }
                rope_remove(&mut self.content, pos - 1, pos);
                self.cursor_position = (row, col - 1);
                self.modified = true;
            } else {
                let prev_len = self.line_len_at(row - 1);
                let prev_col = if prev_len > 0 { prev_len - 1 } else { 0 };
                let line_idx = rope_line_to_char(&self.content, row);
                proof {
                    lemma_join_lines(s, row as nat);
                    lemma_line_start(s, row as nat);
                    assert(s.take(line_idx - 1) + s.skip(line_idx as int) =~= remove_at(s, line_idx - 1));
                }
                rope_remove(&mut self.content, line_idx - 1, line_idx);
                self.cursor_position = (row - 1, prev_col);
                self.modified = true;
            }
        }
    }

    /// Delete key: removes the character at the cursor, the line break at
    /// the end of the line included; nothing past the last character.
    pub fn delete_forward(&mut self)
        requires
            old(self).wf(),
        ensures
            ({
                let s = old(self).text();
                let (row, col) = old(self).cursor_position;
                let o = cursor_off(s, old(self).cursor_position);
                &&& col < line_len(s, row as nat) ==> o < s.len() && final(self).text() == remove_at(s, o)
                    && final(self).cursor_position == old(self).cursor_position && final(self).edited_from(old(self))
                &&& col >= line_len(s, row as nat) ==> *final(self) == *old(self)
            }),
            final(self).selection == old(self).selection,
            final(self).wf(),
    {
        let (row, col) = self.cursor_position;
        let ghost s = self.text();
        proof {
            lemma_pos_bounds(s, row as nat, col as nat);
        }
        let _ = rope_len_lines(&self.content);
        let line_len = self.line_len_at(row);
        if col < line_len {
            let pos = self.cursor_offset();
            let len = rope_len_chars(&self.content);
            if pos < len {
                self.save_state();
                proof {
                    let t = s.take(pos as int) + s.skip(pos + 1);
                    assert(t =~= remove_at(s, pos as int));
                    assert(t.take(pos as int) =~= s.take(pos as int));
                    lemma_pos_prefix(s, t, row as nat, col as nat);
                }
                rope_remove(&mut self.content, pos, pos + 1);
                self.modified = true;
            }
        }
    }

    pub fn move_cursor_up(&mut self)
        requires
            old(self).wf(),
        ensures
            ({
                let s = old(self).text();
                let (row, col) = old(self).cursor_position;
                &&& row > 0 ==> final(self).cursor_position == ((row - 1) as usize, (if col <= last_col(s, (row - 1) as nat) { col as int } else { last_col(s, (row - 1) as nat) }) as usize)
                &&& row == 0 ==> final(self).cursor_position == old(self).cursor_position
            }),
            final(self).moved_from(old(self)),
            final(self).wf(),
    {
        let (row, col) = self.cursor_position;
        if row > 0 {
            let ghost s = self.text();
            proof {
                lemma_pos_valid_iff(s, (row - 1) as nat);
            }
            let _ = rope_len_lines(&self.content);
            let line_len = self.line_len_at(row - 1);
            let last = if line_len > 0 { line_len - 1 } else { 0 };
            let new_col = if col <= last { col } else { last };
            self.cursor_position = (row - 1, new_col);
        }
    }

    pub fn move_cursor_down(&mut self)
        requires
            old(self).wf(),
        ensures
            ({
                let s = old(self).text();
                let (row, col) = old(self).cursor_position;
                &&& row < nl_count(s) ==> final(self).cursor_position == ((row + 1) as usize, (if col <= last_col(s, (row + 1) as nat) { col as int } else { last_col(s, (row + 1) as nat) }) as usize)
                &&& row >= nl_count(s) ==> final(self).cursor_position == old(self).cursor_position
            }),
            final(self).moved_from(old(self)),
            final(self).wf(),
    {
        let (row, col) = self.cursor_position;
        let count = rope_len_lines(&self.content);
        if row < count - 1 {
            let ghost s = self.text();
            proof {
                lemma_pos_valid_iff(s, (row + 1) as nat);
            }
            let line_len = self.line_len_at(row + 1);
            let last = if line_len > 0 { line_len - 1 } else { 0 };
            let new_col = if col <= last { col } else { last };
            self.cursor_position = (row + 1, new_col);
        }
    }

    pub fn move_cursor_left(&mut self)
        requires
            old(self).wf(),
        ensures
            ({
                let s = old(self).text();
                let (row, col) = old(self).cursor_position;
                &&& col > 0 ==> final(self).cursor_position == (row, (col - 1) as usize)
                &&& col == 0 && row > 0 ==> final(self).cursor_position == ((row - 1) as usize, last_col(s, (row - 1) as nat) as usize)
                &&& col == 0 && row == 0 ==> final(self).cursor_position == old(self).cursor_position
            }),
            final(self).moved_from(old(self)),
            final(self).wf(),
    {
        let (row, col) = self.cursor_position;
        let ghost s = self.text();
        if col > 0 {
            proof {
                lemma_pos_bounds(s, row as nat, col as nat);
            }
            self.cursor_position = (row, col - 1);
        } else if row > 0 {
            proof {
                lemma_pos_valid_iff(s, (row - 1) as nat);
            }
            let _ = rope_len_lines(&self.content);
            let line_len = self.line_len_at(row - 1);
            let last = if line_len > 0 { line_len - 1 } else { 0 };
            self.cursor_position = (row - 1, last);
        }
    }

    pub fn move_cursor_right(&mut self)
        requires
            old(self).wf(),
        ensures
            ({
                let s = old(self).text();
                let (row, col) = old(self).cursor_position;
                &&& col < last_col(s, row as nat) ==> final(self).cursor_position == (row, (col + 1) as usize)
                &&& col >= last_col(s, row as nat) && row < nl_count(s) ==> final(self).cursor_position == ((row + 1) as usize, 0usize)
                &&& col >= last_col(s, row as nat) && row >= nl_count(s) ==> final(self).cursor_position == old(self).cursor_position
            }),
            final(self).moved_from(old(self)),
            final(self).wf(),
    {
        let (row, col) = self.cursor_position;
        let ghost s = self.text();
        proof {
            lemma_pos_valid_iff(s, row as nat);
        }
        let count = rope_len_lines(&self.content);
        let line_len = self.line_len_at(row);
        let last = if line_len > 0 { line_len - 1 } else { 0 };
        if col < last {
            self.cursor_position = (row, col + 1);
        } else if row < count - 1 {
            proof {
                lemma_pos_valid_iff(s, (row + 1) as nat);
            }
            self.cursor_position = (row + 1, 0);
        }
    }

    pub fn move_to_line_start(&mut self)
        requires
            old(self).wf(),
        ensures
            final(self).cursor_position == (old(self).cursor_position.0, 0usize),
            final(self).moved_from(old(self)),
            final(self).wf(),
    {
        proof {
            lemma_pos_valid_iff(self.text(), self.cursor_position.0 as nat);
        }
        self.cursor_position = (self.cursor_position.0, 0);
    }

    pub fn move_to_line_end(&mut self)
        requires
            old(self).wf(),
        ensures
            final(self).cursor_position == (old(self).cursor_position.0, last_col(
                old(self).text(),
                old(self).cursor_position.0 as nat,
            ) as usize),
            final(self).moved_from(old(self)),
            final(self).wf(),
    {
        let row = self.cursor_position.0;
        proof {
            lemma_pos_valid_iff(self.text(), row as nat);
        }
        let _ = rope_len_lines(&self.content);
        let line_len = self.line_len_at(row);
        let last = if line_len > 0 { line_len - 1 } else { 0 };
        self.cursor_position = (row, last);
    }

    /// The text of line `row`, its break included; empty past the last line.
    pub fn get_line(&self, row: usize) -> (r: String)
        ensures
            row < line_count(self.text()) ==> r@ == line_text(self.text(), row as nat),
            row >= line_count(self.text()) ==> r@ == Seq::<char>::empty(),
    {
        let count = rope_len_lines(&self.content);
        if row < count {
            proof {
                lemma_line_start(self.text(), row as nat);
            }
            let a = rope_line_to_char(&self.content, row);
            let b = rope_line_to_char(&self.content, row + 1);
            rope_slice_string(&self.content, a, b)
        } else {
            String::new()
        }
    }

    /// The characters of line `row`, its break included.
    pub(crate) fn line_chars(&self, row: usize) -> (v: Vec<char>)
        requires
            row < line_count(self.text()),
        ensures
            v@ == line_text(self.text(), row as nat),
    {
        rope_line_chars(&self.content, row)
    }

    pub fn line_count(&self) -> (n: usize)
        ensures
            n == line_count(self.text()),
    {
        rope_len_lines(&self.content)
    }

    /// The lines from `start_row`, at most `height` of them.
    pub fn get_visible_lines(&self, start_row: usize, height: usize) -> (r: Vec<String>)
        ensures
            r@.len() == (if start_row < line_count(self.text()) {
                if height < line_count(self.text()) - start_row {
                    height as int
                } else {
                    line_count(self.text()) - start_row
                }
            } else {
                0
            }),
            forall|i: int| 0 <= i < r@.len() ==> (#[trigger] r@[i])@ == line_text(self.text(), (start_row + i) as nat),
    {
        let mut lines: Vec<String> = Vec::new();
        let count = rope_len_lines(&self.content);
        if start_row >= count {
            return lines;
        }
        let avail = count - start_row;
        let n = if height < avail { height } else { avail };
        let mut i: usize = 0;
        while i < n
            invariant
                0 <= i <= n,
                n <= count - start_row,
                count == line_count(self.text()),
                lines@.len() == i,
                forall|k: int| 0 <= k < i ==> (#[trigger] lines@[k])@ == line_text(self.text(), (start_row + k) as nat),
            decreases n - i,
        {
            let line = self.get_line(start_row + i);
            lines.push(line);
            i = i + 1;
        }
        lines
    }

    /// Starts a selection anchored at the cursor.
    pub fn start_selection(&mut self)
        requires
            old(self).wf(),
        ensures
            final(self).selection == Some(
                Selection {
                    start: old(self).cursor_position,
                    end: old(self).cursor_position,
                    anchor: old(self).cursor_position,
                },
            ),
            final(self).content == old(self).content,
            final(self).cursor_position == old(self).cursor_position,
            final(self).undo_manager == old(self).undo_manager,
            final(self).modified == old(self).modified,
            final(self).wf(),
    {
        self.selection = Some(Selection::new(self.cursor_position));
    }

    /// Stretches the selection from its anchor to the cursor.
    pub fn update_selection(&mut self)
        requires
            old(self).wf(),
        ensures
            final(self).selection == match old(self).selection {
                Some(sel) => Some(Selection::spanning(sel.anchor, old(self).cursor_position)),
                None => None,
            },
            final(self).content == old(self).content,
            final(self).cursor_position == old(self).cursor_position,
            final(self).undo_manager == old(self).undo_manager,
            final(self).modified == old(self).modified,
            final(self).wf(),
    {
        let cursor = self.cursor_position;
        if let Some(sel) = &mut self.selection {
            sel.update_end(cursor);
        }
    }

    pub fn clear_selection(&mut self)
        requires
            old(self).wf(),
        ensures
            final(self).selection.is_none(),
            final(self).content == old(self).content,
            final(self).cursor_position == old(self).cursor_position,
            final(self).undo_manager == old(self).undo_manager,
            final(self).modified == old(self).modified,
            final(self).wf(),
    {
        self.selection = None;
    }

    /// Offset of position `(row, col)`, if it is a position of the document.
    pub(crate) fn position_offset(&self, row: usize, col: usize) -> (r: Option<usize>)
        ensures
            r.is_some() == pos_valid(self.text(), row as nat, col as nat),
            r.is_some() ==> r.unwrap() == offset_of(self.text(), row as nat, col as nat),
    {
        let count = rope_len_lines(&self.content);
        if row >= count {
            return None;
        }
        proof {
            lemma_pos_valid_iff(self.text(), row as nat);
        }
        let _ = rope_len_chars(&self.content);
        let ls = rope_line_to_char(&self.content, row);
        let line_len = self.line_len_at(row);
        let content = if row + 1 < count { line_len - 1 } else { line_len };
        if col <= content {
            Some(ls + col)
        } else {
            None
        }
    }

    /// The offsets the selection covers, when there is a non-empty one whose
    /// ends are positions of the document in order.
    fn selection_range(&self) -> (r: Option<(usize, usize)>)
        ensures
            r.is_some() == (self.selection.is_some() && self.selection.unwrap().start
                != self.selection.unwrap().end && sel_range(self.text(), self.selection.unwrap()).is_some()),
            r.is_some() ==> r.unwrap().0 == sel_range(self.text(), self.selection.unwrap()).unwrap().0
                && r.unwrap().1 == sel_range(self.text(), self.selection.unwrap()).unwrap().1,
    {
        match self.selection {
            None => None,
            Some(sel) => {
                if sel.is_empty() {
                    return None;
                }
                let a = self.position_offset(sel.start.0, sel.start.1);
                let b = self.position_offset(sel.end.0, sel.end.1);
                match (a, b) {
                    (Some(a), Some(b)) => {
                        if a <= b {
                            Some((a, b))
                        } else {
                            None
                        }
                    },
                    _ => None,
                }
            },
        }
    }

    /// The selected text, when the selection is non-empty and lies in the
    /// document.
    pub fn get_selected_text(&self) -> (r: Option<String>)
        ensures
            r.is_some() == (self.selection.is_some() && self.selection.unwrap().start
                != self.selection.unwrap().end && sel_range(self.text(), self.selection.unwrap()).is_some()),
            r.is_some() ==> r.unwrap()@ == self.text().subrange(
                sel_range(self.text(), self.selection.unwrap()).unwrap().0,
                sel_range(self.text(), self.selection.unwrap()).unwrap().1,
            ),
    {
        match self.selection_range() {
            Some((a, b)) => {
                let _ = rope_len_chars(&self.content);
                Some(rope_slice_string(&self.content, a, b))
            },
            None => None,
        }
    }

    /// Removes the selected text and returns it; the cursor goes to the
    /// selection's start and the selection is dropped.
    pub fn delete_selection(&mut self) -> (r: Option<String>)
        requires
            old(self).wf(),
        ensures
            r.is_some() == (old(self).selection.is_some() && old(self).selection.unwrap().start
                != old(self).selection.unwrap().end && sel_range(old(self).text(), old(self).selection.unwrap()).is_some()),
            r.is_some() ==> ({
                let s = old(self).text();
                let (a, b) = sel_range(s, old(self).selection.unwrap()).unwrap();
                &&& r.unwrap()@ == s.subrange(a, b)
                &&& final(self).text() == s.take(a) + s.skip(b)
                &&& final(self).cursor_position == old(self).selection.unwrap().start
                &&& final(self).selection.is_none()
                &&& final(self).edited_from(old(self))
            }),
            r.is_none() ==> *final(self) == *old(self),
            final(self).wf(),
    {
        match self.selection_range() {
            Some((a, b)) => {
                let start = self.selection.unwrap().start;
                let ghost s = self.text();
                let _ = rope_len_chars(&self.content);
                let deleted = rope_slice_string(&self.content, a, b);
                self.save_state();
                proof {
                    let t = s.take(a as int) + s.skip(b as int);
                    assert(t.take(a as int) =~= s.take(a as int));
                    lemma_pos_prefix(s, t, start.0 as nat, start.1 as nat);
                }
                rope_remove(&mut self.content, a, b);
                self.cursor_position = start;
                self.selection = None;
                self.modified = true;
                Some(deleted)
            },
            None => None,
        }
    }

    /// Whether `(row, col)` lies in the selection.
    pub fn is_position_selected(&self, row: usize, col: usize) -> (r: bool)
        ensures
            r == match self.selection {
                Some(sel) => in_selection(sel, row, col),
                None => false,
            },
    {
        match self.selection {
            Some(sel) => {
                if sel.is_empty() {
                    return false;
                }
                if row < sel.start.0 || row > sel.end.0 {
                    return false;
                }
                if row == sel.start.0 && row == sel.end.0 {
                    col >= sel.start.1 && col < sel.end.1
                } else if row == sel.start.0 {
                    col >= sel.start.1
                } else if row == sel.end.0 {
                    col < sel.end.1
                } else {
                    true
                }
            },
            None => false,
        }
    }

    /// Whether there is a non-empty selection.
    pub fn has_selection(&self) -> (r: bool)
        ensures
            r == (self.selection.is_some() && self.selection.unwrap().start
                != self.selection.unwrap().end),
    {
        match self.selection {
            Some(sel) => !sel.is_empty(),
            None => false,
        }
    }

    /// The first and last rows of the selection.
    pub fn get_selection_lines(&self) -> (r: Option<(usize, usize)>)
        ensures
            r == match self.selection {
                Some(sel) => Some((sel.start.0, sel.end.0)),
                None => None,
            },
    {
        match self.selection {
            Some(sel) => Some((sel.start.0, sel.end.0)),
            None => None,
        }
    }

    /// Goes back to the newest undo snapshot, keeping the present one for
    /// redo; false when there is nothing to undo.
    pub fn undo(&mut self) -> (r: bool)
        requires
            old(self).wf(),
        ensures
            r == (old(self).undo_manager.undo_states().len() > 0),
            final(self).history() == undo_step(old(self).history()),
            final(self).modified == (r || old(self).modified),
            final(self).undo_manager.saved_text() == old(self).undo_manager.saved_text(),
            final(self).file_path == old(self).file_path,
            final(self).syntax_name == old(self).syntax_name,
            final(self).wf(),
    {
        let current = self.snapshot();
        match self.undo_manager.undo(current) {
            Some(previous) => {
                self.content = previous.content;
                self.cursor_position = previous.cursor_position;
                self.selection = previous.selection;
                self.modified = true;
                proof {
                    assert(self.history().past =~= undo_step(old(self).history()).past);
                }
                true
            },
            None => false,
        }
    }

    /// Goes forward to the newest redo snapshot, keeping the present one for
    /// undo; false when there is nothing to redo.
    pub fn redo(&mut self) -> (r: bool)
        requires
            old(self).wf(),
        ensures
            r == (old(self).undo_manager.redo_states().len() > 0),
            final(self).history() == redo_step(old(self).history()),
            final(self).modified == (r || old(self).modified),
            final(self).undo_manager.saved_text() == old(self).undo_manager.saved_text(),
            final(self).file_path == old(self).file_path,
            final(self).syntax_name == old(self).syntax_name,
            final(self).wf(),
    {
        let current = self.snapshot();
        match self.undo_manager.redo(current) {
            Some(next) => {
                self.content = next.content;
                self.cursor_position = next.cursor_position;
                self.selection = next.selection;
                self.modified = true;
                true
            },
            None => false,
        }
    }

    pub fn can_undo(&self) -> (r: bool)
        ensures
            r == (self.undo_manager.undo_states().len() > 0),
    {
        self.undo_manager.can_undo()
    }

    pub fn can_redo(&self) -> (r: bool)
        ensures
            r == (self.undo_manager.redo_states().len() > 0),
    {
        self.undo_manager.can_redo()
    }

    /// Moves left to the start of the current or previous word on the line.
    pub fn move_cursor_word_left(&mut self)
        requires
            old(self).wf(),
        ensures
            final(self).cursor_position == (old(self).cursor_position.0, word_left_col(
                line_text(old(self).text(), old(self).cursor_position.0 as nat),
                old(self).cursor_position.1 as nat,
            ) as usize),
            final(self).moved_from(old(self)),
            final(self).wf(),
    {
        let (row, col0) = self.cursor_position;
        let ghost s = self.text();
        proof {
            lemma_pos_bounds(s, row as nat, col0 as nat);
        }
        let _ = rope_len_lines(&self.content);
        let line = self.line_chars(row);
        let mut col = col0;
        while col > 0 && col - 1 < line.len() && char_is_whitespace(line[col - 1])
            invariant
                col <= col0,
                skip_back(line@, col as nat, true) == skip_back(line@, col0 as nat, true),
            decreases col,
        {
            col = col - 1;
        }
        let mid = col;
        while col > 0 && col - 1 < line.len() && !char_is_whitespace(line[col - 1])
            invariant
                col <= mid,
                mid == skip_back(line@, col0 as nat, true),
                skip_back(line@, col as nat, false) == skip_back(line@, mid as nat, false),
            decreases col,
        {
            col = col - 1;
        }
        self.cursor_position = (row, col);
    }

    /// Moves right to the start of the next word on the line, no further
    /// than the line's last column.
    pub fn move_cursor_word_right(&mut self)
        requires
            old(self).wf(),
        ensures
            final(self).cursor_position == (old(self).cursor_position.0, word_right_col(
                line_text(old(self).text(), old(self).cursor_position.0 as nat),
                old(self).cursor_position.1 as nat,
            ) as usize),
            final(self).moved_from(old(self)),
            final(self).wf(),
    {
        let (row, col0) = self.cursor_position;
        let ghost s = self.text();
        proof {
            lemma_pos_valid_iff(s, row as nat);
            lemma_line_start(s, row as nat);
        }
        let _ = rope_len_lines(&self.content);
        let line = self.line_chars(row);
        let n = line.len();
        let mut col = col0;
        if col <= n {
            while col < n && !char_is_whitespace(line[col])
                invariant
                    col0 <= col <= n,
                    n == line@.len(),
                    skip_fwd(line@, col as nat, false) == skip_fwd(line@, col0 as nat, false),
                decreases n - col,
            {
                col = col + 1;
            }
            let mid = col;
            while col < n && char_is_whitespace(line[col])
                invariant
                    mid <= col <= n,
                    n == line@.len(),
                    mid == skip_fwd(line@, col0 as nat, false),
                    skip_fwd(line@, col as nat, true) == skip_fwd(line@, mid as nat, true),
                decreases n - col,
            {
                col = col + 1;
            }
        }
        let last = if n > 0 { n - 1 } else { 0 };
        let new_col = if col < last { col } else { last };
        self.cursor_position = (row, new_col);
    }

    /// Puts the cursor at `pos` when that is a position of the document;
    /// false, and nothing changes, otherwise.
    pub fn move_cursor_to(&mut self, pos: (usize, usize)) -> (r: bool)
        requires
            old(self).wf(),
        ensures
            r == cursor_ok(old(self).text(), pos),
            final(self).cursor_position == if r { pos } else { old(self).cursor_position },
            final(self).moved_from(old(self)),
            final(self).wf(),
    {
        match self.position_offset(pos.0, pos.1) {
            Some(_) => {
                self.cursor_position = pos;
                true
            },
            None => false,
        }
    }

    /// Selects from the document's start to the last column of its last
    /// line, leaving the cursor there.
    pub fn select_all(&mut self)
        requires
            old(self).wf(),
        ensures
            ({
                let s = old(self).text();
                let last = (nl_count(s)) as usize;
                let end = (last, last_col(s, nl_count(s)) as usize);
                &&& final(self).cursor_position == end
                &&& final(self).selection == Some(Selection::spanning((0usize, 0usize), end))
                &&& final(self).content == old(self).content
                &&& final(self).undo_manager == old(self).undo_manager
                &&& final(self).modified == old(self).modified
            }),
            final(self).wf(),
    {
        proof {
            lemma_pos_valid_iff(self.text(), 0);
        }
        self.cursor_position = (0, 0);
        self.start_selection();
        let count = rope_len_lines(&self.content);
        let last = count - 1;
        proof {
            lemma_pos_valid_iff(self.text(), last as nat);
        }
        let line_len = self.line_len_at(last);
        let col = if line_len > 0 { line_len - 1 } else { 0 };
        self.cursor_position = (last, col);
        self.update_selection();
    }
}

} // verus!
