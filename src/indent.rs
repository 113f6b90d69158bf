//! Indenting and unindenting the lines a selection spans.
use crate::buffer::{cursor_ok, TextBuffer};
use crate::comment::{char_is_whitespace, is_ws, lower_of, to_lower};
use crate::selection::Selection;
use crate::text::{
    chars_of, content_len, lemma_line_edit, lemma_line_start, lemma_pos_valid_iff, line_count,
    line_text, lines, nl_count, no_newline, pos_valid, rope_insert, rope_len_chars, rope_len_lines,
    rope_line_to_char, rope_remove, string_of,
};
use vstd::prelude::*;

verus! {

/// One level of indentation: `w` spaces, or a tab.
pub open spec fn indent_unit(use_spaces: bool, w: nat) -> Seq<char> {
    if use_spaces {
        Seq::new(w, |i: int| ' ')
    } else {
        seq!['\t']
    }
}

pub open spec fn min_nat(a: nat, b: nat) -> nat {
    if a < b {
        a
    } else {
        b
    }
}

pub open spec fn sat_sub(a: usize, b: nat) -> usize {
    if a >= b {
        (a - b) as usize
    } else {
        0usize
    }
}

pub open spec fn sat_add(a: usize, b: nat) -> usize {
    if a + b <= usize::MAX {
        (a + b) as usize
    } else {
        usize::MAX
    }
}

/// How many leading characters unindenting removes from `line`, having
/// seen `i` spaces: a tab counts as one, and at most `w` spaces go.
pub open spec fn unindent_scan(line: Seq<char>, i: nat, w: nat) -> nat
    decreases line.len() - i,
{
    if i >= line.len() {
        min_nat(i, w)
    } else if line[i as int] == '\t' {
        1
    } else if line[i as int] == ' ' {
        if i + 1 >= w {
            w
        } else {
            unindent_scan(line, i + 1, w)
        }
    } else {
        min_nat(i, w)
    }
}

/// How many leading characters unindenting removes from `line`.
pub open spec fn unindent_amount(line: Seq<char>, w: nat) -> nat {
    unindent_scan(line, 0, w)
}

/// What unindenting removes is all spaces and tabs.
pub proof fn lemma_unindent_scan(line: Seq<char>, i: nat, w: nat)
    requires
        i <= line.len(),
        forall|j: int| 0 <= j < i ==> line[j] == ' ',
    ensures
        unindent_scan(line, i, w) <= line.len(),
        forall|j: int|
            0 <= j < unindent_scan(line, i, w) ==> #[trigger] line[j] == ' ' || line[j] == '\t',
    decreases line.len() - i,
{
    if i < line.len() && line[i as int] == ' ' && i + 1 < w {
        lemma_unindent_scan(line, i + 1, w);
    }
}

/// A line that starts with `w` spaces loses exactly those.
pub proof fn lemma_unindent_spaces(line: Seq<char>, i: nat, w: nat)
    requires
        i < w,
        w <= line.len(),
        forall|j: int| 0 <= j < w ==> line[j] == ' ',
    ensures
        unindent_scan(line, i, w) == w,
    decreases w - i,
{
    if i + 1 < w {
        lemma_unindent_spaces(line, i + 1, w);
    }
}

/// Indenting with `w > 0` spaces and then unindenting with the same width
/// gives back every line of the range.
pub proof fn lemma_indent_unindent(line: Seq<char>, w: nat)
    requires
        w > 0,
    ensures
        (indent_unit(true, w) + line).skip(unindent_amount(indent_unit(true, w) + line, w) as int)
            == line,
{
    let l2 = indent_unit(true, w) + line;
    lemma_unindent_spaces(l2, 0, w);
    assert(l2.skip(w as int) =~= line);
}

/// Indenting rows `a..=b` with `w > 0` spaces and unindenting the same rows
/// with the same width gives back the document's lines.
pub proof fn lemma_indent_then_unindent(s: Seq<char>, t: Seq<char>, u: Seq<char>, a: nat, b: nat, w: nat)
    requires
        w > 0,
        nl_count(t) == nl_count(s),
        forall|r: nat|
            r <= nl_count(s) ==> #[trigger] line_text(t, r) == if a <= r <= b {
                indent_unit(true, w) + line_text(s, r)
            } else {
                line_text(s, r)
            },
        nl_count(u) == nl_count(t),
        forall|r: nat|
            r <= nl_count(t) ==> #[trigger] line_text(u, r) == if a <= r <= b {
                line_text(t, r).skip(unindent_amount(line_text(t, r), w) as int)
            } else {
                line_text(t, r)
            },
    ensures
        lines(u) == lines(s),
{
    assert forall|r: nat| r <= nl_count(s) implies #[trigger] line_text(u, r) == line_text(s, r) by {
        assert(line_text(t, r) == if a <= r <= b {
            indent_unit(true, w) + line_text(s, r)
        } else {
            line_text(s, r)
        });
        if a <= r <= b {
            lemma_indent_unindent(line_text(s, r), w);
        }
    }
    assert(lines(u) =~= lines(s)) by {
        assert forall|i: int| 0 <= i < lines(u).len() implies #[trigger] lines(u)[i] == lines(s)[i] by {
            assert(line_text(u, i as nat) == line_text(s, i as nat));
        }
    }
}

/// Where a position of row `p.0` goes when rows `lo..=hi` of `s` are
/// unindented.
pub open spec fn unindent_shift(s: Seq<char>, w: nat, lo: nat, hi: nat, p: (usize, usize)) -> (
    usize,
    usize,
) {
    if lo <= p.0 <= hi {
        (p.0, sat_sub(p.1, unindent_amount(line_text(s, p.0 as nat), w)))
    } else {
        p
    }
}

/// The cursor still names a position once its line's text grows or shrinks
/// by the characters before it.
proof fn lemma_col_after_edit(s: Seq<char>, t: Seq<char>, row: nat, col: nat, new_col: nat)
    requires
        row <= nl_count(s),
        nl_count(t) == nl_count(s),
        pos_valid(s, row, col),
        new_col == 0 || new_col + line_text(s, row).len() <= col + line_text(t, row).len(),
    ensures
        pos_valid(t, row, new_col),
{
    lemma_pos_valid_iff(s, row);
    lemma_pos_valid_iff(t, row);
    lemma_line_start(s, row);
    lemma_line_start(t, row);
}

impl TextBuffer {
    /// Adds one level of indentation (`tab_width` spaces, or a tab) at the
    /// start of every line from the selection's first row to its last;
    /// the cursor and the selection move right with their lines' text.
    pub fn indent_selection(&mut self, use_spaces: bool, tab_width: usize)
        requires
            old(self).wf(),
        ensures
            final(self).wf(),
            ({
                let s = old(self).text();
                let t = final(self).text();
                let unit = indent_unit(use_spaces, tab_width as nat);
                match old(self).selection {
                    Some(sel) if sel.start.0 <= sel.end.0 && sel.end.0 < line_count(s) => {
                        let a = sel.start.0;
                        let b = sel.end.0;
                        let c = old(self).cursor_position;
                        &&& nl_count(t) == nl_count(s)
                        &&& forall|r: nat|
                            r <= nl_count(s) ==> #[trigger] line_text(t, r) == if a <= r <= b {
                                unit + line_text(s, r)
                            } else {
                                line_text(s, r)
                            }
                        &&& final(self).cursor_position == if a <= c.0 <= b {
                            (c.0, (c.1 + unit.len()) as usize)
                        } else {
                            c
                        }
                        &&& final(self).selection == Some(
                            Selection {
                                start: (sel.start.0, sat_add(sel.start.1, unit.len())),
                                end: (
                                    sel.end.0,
                                    if sel.end.1 > 0 {
                                        sat_add(sel.end.1, unit.len())
                                    } else {
                                        sel.end.1
                                    },
                                ),
                                anchor: (sel.anchor.0, sat_add(sel.anchor.1, unit.len())),
                            },
                        )
                        &&& final(self).edited_from(old(self))
                    },
                    _ => *final(self) == *old(self),
                }
            }),
    {
        let sel = match self.selection {
            Some(sel) => sel,
            None => return,
        };
        let count = rope_len_lines(&self.content);
        let a = sel.start.0;
        let b = sel.end.0;
        if a > b || b >= count {
            return;
        }
        self.save_state();
        let mut unit_chars: Vec<char> = Vec::new();
        if use_spaces {
            let mut k: usize = 0;
            while k < tab_width
                invariant
                    k <= tab_width,
                    unit_chars@ == Seq::new(k as nat, |i: int| ' '),
                decreases tab_width - k,
            {
                unit_chars.push(' ');
                k = k + 1;
                proof {
                    assert(unit_chars@ =~= Seq::new(k as nat, |i: int| ' '));
                }
            }
        } else {
            unit_chars.push('\t');
            proof {
                assert(unit_chars@ =~= seq!['\t']);
            }
        }
        let unit_len = unit_chars.len();
        let unit = string_of(&unit_chars);
        let ghost u = indent_unit(use_spaces, tab_width as nat);
        let ghost s0 = self.text();
        let ghost um = self.undo_manager;
        proof {
            assert(no_newline(u));
        }
        let mut r = b + 1;
        while r > a
            invariant
                a <= r <= b + 1,
                b < line_count(s0),
                unit@ == u,
                unit_len == u.len(),
                no_newline(u),
                s0 == old(self).text(),
                nl_count(self.text()) == nl_count(s0),
                forall|rr: nat|
                    rr <= nl_count(s0) ==> #[trigger] line_text(self.text(), rr) == if r <= rr <= b {
                        u + line_text(s0, rr)
                    } else {
                        line_text(s0, rr)
                    },
                self.cursor_position == old(self).cursor_position,
                self.selection == old(self).selection,
                self.undo_manager == um,
                um.wf(),
                self.modified == old(self).modified,
                self.file_path == old(self).file_path,
                self.syntax_name == old(self).syntax_name,
            decreases r,
        {
            r = r - 1;
            let ghost cur = self.text();
            proof {
                lemma_line_start(cur, r as nat);
                lemma_pos_valid_iff(cur, r as nat);
            }
            let ls = rope_line_to_char(&self.content, r);
            rope_insert(&mut self.content, ls, unit.as_str());
            proof {
                lemma_line_edit(cur, r as nat, ls as int, 0, u);
                let l = line_text(cur, r as nat);
                assert(l.take(0) + u + l.skip(0) =~= u + l);
                assert(self.text() =~= cur.take(ls as int) + u + cur.skip(ls as int + 0));
            }
        }
        let _ = rope_len_chars(&self.content);
        let (crow, ccol) = self.cursor_position;
        if crow >= a && crow <= b {
            proof {
                lemma_col_after_edit(s0, self.text(), crow as nat, ccol as nat, (ccol + unit_len) as nat);
                lemma_pos_valid_iff(self.text(), crow as nat);
                lemma_line_start(self.text(), crow as nat);
            }
            self.cursor_position = (crow, ccol + unit_len);
        } else {
            proof {
                lemma_col_after_edit(s0, self.text(), crow as nat, ccol as nat, ccol as nat);
            }
        }
        let new_end_col = if sel.end.1 > 0 { sel.end.1.saturating_add(unit_len) } else { sel.end.1 };
        self.selection = Some(Selection {
            start: (sel.start.0, sel.start.1.saturating_add(unit_len)),
            end: (sel.end.0, new_end_col),
            anchor: (sel.anchor.0, sel.anchor.1.saturating_add(unit_len)),
        });
        self.modified = true;
    }

    /// Removes one level of indentation from every line from the
    /// selection's first row to its last: a leading tab, or up to
    /// `tab_width` leading spaces. The cursor and the selection's ends move
    /// left by what their line lost. Returns what was removed when the
    /// selection spans one line, 0 otherwise.
    pub fn unindent_selection(&mut self, use_spaces: bool, tab_width: usize) -> (removed: usize)
        requires
            old(self).wf(),
        ensures
            final(self).wf(),
            ({
                let s = old(self).text();
                let t = final(self).text();
                let w = tab_width as nat;
                match old(self).selection {
                    Some(sel) if sel.start.0 <= sel.end.0 && sel.end.0 < line_count(s) => {
                        let a = sel.start.0;
                        let b = sel.end.0;
                        let c = old(self).cursor_position;
                        &&& nl_count(t) == nl_count(s)
                        &&& forall|r: nat|
                            r <= nl_count(s) ==> #[trigger] line_text(t, r) == if a <= r <= b {
                                line_text(s, r).skip(unindent_amount(line_text(s, r), w) as int)
                            } else {
                                line_text(s, r)
                            }
                        &&& final(self).cursor_position == unindent_shift(s, w, a as nat, b as nat, c)
                        &&& final(self).selection == Some(
                            Selection {
                                start: unindent_shift(s, w, a as nat, b as nat, sel.start),
                                end: unindent_shift(s, w, a as nat, b as nat, sel.end),
                                anchor: unindent_shift(s, w, a as nat, b as nat, sel.anchor),
                            },
                        )
                        &&& removed == if a == b {
                            unindent_amount(line_text(s, a as nat), w)
                        } else {
                            0
                        }
                        &&& final(self).edited_from(old(self))
                    },
                    _ => *final(self) == *old(self) && removed == 0,
                }
            }),
    {
        let sel = match self.selection {
            Some(sel) => sel,
            None => return 0,
        };
        let count = rope_len_lines(&self.content);
        let a = sel.start.0;
        let b = sel.end.0;
        if a > b || b >= count {
            return 0;
        }
        self.save_state();
        let ghost s0 = self.text();
        let ghost w = tab_width as nat;
        let ghost um = self.undo_manager;
        let ghost c0 = self.cursor_position;
        let mut removed: usize = 0;
        let mut r = b + 1;
        while r > a
            invariant
                a <= r <= b + 1,
                b < line_count(s0),
                s0 == old(self).text(),
                w == tab_width as nat,
                nl_count(self.text()) == nl_count(s0),
                forall|rr: nat|
                    rr <= nl_count(s0) ==> #[trigger] line_text(self.text(), rr) == if r <= rr <= b {
                        line_text(s0, rr).skip(unindent_amount(line_text(s0, rr), w) as int)
                    } else {
                        line_text(s0, rr)
                    },
                c0 == old(self).cursor_position,
                cursor_ok(s0, c0),
                self.cursor_position == unindent_shift(s0, w, r as nat, b as nat, c0),
                self.selection == Some(
                    Selection { start: unindent_shift(s0, w, r as nat, b as nat, sel.start), end: unindent_shift(s0, w, r as nat, b as nat, sel.end), anchor: unindent_shift(s0, w, r as nat, b as nat, sel.anchor) },
                ),
                old(self).selection == Some(sel),
                a == sel.start.0,
                b == sel.end.0,
                removed == if a == b && r <= a {
                    unindent_amount(line_text(s0, a as nat), w)
                } else {
                    0
                },
                self.undo_manager == um,
                um.wf(),
                self.modified == old(self).modified,
                self.file_path == old(self).file_path,
                self.syntax_name == old(self).syntax_name,
            decreases r,
        {
            r = r - 1;
            let ghost cur = self.text();
            let line = self.line_chars(r);
            let n = line.len();
            let mut i: usize = 0;
            let mut amount: usize = 0;
            proof {
                lemma_line_start(cur, r as nat);
                lemma_pos_valid_iff(cur, r as nat);
                lemma_unindent_scan(line@, 0, w);
            }
            loop
                invariant
                    i <= n,
                    n == line@.len(),
                    i == 0 || i < tab_width,
                    forall|j: int| 0 <= j < i ==> line@[j] == ' ',
                    unindent_scan(line@, i as nat, w) == unindent_scan(line@, 0, w),
                    w == tab_width as nat,
                ensures
                    amount == unindent_scan(line@, 0, w),
                decreases n - i,
            {
                if i >= n {
                    amount = if i < tab_width { i } else { tab_width };
                    break;
                }
                let ch = line[i];
                if ch == '\t' {
                    amount = 1;
                    break;
                } else if ch == ' ' {
                    if i + 1 >= tab_width {
                        amount = tab_width;
                        break;
                    }
                    i = i + 1;
                } else {
                    amount = if i < tab_width { i } else { tab_width };
                    break;
                }
            }
            proof {
                assert(line@ == line_text(s0, r as nat));
            }
            if amount > 0 {
                let _ = rope_len_chars(&self.content);
                let ls = rope_line_to_char(&self.content, r);
                proof {
                    let l = line_text(cur, r as nat);
                    if r < nl_count(cur) && amount > content_len(cur, r as nat) {
                        assert(l[content_len(cur, r as nat)] == '\n');
                    }
                    lemma_line_edit(cur, r as nat, ls as int, amount as int, Seq::<char>::empty());
                    assert(l.take(0) + Seq::<char>::empty() + l.skip(0 + amount) =~= l.skip(amount as int));
                    assert(cur.take(ls as int) + Seq::<char>::empty() + cur.skip(ls + amount) =~= cur.take(ls as int) + cur.skip(ls + amount));
                }
                rope_remove(&mut self.content, ls, ls + amount);
                if a == b {
                    removed = amount;
                }
                if self.cursor_position.0 == r {
                    self.cursor_position.1 = self.cursor_position.1.saturating_sub(amount);
                }
                let mut ns = self.selection.unwrap();
                if ns.start.0 == r {
                    ns.start.1 = ns.start.1.saturating_sub(amount);
                }
                if ns.end.0 == r {
                    ns.end.1 = ns.end.1.saturating_sub(amount);
                }
                if ns.anchor.0 == r {
                    ns.anchor.1 = ns.anchor.1.saturating_sub(amount);
                }
                self.selection = Some(ns);
            } else {
                proof {
                    assert(line_text(cur, r as nat).skip(0) =~= line_text(cur, r as nat));
                }
            }
        }
        proof {
            let (crow, ccol) = c0;
            let t = self.text();
            if a <= crow <= b {
                lemma_unindent_scan(line_text(s0, crow as nat), 0, w);
                lemma_line_start(s0, crow as nat);
                lemma_col_after_edit(s0, t, crow as nat, ccol as nat, sat_sub(ccol, unindent_amount(line_text(s0, crow as nat), w)) as nat);
            } else {
                lemma_col_after_edit(s0, t, crow as nat, ccol as nat, ccol as nat);
            }
        }
        self.modified = true;
        removed
    }
}

/// `a + b`, or `usize::MAX` when that does not fit.
pub open spec fn add_sat(a: nat, b: nat) -> nat {
    if a + b <= usize::MAX {
        a + b
    } else {
        usize::MAX as nat
    }
}

/// Width of the leading spaces and tabs of `line` from index `i`, a tab
/// counting `w`, added to `acc`.
pub open spec fn lead_width(line: Seq<char>, w: nat, i: nat, acc: nat) -> nat
    decreases line.len() - i,
{
    if i < line.len() && line[i as int] == ' ' {
        lead_width(line, w, i + 1, add_sat(acc, 1))
    } else if i < line.len() && line[i as int] == '\t' {
        lead_width(line, w, i + 1, add_sat(acc, w))
    } else {
        acc
    }
}

/// The last character of `line[..n]` that is not whitespace.
pub open spec fn last_non_ws(line: Seq<char>, n: nat) -> Option<char>
    decreases n,
{
    if n == 0 || n > line.len() {
        None
    } else if is_ws(line[n - 1]) {
        last_non_ws(line, (n - 1) as nat)
    } else {
        Some(line[n - 1])
    }
}

/// Languages whose blocks opened at a line's end indent the next line.
pub open spec fn block_language(name: Seq<char>) -> bool {
    name == "rust"@ || name == "c"@ || name == "c++"@ || name == "java"@ || name == "javascript"@
        || name == "typescript"@ || name == "go"@ || name == "python"@
}

/// Indentation for a new line below `prev`: the width of `prev`'s leading
/// whitespace, one level more after an opening bracket (for a buffer
/// without a file, or in a block language), and one more after a colon in
/// Python.
pub open spec fn smart_indent_of(prev: Seq<char>, w: nat, has_path: bool, lang: Option<Seq<char>>) -> nat {
    let base = lead_width(prev, w, 0, 0);
    let last = last_non_ws(prev, prev.len());
    let opens = last == Some('{') || last == Some('[') || last == Some('(');
    let block = opens && (!has_path || (lang is Some && block_language(lang->Some_0)));
    let colon = last == Some(':') && has_path && lang == Some("python"@);
    let one = if block { add_sat(base, w) } else { base };
    if colon { add_sat(one, w) } else { one }
}

fn eq_name(v: &Vec<char>, lit: &str) -> (r: bool)
    ensures
        r == (v@ == lit@),
{
    let w = chars_of(lit);
    if v.len() != w.len() {
        return false;
    }
    let mut i: usize = 0;
    while i < v.len()
        invariant
            i <= v@.len(),
            v@.len() == w@.len(),
            w@ == lit@,
            forall|j: int| 0 <= j < i ==> v@[j] == w@[j],
        decreases v@.len() - i,
    {
        if v[i] != w[i] {
            return false;
        }
        i = i + 1;
    }
    proof {
        assert(v@ =~= w@);
    }
    true
}

impl TextBuffer {
    /// Indentation, in columns, for a new line below the cursor's line,
    /// read from the line above the cursor; 0 on the first line.
    pub fn get_smart_indent(&self, tab_width: usize) -> (n: usize)
        requires
            self.wf(),
        ensures
            self.cursor_position.0 == 0 ==> n == 0,
            self.cursor_position.0 > 0 ==> n == smart_indent_of(
                line_text(self.text(), (self.cursor_position.0 - 1) as nat),
                tab_width as nat,
                self.file_path is Some,
                match self.syntax_name {
                    Some(s) => Some(lower_of(s@)),
                    None => None,
                },
            ),
    {
        let row = self.cursor_position.0;
        if row == 0 {
            return 0;
        }
        let _ = rope_len_lines(&self.content);
        let prev = self.line_chars(row - 1);
        let n = prev.len();
        let mut indent: usize = 0;
        let mut i: usize = 0;
        while i < n && (prev[i] == ' ' || prev[i] == '\t')
            invariant
                i <= n,
                n == prev@.len(),
                lead_width(prev@, tab_width as nat, i as nat, indent as nat) == lead_width(prev@, tab_width as nat, 0, 0),
            decreases n - i,
        {
            if prev[i] == ' ' {
                indent = indent.saturating_add(1);
            } else {
                indent = indent.saturating_add(tab_width);
            }
            i = i + 1;
        }
        let mut k = n;
        while k > 0 && char_is_whitespace(prev[k - 1])
            invariant
                k <= n,
                n == prev@.len(),
                last_non_ws(prev@, k as nat) == last_non_ws(prev@, n as nat),
            decreases k,
        {
            k = k - 1;
        }
        let last = if k > 0 { Some(prev[k - 1]) } else { None };
        let lang = match &self.syntax_name {
            Some(s) => Some(chars_of(to_lower(s.as_str()).as_str())),
            None => None,
        };
        let has_path = self.file_path.is_some();
        let opens = last == Some('{') || last == Some('[') || last == Some('(');
        if opens {
            let block = if !has_path {
                true
            } else {
                match &lang {
                    Some(l) => eq_name(l, "rust") || eq_name(l, "c") || eq_name(l, "c++") || eq_name(l, "java")
                        || eq_name(l, "javascript") || eq_name(l, "typescript") || eq_name(l, "go") || eq_name(l, "python"),
                    None => false,
                }
            };
            if block {
                indent = indent.saturating_add(tab_width);
            }
        }
        if last == Some(':') && has_path {
            let python = match &lang {
                Some(l) => eq_name(l, "python"),
                None => false,
            };
            if python {
                indent = indent.saturating_add(tab_width);
            }
        }
        indent
    }
}

} // verus!
