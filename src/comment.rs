//! Toggling line comments on the cursor's line or on the lines a selection
//! spans.
use crate::buffer::{cursor_ok, TextBuffer};
use crate::indent::sat_sub;
use crate::text::{
    chars_of, content_len, lemma_line_edit, lemma_line_start, lemma_pos_valid_line, line_count,
    line_text, nl_count, no_newline, pos_valid, rope_insert, rope_len_chars, rope_len_lines,
    rope_line_to_char, rope_remove, string_of,
};
use vstd::prelude::*;

verus! {

/// Whether `char::is_whitespace` holds of `c`.
pub uninterp spec fn is_ws(c: char) -> bool;

/// Relies on `char::is_whitespace` (Unicode's White_Space property, which
/// holds of space, tab and line feed).
#[verifier::external_body]
pub(crate) fn char_is_whitespace(c: char) -> (r: bool)
    ensures
        r == is_ws(c),
        c == ' ' || c == '\t' || c == '\n' ==> r,
{
    c.is_whitespace()
}

/// Lowercase form of a string, as `str::to_lowercase` gives it.
pub uninterp spec fn lower_of(s: Seq<char>) -> Seq<char>;

/// Relies on `str::to_lowercase`: the result depends on the characters alone.
#[verifier::external_body]
pub(crate) fn to_lower(s: &str) -> (r: String)
    ensures
        r@ == lower_of(s@),
{
    s.to_lowercase()
}

/// A line's text without its break.
pub open spec fn body(line: Seq<char>) -> Seq<char> {
    if line.len() > 0 && line.last() == '\n' {
        line.drop_last()
    } else {
        line
    }
}

/// Index of the first non-whitespace character of `b` at or after `i`.
pub open spec fn ws_from(b: Seq<char>, i: nat) -> nat
    decreases b.len() - i,
{
    if i < b.len() && is_ws(b[i as int]) {
        ws_from(b, i + 1)
    } else {
        i
    }
}

/// Number of whitespace characters that start `b`.
pub open spec fn ws_prefix(b: Seq<char>) -> nat {
    ws_from(b, 0)
}

/// The line's text, after its leading whitespace, starts with `tok`.
pub open spec fn is_commented(line: Seq<char>, tok: Seq<char>) -> bool {
    let b = body(line);
    let sb = ws_prefix(b);
    sb + tok.len() <= b.len() && b.subrange(sb as int, (sb + tok.len()) as int) == tok
}

/// The line's text is whitespace only.
pub open spec fn is_blank(line: Seq<char>) -> bool {
    ws_prefix(body(line)) == body(line).len()
}

/// Where the removal of a comment token ends: after the token, and after
/// one space that follows it.
pub open spec fn strip_end(line: Seq<char>, tok: Seq<char>) -> int {
    let k = (ws_prefix(body(line)) + tok.len()) as int;
    if k < line.len() && line[k] == ' ' {
        k + 1
    } else {
        k
    }
}

/// `line` with its leading token, and one space after it, removed.
pub open spec fn strip_comment(line: Seq<char>, tok: Seq<char>) -> Seq<char> {
    let sb = ws_prefix(body(line));
    line.take(sb as int) + line.skip(strip_end(line, tok))
}

/// `line` with `tok` and a space put after its leading whitespace.
pub open spec fn add_comment(line: Seq<char>, tok: Seq<char>) -> Seq<char> {
    let sb = ws_prefix(body(line));
    line.take(sb as int) + (tok + seq![' ']) + line.skip(sb as int)
}

pub open spec fn toggle_line(line: Seq<char>, tok: Seq<char>) -> Seq<char> {
    if is_commented(line, tok) {
        strip_comment(line, tok)
    } else {
        add_comment(line, tok)
    }
}

/// Where a column goes when the comment is stripped from its line.
pub open spec fn strip_col(line: Seq<char>, tok: Seq<char>, col: usize) -> usize {
    let sb = ws_prefix(body(line));
    if col > sb {
        sat_sub(col, (strip_end(line, tok) - sb) as nat)
    } else {
        col
    }
}

/// Where a column goes when a comment is added to its line.
pub open spec fn add_col(line: Seq<char>, tok: Seq<char>, col: usize) -> usize {
    if col >= ws_prefix(body(line)) {
        (col + tok.len() + 1) as usize
    } else {
        col
    }
}

/// Where the cursor's column goes when its line is toggled.
pub open spec fn toggled_col(line: Seq<char>, tok: Seq<char>, col: usize) -> usize {
    if is_commented(line, tok) {
        strip_col(line, tok, col)
    } else {
        add_col(line, tok, col)
    }
}

/// Every line of rows `a..=b` is blank or commented.
pub open spec fn all_commented(s: Seq<char>, a: nat, b: nat, tok: Seq<char>) -> bool {
    forall|r: nat|
        a <= r <= b ==> is_blank(#[trigger] line_text(s, r)) || is_commented(line_text(s, r), tok)
}

/// A line of a block: blank lines stay; the others lose their comment
/// when the whole block is commented, and gain one otherwise.
pub open spec fn block_line(line: Seq<char>, tok: Seq<char>, all: bool) -> Seq<char> {
    if is_blank(line) {
        line
    } else if all {
        strip_comment(line, tok)
    } else {
        add_comment(line, tok)
    }
}

pub open spec fn block_col(line: Seq<char>, tok: Seq<char>, all: bool, col: usize) -> usize {
    if is_blank(line) {
        col
    } else if all {
        strip_col(line, tok, col)
    } else {
        add_col(line, tok, col)
    }
}

/// The comment token of a language, by its lowercase name; `//` when the
/// name is not known.
pub open spec fn comment_token_of(name: Seq<char>) -> Seq<char> {
    if name == "rust"@ || name == "c"@ || name == "c++"@ || name == "java"@ || name
        == "javascript"@ || name == "typescript"@ || name == "go"@ {
        "//"@
    } else if name == "python"@ || name == "ruby"@ || name == "shell"@ || name == "bash"@ || name
        == "yaml"@ || name == "toml"@ {
        "#"@
    } else if name == "html"@ || name == "xml"@ {
        "<!--"@
    } else if name == "css"@ || name == "scss"@ || name == "less"@ {
        "/*"@
    } else if name == "sql"@ || name == "lua"@ {
        "--"@
    } else if name == "vim"@ {
        "\""@
    } else {
        "//"@
    }
}

proof fn lemma_ws_from(b: Seq<char>, i: nat)
    requires
        i <= b.len(),
    ensures
        i <= ws_from(b, i) <= b.len(),
        forall|j: int| i <= j < ws_from(b, i) ==> is_ws(#[trigger] b[j]),
        ws_from(b, i) < b.len() ==> !is_ws(b[ws_from(b, i) as int]),
    decreases b.len() - i,
{
    if i < b.len() && is_ws(b[i as int]) {
        lemma_ws_from(b, i + 1);
    }
}

proof fn lemma_ws_from_unique(b: Seq<char>, i: nat, k: nat)
    requires
        i <= k <= b.len(),
        forall|j: int| i <= j < k ==> is_ws(#[trigger] b[j]),
        k < b.len() ==> !is_ws(b[k as int]),
    ensures
        ws_from(b, i) == k,
    decreases k - i,
{
    if i < k {
        lemma_ws_from_unique(b, i + 1, k);
    }
}

/// Commenting a line that is not commented and then toggling it again
/// gives back the line, its leading whitespace included.
pub proof fn lemma_toggle_twice(line: Seq<char>, tok: Seq<char>)
    requires
        !is_commented(line, tok),
        tok.len() > 0,
        no_newline(tok),
        !is_ws(tok[0]),
        no_newline(body(line)),
    ensures
        toggle_line(toggle_line(line, tok), tok) == line,
{
    let b = body(line);
    let sb = ws_prefix(b);
    lemma_ws_from(b, 0);
    let l2 = add_comment(line, tok);
    let ins = tok + seq![' '];
    assert(b.len() <= line.len());
    let b2 = b.take(sb as int) + ins + b.skip(sb as int);
    assert(body(l2) =~= b2) by {
        if line.len() > 0 && line.last() == '\n' {
            assert(l2 =~= b2.push('\n'));
        } else {
            assert(l2 =~= b2);
        }
    }
    assert forall|j: int| 0 <= j < sb implies is_ws(#[trigger] b2[j]) by {
        assert(b2[j] == b[j]);
    }
    assert(b2[sb as int] == tok[0]);
    lemma_ws_from_unique(b2, 0, sb);
    assert(b2.subrange(sb as int, (sb + tok.len()) as int) =~= tok);
    assert(l2[(sb + tok.len()) as int] == ' ');
    assert(strip_comment(l2, tok) =~= line);
}

/// Uncommenting a line whose token is followed by one space, and whose
/// text then starts where the token stood and is not commented itself,
/// and toggling it again gives back the line.
pub proof fn lemma_toggle_twice_commented(line: Seq<char>, tok: Seq<char>)
    requires
        is_commented(line, tok),
        strip_end(line, tok) == ws_prefix(body(line)) + tok.len() + 1,
        !is_commented(strip_comment(line, tok), tok),
        ws_prefix(body(strip_comment(line, tok))) == ws_prefix(body(line)),
    ensures
        toggle_line(toggle_line(line, tok), tok) == line,
{
    let b = body(line);
    let sb = ws_prefix(b);
    let k = sb + tok.len();
    let l2 = strip_comment(line, tok);
    assert(b.len() <= line.len());
    assert forall|i: int| 0 <= i < tok.len() implies line[sb + i] == #[trigger] tok[i] by {
        assert(b.subrange(sb as int, k as int)[i] == tok[i]);
        assert(b[sb + i] == line[sb + i]);
    }
    assert(line[k as int] == ' ');
    assert(l2.take(sb as int) =~= line.take(sb as int));
    assert(l2.skip(sb as int) =~= line.skip((k + 1) as int));
    assert(add_comment(l2, tok) =~= line);
}

/// The text of a line and of its body, and the columns of a valid cursor.
proof fn lemma_line_body(s: Seq<char>, row: nat)
    requires
        row <= nl_count(s),
    ensures
        body(line_text(s, row)).len() == content_len(s, row),
        body(line_text(s, row)) == line_text(s, row).take(content_len(s, row)),
        no_newline(body(line_text(s, row))),
{
    lemma_pos_valid_line(s, row);
    lemma_line_start(s, row);
    let l = line_text(s, row);
    if row == nl_count(s) && l.len() > 0 {
        assert(l[l.len() - 1] != '\n');
    }
    assert(body(l) =~= l.take(content_len(s, row)));
}

/// The comment token for a buffer whose language is `syntax_name`.
pub fn comment_token_for(syntax_name: &Option<String>) -> (r: Vec<char>)
    ensures
        r@ == match syntax_name {
            Some(n) => comment_token_of(lower_of(n@)),
            None => "//"@,
        },
        no_newline(r@),
        r@.len() > 0,
{
    match syntax_name {
        Some(n) => {
            let lower = to_lower(n.as_str());
            let name = chars_of(lower.as_str());
            comment_token_of_name(&name)
        },
        None => {
            proof {
                reveal_strlit("//");
            }
            chars_of("//")
        },
    }
}

fn eq_lit(v: &Vec<char>, lit: &str) -> (r: bool)
    ensures
        r == (v@ == lit@),
{
    let w = chars_of(lit);
    if v.len() != w.len() {
        return false;
    }
    let mut i: usize = 0;
    while i < v.len()
        invariant
            i <= v@.len(),
            v@.len() == w@.len(),
            w@ == lit@,
            forall|j: int| 0 <= j < i ==> v@[j] == w@[j],
        decreases v@.len() - i,
    {
        if v[i] != w[i] {
            return false;
        }
        i = i + 1;
    }
    proof {
        assert(v@ =~= w@);
    }
    true
}

/// The comment token of a language, by its lowercase name.
pub fn comment_token_of_name(name: &Vec<char>) -> (r: Vec<char>)
    ensures
        r@ == comment_token_of(name@),
        no_newline(r@),
        r@.len() > 0,
{
    proof {
        reveal_strlit("//");
        reveal_strlit("#");
        reveal_strlit("<!--");
        reveal_strlit("/*");
        reveal_strlit("--");
        reveal_strlit("\"");
    }
    if eq_lit(name, "rust") || eq_lit(name, "c") || eq_lit(name, "c++") || eq_lit(name, "java")
        || eq_lit(name, "javascript") || eq_lit(name, "typescript") || eq_lit(name, "go") {
        chars_of("//")
    } else if eq_lit(name, "python") || eq_lit(name, "ruby") || eq_lit(name, "shell") || eq_lit(
        name,
        "bash",
    ) || eq_lit(name, "yaml") || eq_lit(name, "toml") {
        chars_of("#")
    } else if eq_lit(name, "html") || eq_lit(name, "xml") {
        chars_of("<!--")
    } else if eq_lit(name, "css") || eq_lit(name, "scss") || eq_lit(name, "less") {
        chars_of("/*")
    } else if eq_lit(name, "sql") || eq_lit(name, "lua") {
        chars_of("--")
    } else if eq_lit(name, "vim") {
        chars_of("\"")
    } else {
        chars_of("//")
    }
}

/// Facts about a line of the document: its body, leading whitespace, and
/// whether it is commented, computed from its characters.
struct LineFacts {
    clen: usize,
    sb: usize,
    commented: bool,
    end: usize,
}

fn line_facts(line: &Vec<char>, tok: &Vec<char>) -> (f: LineFacts)
    requires
        no_newline(body(line@)),
    ensures
        f.clen == body(line@).len(),
        f.sb == ws_prefix(body(line@)),
        f.sb <= f.clen <= line@.len(),
        f.commented == is_commented(line@, tok@),
        f.commented ==> f.end == strip_end(line@, tok@) && f.end <= f.clen,
{
    let n = line.len();
    let clen = if n > 0 && line[n - 1] == '\n' { n - 1 } else { n };
    proof {
        assert(body(line@) =~= line@.take(clen as int));
        lemma_ws_from(body(line@), 0);
    }
    let mut i: usize = 0;
    while i < clen && char_is_whitespace(line[i])
        invariant
            i <= clen <= n,
            n == line@.len(),
            body(line@) == line@.take(clen as int),
            ws_from(body(line@), i as nat) == ws_prefix(body(line@)),
        decreases clen - i,
    {
        i = i + 1;
    }
    let sb = i;
    let tl = tok.len();
    let mut commented = tl <= clen - sb;
    if commented {
        let mut j: usize = 0;
        while j < tl
            invariant
                j <= tl,
                tl == tok@.len(),
                sb + tl <= clen <= n,
                n == line@.len(),
                commented == forall|k: int| 0 <= k < j ==> line@[sb + k] == tok@[k],
            decreases tl - j,
        {
            if line[sb + j] != tok[j] {
                commented = false;
            }
            j = j + 1;
        }
        proof {
            let b = body(line@);
            if commented {
                assert(b.subrange(sb as int, sb + tl) =~= tok@);
            } else {
                if b.subrange(sb as int, sb + tl) == tok@ {
                    assert forall|k: int| 0 <= k < tl implies line@[sb + k] == tok@[k] by {
                        assert(b.subrange(sb as int, sb + tl)[k] == tok@[k]);
                    }
                }
            }
        }
    }
    let end = if commented {
        let k = sb + tl;
        if k < n && line[k] == ' ' { k + 1 } else { k }
    } else {
        sb
    };
    proof {
        if commented && sb + tl < n && line@[sb + tl] == ' ' && sb + tl >= clen {
            assert(line@[sb + tl] == '\n');
        }
    }
    LineFacts { clen, sb, commented, end }
}

/// Toggles the comment of line `row` of the buffer by `tok`: strips it
/// when `strip`, adds it otherwise. Returns the cursor column `col` moved
/// with the line's text.
fn edit_line_comment(b: &mut TextBuffer, row: usize, tok: &Vec<char>, strip: bool, col: usize) -> (new_col: usize)
    requires
        row < line_count(old(b).text()),
        no_newline(tok@),
        strip ==> is_commented(line_text(old(b).text(), row as nat), tok@),
        pos_valid(old(b).text(), row as nat, col as nat),
    ensures
        ({
            let s = old(b).text();
            let t = final(b).text();
            let line = line_text(s, row as nat);
            &&& nl_count(t) == nl_count(s)
            &&& line_text(t, row as nat) == if strip { strip_comment(line, tok@) } else { add_comment(line, tok@) }
            &&& forall|r: nat| r <= nl_count(s) && r != row ==> #[trigger] line_text(t, r) == line_text(s, r)
            &&& new_col == if strip { strip_col(line, tok@, col) } else { add_col(line, tok@, col) }
            &&& pos_valid(t, row as nat, new_col as nat)
        }),
        final(b).cursor_position == old(b).cursor_position,
        final(b).selection == old(b).selection,
        final(b).undo_manager == old(b).undo_manager,
        final(b).modified == old(b).modified,
        final(b).file_path == old(b).file_path,
        final(b).syntax_name == old(b).syntax_name,
{
    let ghost s = b.text();
    let line = b.line_chars(row);
    proof {
        lemma_line_body(s, row as nat);
        lemma_pos_valid_line(s, row as nat);
        lemma_line_start(s, row as nat);
    }
    let f = line_facts(&line, tok);
    let _ = rope_len_chars(&b.content);
    let ls = rope_line_to_char(&b.content, row);
    let new_col;
    if strip {
        proof {
            lemma_line_edit(s, row as nat, ls + f.sb, f.end - f.sb, Seq::<char>::empty());
            let l = line_text(s, row as nat);
            assert(l.take(f.sb as int) + Seq::<char>::empty() + l.skip(f.sb + (f.end - f.sb)) =~= strip_comment(l, tok@));
            assert(s.take(ls + f.sb) + Seq::<char>::empty() + s.skip(ls + f.sb + (f.end - f.sb)) =~= s.take(ls + f.sb) + s.skip(ls + f.end));
        }
        rope_remove(&mut b.content, ls + f.sb, ls + f.end);
        new_col = if col > f.sb { col.saturating_sub(f.end - f.sb) } else { col };
    } else {
        let mut ins = tok.clone();
        ins.push(' ');
        let ins_text = string_of(&ins);
        proof {
            assert(ins@ =~= tok@ + seq![' ']);
            assert(no_newline(ins@));
            lemma_line_edit(s, row as nat, ls + f.sb, 0, ins@);
            let l = line_text(s, row as nat);
            assert(l.take(f.sb as int) + ins@ + l.skip(f.sb + 0) =~= add_comment(l, tok@));
            assert(s.take(ls + f.sb) + ins@ + s.skip(ls + f.sb + 0) =~= s.take(ls + f.sb) + ins@ + s.skip(ls + f.sb));
        }
        rope_insert(&mut b.content, ls + f.sb, ins_text.as_str());
        let _ = rope_len_chars(&b.content);
        proof {
            lemma_pos_valid_line(b.text(), row as nat);
            lemma_line_start(b.text(), row as nat);
        }
        new_col = if col >= f.sb { col + tok.len() + 1 } else { col };
    }
    proof {
        lemma_pos_valid_line(b.text(), row as nat);
    }
    new_col
}

impl TextBuffer {
    /// Comments the cursor's line with `tok` after its leading whitespace,
    /// or strips the token (and one space after it) when the line already
    /// starts with it. True when a comment was added.
    pub fn toggle_line_comment(&mut self, tok: &Vec<char>) -> (added: bool)
        requires
            old(self).wf(),
            no_newline(tok@),
        ensures
            ({
                let s = old(self).text();
                let t = final(self).text();
                let (row, col) = old(self).cursor_position;
                let line = line_text(s, row as nat);
                &&& nl_count(t) == nl_count(s)
                &&& line_text(t, row as nat) == toggle_line(line, tok@)
                &&& forall|r: nat| r <= nl_count(s) && r != row ==> #[trigger] line_text(t, r) == line_text(s, r)
                &&& final(self).cursor_position == (row, toggled_col(line, tok@, col))
                &&& added == !is_commented(line, tok@)
            }),
            final(self).selection == old(self).selection,
            final(self).edited_from(old(self)),
            final(self).wf(),
    {
        self.save_state();
        let (row, col) = self.cursor_position;
        let ghost s = self.text();
        let _ = rope_len_lines(&self.content);
        let line = self.line_chars(row);
        proof {
            lemma_line_body(s, row as nat);
        }
        let f = line_facts(&line, tok);
        let new_col = edit_line_comment(self, row, tok, f.commented, col);
        self.cursor_position = (row, new_col);
        self.modified = true;
        !f.commented
    }

    /// Toggles comments on every line from the selection's first row to its
    /// last: when all the lines that are not blank are commented they are
    /// uncommented, otherwise they are all commented; blank lines stay.
    /// True when comments were added.
    pub fn toggle_block_comment(&mut self, tok: &Vec<char>) -> (added: bool)
        requires
            old(self).wf(),
            no_newline(tok@),
        ensures
            final(self).wf(),
            ({
                let s = old(self).text();
                let t = final(self).text();
                match old(self).selection {
                    Some(sel) if sel.start.0 <= sel.end.0 && sel.end.0 < line_count(s) => {
                        let a = sel.start.0;
                        let b = sel.end.0;
                        let all = all_commented(s, a as nat, b as nat, tok@);
                        let c = old(self).cursor_position;
                        &&& nl_count(t) == nl_count(s)
                        &&& forall|r: nat|
                            r <= nl_count(s) ==> #[trigger] line_text(t, r) == if a <= r <= b {
                                block_line(line_text(s, r), tok@, all)
                            } else {
                                line_text(s, r)
                            }
                        &&& final(self).cursor_position == if a <= c.0 <= b {
                            (c.0, block_col(line_text(s, c.0 as nat), tok@, all, c.1))
                        } else {
                            c
                        }
                        &&& added == !all
                        &&& final(self).selection == old(self).selection
                        &&& final(self).edited_from(old(self))
                    },
                    _ => *final(self) == *old(self) && !added,
                }
            }),
    {
        let sel = match self.selection {
            Some(sel) => sel,
            None => return false,
        };
        let count = rope_len_lines(&self.content);
        let a = sel.start.0;
        let b = sel.end.0;
        if a > b || b >= count {
            return false;
        }
        self.save_state();
        let ghost s0 = self.text();
        let ghost um = self.undo_manager;
        let mut all = true;
        let mut r = a;
        while r <= b
            invariant
                a <= r <= b + 1,
                b < count,
                count == line_count(s0),
                s0 == self.text(),
                all == forall|rr: nat| a <= rr < r ==> is_blank(#[trigger] line_text(s0, rr)) || is_commented(line_text(s0, rr), tok@),
            decreases b + 1 - r,
        {
            let line = self.line_chars(r);
            proof {
                lemma_line_body(s0, r as nat);
            }
            let f = line_facts(&line, tok);
            if f.sb != f.clen && !f.commented {
                all = false;
            }
            r = r + 1;
        }
        let (crow, ccol) = self.cursor_position;
        let mut new_col = ccol;
        let mut r = b + 1;
        while r > a
            invariant
                a <= r <= b + 1,
                b < line_count(s0),
                s0 == old(self).text(),
                no_newline(tok@),
                all == all_commented(s0, a as nat, b as nat, tok@),
                nl_count(self.text()) == nl_count(s0),
                forall|rr: nat|
                    rr <= nl_count(s0) ==> #[trigger] line_text(self.text(), rr) == if r <= rr <= b {
                        block_line(line_text(s0, rr), tok@, all)
                    } else {
                        line_text(s0, rr)
                    },
                (crow, ccol) == old(self).cursor_position,
                cursor_ok(s0, (crow, ccol)),
                r <= crow <= b ==> new_col == block_col(line_text(s0, crow as nat), tok@, all, ccol)
                    && pos_valid(self.text(), crow as nat, new_col as nat),
                !(r <= crow <= b) ==> new_col == ccol,
                self.cursor_position == old(self).cursor_position,
                self.selection == old(self).selection,
                self.undo_manager == um,
                um.wf(),
                self.modified == old(self).modified,
                self.file_path == old(self).file_path,
                self.syntax_name == old(self).syntax_name,
            decreases r,
        {
            r = r - 1;
            let ghost cur = self.text();
            proof {
                assert(line_text(cur, r as nat) == line_text(s0, r as nat));
                lemma_line_body(cur, r as nat);
            }
            let line = self.line_chars(r);
            let f = line_facts(&line, tok);
            if f.sb != f.clen {
                let col = if crow == r { ccol } else { 0 };
                proof {
                    lemma_pos_valid_line(cur, r as nat);
                    if crow == r {
                        lemma_pos_valid_line(s0, r as nat);
                    }
                }
                let moved = edit_line_comment(self, r, tok, all, col);
                if crow == r {
                    new_col = moved;
                }
                proof {
                    if r < crow <= b {
                        lemma_pos_valid_line(cur, crow as nat);
                        lemma_pos_valid_line(self.text(), crow as nat);
                    }
                }
            } else {
                proof {
                    if crow == r {
                        lemma_pos_valid_line(s0, r as nat);
                        lemma_pos_valid_line(cur, r as nat);
                    }
                }
            }
        }
        proof {
            if !(a <= crow <= b) {
                lemma_pos_valid_line(s0, crow as nat);
                lemma_pos_valid_line(self.text(), crow as nat);
            }
        }
        self.cursor_position = (crow, new_col);
        self.modified = true;
        !all
    }

    /// Toggles comments with the token of the buffer's language: on the
    /// selected lines when there is a non-empty selection, else on the
    /// cursor's line. True when comments were added.
    pub fn toggle_comment(&mut self) -> (added: bool)
        requires
            old(self).wf(),
        ensures
            final(self).wf(),
            ({
                let tok = match old(self).syntax_name {
                    Some(n) => comment_token_of(lower_of(n@)),
                    None => "//"@,
                };
                let s = old(self).text();
                let t = final(self).text();
                if old(self).selection.is_some() && old(self).selection.unwrap().start
                    != old(self).selection.unwrap().end {
                    let sel = old(self).selection.unwrap();
                    sel.start.0 <= sel.end.0 && sel.end.0 < line_count(s) ==> {
                        let all = all_commented(s, sel.start.0 as nat, sel.end.0 as nat, tok);
                        &&& forall|r: nat|
                            r <= nl_count(s) ==> #[trigger] line_text(t, r) == if sel.start.0 <= r <= sel.end.0 {
                                block_line(line_text(s, r), tok, all)
                            } else {
                                line_text(s, r)
                            }
                        &&& added == !all
                    }
                } else {
                    let (row, col) = old(self).cursor_position;
                    &&& line_text(t, row as nat) == toggle_line(line_text(s, row as nat), tok)
                    &&& forall|r: nat| r <= nl_count(s) && r != row ==> #[trigger] line_text(t, r) == line_text(s, r)
                    &&& added == !is_commented(line_text(s, row as nat), tok)
                }
            }),
    {
        let tok = comment_token_for(&self.syntax_name);
        if self.has_selection() {
            self.toggle_block_comment(&tok)
        } else {
            self.toggle_line_comment(&tok)
        }
    }
}

} // verus!
