//! Matching brackets and bracket nesting depth.
use crate::buffer::TextBuffer;
use crate::text::{
    lemma_line_start, lemma_nl_count_le_len, lemma_row_of, lemma_row_of_pos, line_count, line_len,
    line_start, lines, nl_count, rope_char_to_line, rope_chars, rope_len_lines, rope_line_to_char,
    row_of,
};
use vstd::prelude::*;

verus! {

/// For a bracket character: its pair's opener, closer, and whether the
/// match lies forward (the character opens).
pub open spec fn bracket_kind(c: char) -> Option<(char, char, bool)> {
    if c == '(' {
        Some(('(', ')', true))
    } else if c == ')' {
        Some(('(', ')', false))
    } else if c == '[' {
        Some(('[', ']', true))
    } else if c == ']' {
        Some(('[', ']', false))
    } else if c == '{' {
        Some(('{', '}', true))
    } else if c == '}' {
        Some(('{', '}', false))
    } else if c == '<' {
        Some(('<', '>', true))
    } else if c == '>' {
        Some(('<', '>', false))
    } else {
        None
    }
}

pub open spec fn inc(d: nat) -> nat {
    if d < usize::MAX {
        d + 1
    } else {
        d
    }
}

/// Scanning forward from offset `i` with `depth` openers unmatched: where
/// the depth falls to zero.
pub open spec fn fwd(s: Seq<char>, open: char, close: char, i: int, depth: nat) -> Option<int>
    decreases s.len() - i,
{
    if i < 0 || i >= s.len() {
        None
    } else if s[i] == open {
        fwd(s, open, close, i + 1, inc(depth))
    } else if s[i] == close {
        if depth <= 1 {
            Some(i)
        } else {
            fwd(s, open, close, i + 1, (depth - 1) as nat)
        }
    } else {
        fwd(s, open, close, i + 1, depth)
    }
}

/// Scanning backward from offset `i` with `depth` closers unmatched: where
/// the depth falls to zero.
pub open spec fn bwd(s: Seq<char>, open: char, close: char, i: int, depth: nat) -> Option<int>
    decreases i + 1,
{
    if i < 0 || i >= s.len() {
        None
    } else if s[i] == close {
        bwd(s, open, close, i - 1, inc(depth))
    } else if s[i] == open {
        if depth <= 1 {
            Some(i)
        } else {
            bwd(s, open, close, i - 1, (depth - 1) as nat)
        }
    } else {
        bwd(s, open, close, i - 1, depth)
    }
}

/// Offset of the bracket matching the one at offset `o`.
pub open spec fn match_at(s: Seq<char>, o: int) -> Option<int> {
    if o < 0 || o >= s.len() {
        None
    } else {
        match bracket_kind(s[o]) {
            None => None,
            Some((open, close, true)) => fwd(s, open, close, o + 1, 1),
            Some((open, close, false)) => bwd(s, open, close, o - 1, 1),
        }
    }
}

/// Row and column of offset `q`.
pub open spec fn pos_of(s: Seq<char>, q: int) -> (usize, usize) {
    (row_of(s, q) as usize, (q - line_start(s, row_of(s, q))) as usize)
}

/// The bracket matching the one at `(row, col)`; None when the position
/// holds no bracket, or its match is missing.
pub open spec fn matching_bracket(s: Seq<char>, row: nat, col: nat) -> Option<(usize, usize)> {
    if row <= nl_count(s) && col < line_len(s, row) {
        match match_at(s, (line_start(s, row) + col) as int) {
            Some(q) => Some(pos_of(s, q)),
            None => None,
        }
    } else {
        None
    }
}

/// Openers minus closers among the characters in `[a, b)`.
pub open spec fn bal(s: Seq<char>, open: char, close: char, a: int, b: int) -> int
    decreases b - a,
{
    if a >= b || a < 0 || b > s.len() {
        0
    } else {
        (if s[a] == open {
            1int
        } else if s[a] == close {
            -1int
        } else {
            0int
        }) + bal(s, open, close, a + 1, b)
    }
}

proof fn lemma_bal_split(s: Seq<char>, open: char, close: char, a: int, b: int, c: int)
    requires
        0 <= a <= b <= c <= s.len(),
    ensures
        bal(s, open, close, a, c) == bal(s, open, close, a, b) + bal(s, open, close, b, c),
    decreases b - a,
{
    if a < b {
        lemma_bal_split(s, open, close, a + 1, b, c);
    }
}

proof fn lemma_bal_last(s: Seq<char>, open: char, close: char, a: int, b: int)
    requires
        0 <= a <= b < s.len(),
    ensures
        bal(s, open, close, a, b + 1) == bal(s, open, close, a, b) + (if s[b] == open {
            1int
        } else if s[b] == close {
            -1int
        } else {
            0int
        }),
{
    lemma_bal_split(s, open, close, a, b, b + 1);
    assert(bal(s, open, close, b + 1, b + 1) == 0);
}

/// What a forward scan that succeeds passes over.
proof fn lemma_fwd_found(s: Seq<char>, open: char, close: char, i: int, d: nat)
    requires
        open != close,
        0 <= i <= s.len(),
        d >= 1,
        d + (s.len() - i) < usize::MAX,
        fwd(s, open, close, i, d) is Some,
    ensures
        ({
            let q = fwd(s, open, close, i, d)->Some_0;
            &&& i <= q < s.len()
            &&& s[q] == close
            &&& d + bal(s, open, close, i, q) == 1
            &&& forall|k: int| i <= k <= q ==> d + #[trigger] bal(s, open, close, i, k) >= 1
        }),
    decreases s.len() - i,
{
    let q = fwd(s, open, close, i, d)->Some_0;
    if s[i] == open {
        lemma_fwd_found(s, open, close, i + 1, d + 1);
        assert forall|k: int| i <= k <= q implies d + #[trigger] bal(s, open, close, i, k) >= 1 by {
            if k > i {
                assert(bal(s, open, close, i, k) == 1 + bal(s, open, close, i + 1, k));
            }
        }
        assert(bal(s, open, close, i, q) == 1 + bal(s, open, close, i + 1, q));
    } else if s[i] == close {
        if d > 1 {
            lemma_fwd_found(s, open, close, i + 1, (d - 1) as nat);
            assert forall|k: int| i <= k <= q implies d + #[trigger] bal(s, open, close, i, k) >= 1 by {
                if k > i {
                    assert(bal(s, open, close, i, k) == -1 + bal(s, open, close, i + 1, k));
                }
            }
            assert(bal(s, open, close, i, q) == -1 + bal(s, open, close, i + 1, q));
        }
    } else {
        lemma_fwd_found(s, open, close, i + 1, d);
        assert forall|k: int| i <= k <= q implies d + #[trigger] bal(s, open, close, i, k) >= 1 by {
            if k > i {
                assert(bal(s, open, close, i, k) == bal(s, open, close, i + 1, k));
            }
        }
        assert(bal(s, open, close, i, q) == bal(s, open, close, i + 1, q));
    }
}

/// What a backward scan that succeeds passes over.
proof fn lemma_bwd_found(s: Seq<char>, open: char, close: char, m: int, d: nat)
    requires
        open != close,
        -1 <= m < s.len(),
        d >= 1,
        d + (m + 1) < usize::MAX,
        bwd(s, open, close, m, d) is Some,
    ensures
        ({
            let o = bwd(s, open, close, m, d)->Some_0;
            &&& 0 <= o <= m
            &&& s[o] == open
            &&& d - bal(s, open, close, o + 1, m + 1) == 1
            &&& forall|k: int| o + 1 <= k <= m + 1 ==> d - #[trigger] bal(s, open, close, k, m + 1) >= 1
        }),
    decreases m + 1,
{
    let o = bwd(s, open, close, m, d)->Some_0;
    if s[m] == close {
        lemma_bwd_found(s, open, close, m - 1, d + 1);
        assert forall|k: int| o + 1 <= k <= m + 1 implies d - #[trigger] bal(s, open, close, k, m + 1) >= 1 by {
            if k <= m {
                lemma_bal_last(s, open, close, k, m);
            }
        }
        lemma_bal_last(s, open, close, o + 1, m);
    } else if s[m] == open {
        if d > 1 {
            lemma_bwd_found(s, open, close, m - 1, (d - 1) as nat);
            assert forall|k: int| o + 1 <= k <= m + 1 implies d - #[trigger] bal(s, open, close, k, m + 1) >= 1 by {
                if k <= m {
                    lemma_bal_last(s, open, close, k, m);
                }
            }
            lemma_bal_last(s, open, close, o + 1, m);
        }
    } else {
        lemma_bwd_found(s, open, close, m - 1, d);
        assert forall|k: int| o + 1 <= k <= m + 1 implies d - #[trigger] bal(s, open, close, k, m + 1) >= 1 by {
            if k <= m {
                lemma_bal_last(s, open, close, k, m);
            }
        }
        lemma_bal_last(s, open, close, o + 1, m);
    }
}

/// A backward scan from inside a balanced stretch after opener `o` finds
/// `o`.
proof fn lemma_bwd_finds(s: Seq<char>, open: char, close: char, o: int, q: int, m: int, d: nat)
    requires
        open != close,
        0 <= o <= m < q < s.len(),
        s.len() + 2 < usize::MAX,
        s[o] == open,
        d == 1 + bal(s, open, close, o + 1, m + 1),
        bal(s, open, close, o + 1, q) == 0,
        forall|k: int| o + 1 <= k <= q ==> #[trigger] bal(s, open, close, o + 1, k) >= 0,
    ensures
        bwd(s, open, close, m, d) == Some(o),
    decreases m,
{
    if m > o {
        lemma_bal_last(s, open, close, o + 1, m);
        assert(bal(s, open, close, o + 1, m) >= 0);
        lemma_bal_bound(s, open, close, o + 1, m + 1);
        let next = if s[m] == close { inc(d) } else if s[m] == open { (d - 1) as nat } else { d };
        lemma_bwd_finds(s, open, close, o, q, m - 1, next);
    }
}

/// A forward scan from inside a balanced stretch before closer `p` finds
/// `p`.
proof fn lemma_fwd_finds(s: Seq<char>, open: char, close: char, o: int, p: int, i: int, d: nat)
    requires
        open != close,
        0 <= o < i <= p < s.len(),
        s.len() + 2 < usize::MAX,
        s[p] == close,
        d == 1 + bal(s, open, close, o + 1, i),
        bal(s, open, close, o + 1, p) == 0,
        forall|k: int| o + 1 <= k <= p ==> #[trigger] bal(s, open, close, k, p) <= 0,
    ensures
        fwd(s, open, close, i, d) == Some(p),
    decreases p - i,
{
    lemma_bal_split(s, open, close, o + 1, i, p);
    if i < p {
        lemma_bal_last(s, open, close, o + 1, i);
        assert(bal(s, open, close, i, p) == (if s[i] == open {
            1int
        } else if s[i] == close {
            -1int
        } else {
            0int
        }) + bal(s, open, close, i + 1, p));
        assert(bal(s, open, close, i + 1, p) <= 0);
        lemma_bal_bound(s, open, close, o + 1, i + 1);
        let next = if s[i] == open { inc(d) } else if s[i] == close { (d - 1) as nat } else { d };
        lemma_fwd_finds(s, open, close, o, p, i + 1, next);
    }
}

proof fn lemma_bal_bound(s: Seq<char>, open: char, close: char, a: int, b: int)
    ensures
        a < b ==> -(b - a) <= bal(s, open, close, a, b) <= b - a,
        a >= b ==> bal(s, open, close, a, b) == 0,
    decreases b - a,
{
    if a < b {
        lemma_bal_bound(s, open, close, a + 1, b);
    }
}

/// Matching is symmetric on offsets: the bracket matching the match of a
/// bracket is that bracket.
pub proof fn lemma_match_at_symmetric(s: Seq<char>, o: int)
    requires
        s.len() + 2 < usize::MAX,
        match_at(s, o) is Some,
    ensures
        match_at(s, match_at(s, o)->Some_0) == Some(o),
{
    let q = match_at(s, o)->Some_0;
    let (open, close, forward) = bracket_kind(s[o])->Some_0;
    assert(open != close);
    if forward {
        lemma_fwd_found(s, open, close, o + 1, 1);
        assert(bracket_kind(s[q]) == Some((open, close, false)));
        assert(bal(s, open, close, o + 1, o + 1) == 0);
        lemma_bwd_finds(s, open, close, o, q, q - 1, 1);
    } else {
        lemma_bwd_found(s, open, close, o - 1, 1);
        assert(bracket_kind(s[q]) == Some((open, close, true)));
        assert(bal(s, open, close, q + 1, q + 1) == 0);
        assert forall|k: int| q + 1 <= k <= o implies #[trigger] bal(s, open, close, k, o) <= 0 by {
            assert(1 - bal(s, open, close, k, o - 1 + 1) >= 1);
        }
        lemma_fwd_finds(s, open, close, q, o, q + 1, 1);
    }
}

/// If the bracket at `(row, col)` matches the one at `(r, c)`, then the
/// bracket at `(r, c)` matches the one at `(row, col)`.
pub proof fn lemma_matching_symmetric(s: Seq<char>, row: nat, col: nat)
    requires
        s.len() + 2 < usize::MAX,
        matching_bracket(s, row, col) is Some,
    ensures
        ({
            let (r, c) = matching_bracket(s, row, col)->Some_0;
            matching_bracket(s, r as nat, c as nat) == Some((row as usize, col as usize))
        }),
{
    let o = (line_start(s, row) + col) as int;
    lemma_row_of_pos(s, row, col);
    lemma_match_at_symmetric(s, o);
    let q = match_at(s, o)->Some_0;
    if bracket_kind(s[o])->Some_0.2 {
        lemma_fwd_found(s, bracket_kind(s[o])->Some_0.0, bracket_kind(s[o])->Some_0.1, o + 1, 1);
    } else {
        lemma_bwd_found(s, bracket_kind(s[o])->Some_0.0, bracket_kind(s[o])->Some_0.1, o - 1, 1);
    }
    lemma_row_of(s, q);
    lemma_nl_count_le_len(s);
    lemma_line_start(s, row);
}

/// Depth after one character: round, square and curly openers add one,
/// their closers take one away down to zero.
pub open spec fn depth_step(d: nat, c: char) -> nat {
    if c == '(' || c == '[' || c == '{' {
        inc(d)
    } else if c == ')' || c == ']' || c == '}' {
        if d > 0 {
            (d - 1) as nat
        } else {
            0
        }
    } else {
        d
    }
}

/// Depth after the first `n` characters of `line`, from depth `d`.
pub open spec fn depth_line(line: Seq<char>, n: nat, d: nat) -> nat
    decreases n,
{
    if n == 0 || n > line.len() {
        d
    } else {
        depth_step(depth_line(line, (n - 1) as nat, d), line[n - 1])
    }
}

/// Depth after the first `r` lines.
pub open spec fn depth_rows(ls: Seq<Seq<char>>, r: nat) -> nat
    decreases r,
{
    if r == 0 || r > ls.len() {
        0
    } else {
        depth_line(ls[r - 1], ls[r - 1].len(), depth_rows(ls, (r - 1) as nat))
    }
}

/// Depth just before `(row, col)`.
pub open spec fn depth_before(ls: Seq<Seq<char>>, row: nat, col: nat) -> nat {
    depth_line(ls[row as int], if col <= ls[row as int].len() { col } else { ls[row as int].len() }, depth_rows(ls, row))
}

/// Nesting depth at a bracket: for an opener the depth before it; for a
/// closer the depth before its matching opener, or 0 when it has none.
pub open spec fn bracket_depth(s: Seq<char>, row: nat, col: nat) -> nat {
    let ls = lines(s);
    if row >= ls.len() || col >= ls[row as int].len() {
        0
    } else {
        let c = ls[row as int][col as int];
        if c == '(' || c == '[' || c == '{' || c == '<' {
            depth_before(ls, row, col)
        } else if c == ')' || c == ']' || c == '}' || c == '>' {
            match matching_bracket(s, row, col) {
                Some(m) => if (m.0 as nat) < ls.len() {
                    depth_before(ls, m.0 as nat, m.1 as nat)
                } else {
                    0
                },
                None => 0,
            }
        } else {
            0
        }
    }
}

fn kind_of(c: char) -> (r: Option<(char, char, bool)>)
    ensures
        r == bracket_kind(c),
{
    match c {
        '(' => Some(('(', ')', true)),
        ')' => Some(('(', ')', false)),
        '[' => Some(('[', ']', true)),
        ']' => Some(('[', ']', false)),
        '{' => Some(('{', '}', true)),
        '}' => Some(('{', '}', false)),
        '<' => Some(('<', '>', true)),
        '>' => Some(('<', '>', false)),
        _ => None,
    }
}

impl TextBuffer {
    /// The characters of each line, for scans across lines.
    fn all_lines(&self) -> (v: Vec<Vec<char>>)
        ensures
            v@.len() == lines(self.text()).len(),
            forall|i: int| 0 <= i < v@.len() ==> (#[trigger] v@[i])@ == lines(self.text())[i],
    {
        let count = rope_len_lines(&self.content);
        let mut v: Vec<Vec<char>> = Vec::new();
        let mut r: usize = 0;
        while r < count
            invariant
                r <= count,
                count == line_count(self.text()),
                v@.len() == r,
                forall|i: int| 0 <= i < r ==> (#[trigger] v@[i])@ == lines(self.text())[i],
            decreases count - r,
        {
            v.push(self.line_chars(r));
            r = r + 1;
        }
        v
    }

    /// The position of the bracket that matches the one at `pos`, of the
    /// same kind, counting nested pairs of that kind; None when `pos` holds
    /// no bracket or the match is missing.
    pub fn find_matching_bracket(&self, pos: (usize, usize)) -> (r: Option<(usize, usize)>)
        ensures
            r == matching_bracket(self.text(), pos.0 as nat, pos.1 as nat),
    {
        let ghost s = self.text();
        let count = rope_len_lines(&self.content);
        if pos.0 >= count {
            return None;
        }
        let line_len = self.line_len_at(pos.0);
        if pos.1 >= line_len {
            return None;
        }
        let chars = rope_chars(&self.content);
        let o = rope_line_to_char(&self.content, pos.0) + pos.1;
        let (open, close, forward) = match kind_of(chars[o]) {
            Some(k) => k,
            None => return None,
        };
        let found = if forward {
            scan_forward(&chars, open, close, o + 1)
        } else if o > 0 {
            scan_backward(&chars, open, close, o - 1)
        } else {
            None
        };
        match found {
            Some(q) => {
                proof {
                    if forward {
                        lemma_fwd_range(s, open, close, o + 1, 1);
                    } else {
                        lemma_bwd_range(s, open, close, o - 1, 1);
                    }
                    lemma_row_of(s, q as int);
                }
                let row = rope_char_to_line(&self.content, q);
                let ls = rope_line_to_char(&self.content, row);
                Some((row, q - ls))
            },
            None => None,
        }
    }

    /// Nesting depth at the bracket at `pos`, counting round, square and
    /// curly brackets from the document's start: for an opener, the depth
    /// before it; for a closer, the depth before its matching opener. 0 when
    /// `pos` holds no bracket or a closer has no match.
    pub fn get_bracket_depth_at(&self, pos: (usize, usize)) -> (d: usize)
        ensures
            d == bracket_depth(self.text(), pos.0 as nat, pos.1 as nat),
    {
        let ls = self.all_lines();
        let ghost sl = lines(self.text());
        proof {
            assert(ls@.len() == sl.len());
        }
        if pos.0 >= ls.len() {
            return 0;
        }
        let line = &ls[pos.0];
        if pos.1 >= line.len() {
            return 0;
        }
        let ch = line[pos.1];
        let is_opening = ch == '(' || ch == '[' || ch == '{' || ch == '<';
        let is_closing = ch == ')' || ch == ']' || ch == '}' || ch == '>';
        if !is_opening && !is_closing {
            return 0;
        }
        let target = if is_opening {
            pos
        } else {
            match self.find_matching_bracket(pos) {
                Some(m) => m,
                None => return 0,
            }
        };
        if target.0 >= ls.len() {
            return 0;
        }
        proof {
            assert(ls@.map_values(|l: Vec<char>| l@) =~= sl);
        }
        depth_up_to(&ls, target.0, target.1)
    }
}

/// Depth just before `(row, col)` of `ls`.
fn depth_up_to(ls: &Vec<Vec<char>>, row: usize, col: usize) -> (d: usize)
    requires
        row < ls@.len(),
    ensures
        d == depth_before(ls@.map_values(|l: Vec<char>| l@), row as nat, col as nat),
{
    let ghost sl = ls@.map_values(|l: Vec<char>| l@);
    let mut depth: usize = 0;
    let mut r: usize = 0;
    while r < row
        invariant
            r <= row < ls@.len(),
            sl == ls@.map_values(|l: Vec<char>| l@),
            depth == depth_rows(sl, r as nat),
        decreases row - r,
    {
        let n = ls[r].len();
        depth = depth_of_line(&ls[r], n, depth);
        r = r + 1;
    }
    let n = ls[row].len();
    let upto = if col <= n { col } else { n };
    depth_of_line(&ls[row], upto, depth)
}

fn depth_of_line(line: &Vec<char>, n: usize, d0: usize) -> (d: usize)
    requires
        n <= line@.len(),
    ensures
        d == depth_line(line@, n as nat, d0 as nat),
{
    let mut d = d0;
    let mut i: usize = 0;
    while i < n
        invariant
            i <= n <= line@.len(),
            d == depth_line(line@, i as nat, d0 as nat),
        decreases n - i,
    {
        let c = line[i];
        if c == '(' || c == '[' || c == '{' {
            d = d.saturating_add(1);
        } else if c == ')' || c == ']' || c == '}' {
            d = d.saturating_sub(1);
        }
        i = i + 1;
    }
    d
}

proof fn lemma_fwd_range(s: Seq<char>, open: char, close: char, i: int, d: nat)
    ensures
        fwd(s, open, close, i, d) matches Some(q) ==> i <= q < s.len(),
    decreases s.len() - i,
{
    if 0 <= i < s.len() {
        lemma_fwd_range(s, open, close, i + 1, inc(d));
        if d > 1 {
            lemma_fwd_range(s, open, close, i + 1, (d - 1) as nat);
        }
        lemma_fwd_range(s, open, close, i + 1, d);
    }
}

proof fn lemma_bwd_range(s: Seq<char>, open: char, close: char, i: int, d: nat)
    ensures
        bwd(s, open, close, i, d) matches Some(q) ==> 0 <= q <= i,
    decreases i + 1,
{
    if 0 <= i < s.len() {
        lemma_bwd_range(s, open, close, i - 1, inc(d));
        if d > 1 {
            lemma_bwd_range(s, open, close, i - 1, (d - 1) as nat);
        }
        lemma_bwd_range(s, open, close, i - 1, d);
    }
}

/// Forward scan over `chars` from `i` with one opener unmatched.
fn scan_forward(chars: &Vec<char>, open: char, close: char, i: usize) -> (r: Option<usize>)
    ensures
        r == (match fwd(chars@, open, close, i as int, 1) {
            Some(q) => Some(q as usize),
            None => None,
        }),
{
    let n = chars.len();
    let mut k = i;
    let mut depth: usize = 1;
    while k < n
        invariant
            i <= k,
            n == chars@.len(),
            fwd(chars@, open, close, i as int, 1) == fwd(chars@, open, close, k as int, depth as nat),
        decreases n - k,
    {
        let c = chars[k];
        if c == open {
            depth = depth.saturating_add(1);
        } else if c == close {
            if depth <= 1 {
                return Some(k);
            }
            depth = depth - 1;
        }
        k = k + 1;
    }
    None
}

/// Backward scan over `chars` from `i` with one closer unmatched.
fn scan_backward(chars: &Vec<char>, open: char, close: char, i: usize) -> (r: Option<usize>)
    requires
        i < chars@.len(),
    ensures
        r == (match bwd(chars@, open, close, i as int, 1) {
            Some(q) => Some(q as usize),
            None => None,
        }),
{
    let mut k = i;
    let mut depth: usize = 1;
    loop
        invariant
            k <= i < chars@.len(),
            bwd(chars@, open, close, i as int, 1) == bwd(chars@, open, close, k as int, depth as nat),
        decreases k,
    {
        let c = chars[k];
        if c == close {
            depth = depth.saturating_add(1);
        } else if c == open {
            if depth <= 1 {
                return Some(k);
            }
            depth = depth - 1;
        }
        if k == 0 {
            proof {
                assert(bwd(chars@, open, close, -1, depth as nat) is None);
            }
            return None;
        }
        k = k - 1;
    }
}

} // verus!
