//! Several cursors in one buffer, one of them primary.
use crate::selection::Selection;
use crate::text::{
    line_count, line_start, rope_insert, rope_len_chars, rope_len_lines, rope_line_to_char,
    rope_remove, rope_text,
};
use ropey::Rope;
use vstd::prelude::*;

verus! {

#[derive(Clone, Copy, Debug)]
pub struct Cursor {
    pub position: (usize, usize),
    pub selection: Option<Selection>,
    pub is_primary: bool,
}

impl Cursor {
    pub fn new(position: (usize, usize), is_primary: bool) -> (c: Cursor)
        ensures
            c == (Cursor { position, selection: None, is_primary }),
    {
        Cursor { position, selection: None, is_primary }
    }
}

/// Some cursor of `s` stands at `p`.
pub open spec fn has_position(s: Seq<Cursor>, p: (usize, usize)) -> bool {
    exists|k: int| 0 <= k < s.len() && (#[trigger] s[k]).position == p
}

/// The cursors of `s` that are flagged primary, in order.
pub open spec fn primaries(s: Seq<Cursor>) -> Seq<Cursor>
    decreases s.len(),
{
    if s.len() == 0 {
        Seq::empty()
    } else if s.last().is_primary {
        primaries(s.drop_last()).push(s.last())
    } else {
        primaries(s.drop_last())
    }
}

/// `s` with each position kept once, at its first cursor; the cursor kept
/// at `pp` is flagged primary.
pub open spec fn merged(s: Seq<Cursor>, pp: (usize, usize)) -> Seq<Cursor>
    decreases s.len(),
{
    if s.len() == 0 {
        Seq::empty()
    } else {
        let m = merged(s.drop_last(), pp);
        let c = s.last();
        if has_position(s.drop_last(), c.position) {
            m
        } else {
            m.push(Cursor { is_primary: c.is_primary || c.position == pp, ..c })
        }
    }
}

pub struct CursorManager {
    pub cursors: Vec<Cursor>,
    pub primary_index: usize,
}

proof fn lemma_merged_positions(s: Seq<Cursor>, pp: (usize, usize), p: (usize, usize))
    ensures
        has_position(merged(s, pp), p) == has_position(s, p),
    decreases s.len(),
{
    if s.len() > 0 {
        let t = s.drop_last();
        lemma_merged_positions(t, pp, p);
        let m = merged(t, pp);
        let mm = merged(s, pp);
        assert(forall|j: int| 0 <= j < m.len() ==> mm[j] == m[j]);
        assert(forall|j: int| 0 <= j < t.len() ==> s[j] == t[j]);
        if has_position(s, p) {
            let k = choose|k: int| 0 <= k < s.len() && (#[trigger] s[k]).position == p;
            if k < t.len() {
                assert(t[k].position == p);
                let j = choose|j: int| 0 <= j < m.len() && (#[trigger] m[j]).position == p;
                assert(mm[j].position == p);
            } else if has_position(t, s.last().position) {
                let j = choose|j: int| 0 <= j < t.len() && (#[trigger] t[j]).position == s.last().position;
                assert(t[j].position == p);
                let j2 = choose|j2: int| 0 <= j2 < m.len() && (#[trigger] m[j2]).position == p;
                assert(mm[j2].position == p);
            } else {
                assert(mm[mm.len() - 1].position == p);
            }
        }
        if has_position(mm, p) {
            let k = choose|k: int| 0 <= k < mm.len() && (#[trigger] mm[k]).position == p;
            if k < m.len() {
                assert(m[k].position == p);
                let j = choose|j: int| 0 <= j < t.len() && (#[trigger] t[j]).position == p;
                assert(s[j].position == p);
            } else {
                assert(s[s.len() - 1].position == p);
            }
        }
    }
}

proof fn lemma_merged_distinct(s: Seq<Cursor>, pp: (usize, usize))
    ensures
        forall|i: int, j: int|
            0 <= i < j < merged(s, pp).len() ==> (#[trigger] merged(s, pp)[i]).position != (#[trigger] merged(s, pp)[j]).position,
    decreases s.len(),
{
    if s.len() > 0 {
        let t = s.drop_last();
        lemma_merged_distinct(t, pp);
        lemma_merged_positions(t, pp, s.last().position);
        let m = merged(t, pp);
        let mm = merged(s, pp);
        assert forall|i: int, j: int| 0 <= i < j < mm.len() implies (#[trigger] mm[i]).position != (#[trigger] mm[j]).position by {
            if j < m.len() {
                assert(mm[i] == m[i] && mm[j] == m[j]);
            } else {
                assert(mm[i] == m[i]);
                if m[i].position == mm[j].position {
                    assert(has_position(m, s.last().position));
                }
            }
        }
    }
}

impl CursorManager {
    /// At least one cursor, and the primary index names one flagged
    /// primary.
    pub open spec fn wf(&self) -> bool {
        &&& self.cursors@.len() > 0
        &&& self.primary_index < self.cursors@.len()
        &&& self.cursors@[self.primary_index as int].is_primary
    }

    /// One primary cursor at the document's start.
    pub fn new() -> (m: CursorManager)
        ensures
            m.cursors@ == seq![Cursor { position: (0usize, 0usize), selection: None, is_primary: true }],
            m.primary_index == 0,
            m.wf(),
    {
        let mut cursors = Vec::new();
        cursors.push(Cursor::new((0, 0), true));
        proof {
            assert(cursors@ =~= seq![Cursor { position: (0usize, 0usize), selection: None, is_primary: true }]);
        }
        CursorManager { cursors, primary_index: 0 }
    }

    pub fn primary(&self) -> (c: &Cursor)
        requires
            self.wf(),
        ensures
            *c == self.cursors@[self.primary_index as int],
    {
        &self.cursors[self.primary_index]
    }

    pub fn primary_mut(&mut self) -> (c: &mut Cursor)
        requires
            old(self).wf(),
        ensures
            *c == old(self).cursors@[old(self).primary_index as int],
            final(self).cursors@ == old(self).cursors@.update(old(self).primary_index as int, *final(c)),
            final(self).primary_index == old(self).primary_index,
    {
        let i = self.primary_index;
        &mut self.cursors[i]
    }

    /// Adds a secondary cursor at `position` unless one stands there.
    pub fn add_cursor(&mut self, position: (usize, usize))
        requires
            old(self).wf(),
        ensures
            has_position(old(self).cursors@, position) ==> final(self).cursors@ == old(self).cursors@,
            !has_position(old(self).cursors@, position) ==> final(self).cursors@ == old(self).cursors@.push(
                Cursor { position, selection: None, is_primary: false },
            ),
            final(self).primary_index == old(self).primary_index,
            final(self).wf(),
    {
        let mut i: usize = 0;
        while i < self.cursors.len()
            invariant
                i <= self.cursors@.len(),
                old(self).wf(),
                self.cursors@ == old(self).cursors@,
                self.primary_index == old(self).primary_index,
                forall|k: int| 0 <= k < i ==> (#[trigger] self.cursors@[k]).position != position,
            decreases self.cursors@.len() - i,
        {
            if self.cursors[i].position.0 == position.0 && self.cursors[i].position.1 == position.1 {
                proof {
                    assert(self.cursors@[i as int].position == position);
                }
                return;
            }
            i = i + 1;
        }
        self.cursors.push(Cursor::new(position, false));
    }

    /// Removes the cursor at `index` unless it is the primary one or there
    /// is none; the primary keeps its index shifted with the others.
    pub fn remove_cursor(&mut self, index: usize)
        requires
            old(self).wf(),
        ensures
            index != old(self).primary_index && index < old(self).cursors@.len() ==> {
                &&& final(self).cursors@ == old(self).cursors@.remove(index as int)
                &&& final(self).primary_index == if index < old(self).primary_index {
                    (old(self).primary_index - 1) as usize
                } else {
                    old(self).primary_index
                }
            },
            !(index != old(self).primary_index && index < old(self).cursors@.len()) ==> *final(self) == *old(self),
            final(self).wf(),
    {
        if index != self.primary_index && index < self.cursors.len() {
            self.cursors.remove(index);
            if index < self.primary_index {
                self.primary_index = self.primary_index - 1;
            }
        }
    }

    /// Keeps only the cursors flagged primary.
    pub fn clear_secondary_cursors(&mut self)
        requires
            old(self).wf(),
        ensures
            final(self).cursors@ == primaries(old(self).cursors@),
            final(self).primary_index == 0,
            final(self).wf(),
    {
        let ghost s = self.cursors@;
        let mut kept: Vec<Cursor> = Vec::new();
        let mut i: usize = 0;
        while i < self.cursors.len()
            invariant
                i <= s.len(),
                self.cursors@ == s,
                kept@ == primaries(s.take(i as int)),
                forall|k: int| 0 <= k < kept@.len() ==> (#[trigger] kept@[k]).is_primary,
            decreases s.len() - i,
        {
            let c = self.cursors[i];
            proof {
                assert(s.take(i + 1).drop_last() =~= s.take(i as int));
            }
            if c.is_primary {
                kept.push(c);
            }
            i = i + 1;
        }
        proof {
            assert(s.take(s.len() as int) =~= s);
            lemma_primaries_has(s, self.primary_index as int);
        }
        self.cursors = kept;
        self.primary_index = 0;
    }

    /// Keeps one cursor per position, the first; the primary index follows
    /// the primary's position, whose kept cursor is flagged primary.
    pub fn merge_overlapping_cursors(&mut self)
        requires
            old(self).wf(),
        ensures
            ({
                let pp = old(self).cursors@[old(self).primary_index as int].position;
                &&& final(self).cursors@ == merged(old(self).cursors@, pp)
                &&& final(self).cursors@[final(self).primary_index as int].position == pp
                &&& forall|i: int, j: int|
                    0 <= i < j < final(self).cursors@.len() ==> (#[trigger] final(self).cursors@[i]).position
                        != (#[trigger] final(self).cursors@[j]).position
            }),
            final(self).wf(),
    {
        let ghost s = self.cursors@;
        let pp = self.cursors[self.primary_index].position;
        let mut out: Vec<Cursor> = Vec::new();
        let mut new_primary: usize = 0;
        let mut i: usize = 0;
        while i < self.cursors.len()
            invariant
                i <= s.len(),
                self.cursors@ == s,
                out@ == merged(s.take(i as int), pp),
                self.primary_index < s.len(),
                pp == s[self.primary_index as int].position,
                has_position(out@, pp) ==> new_primary < out@.len() && out@[new_primary as int].position == pp && out@[new_primary as int].is_primary,
                i > self.primary_index ==> has_position(out@, pp),
            decreases s.len() - i,
        {
            let c = self.cursors[i];
            proof {
                assert(s.take(i + 1).drop_last() =~= s.take(i as int));
                assert(s.take(i + 1).last() == c);
                lemma_merged_positions(s.take(i as int), pp, c.position);
            }
            let mut seen = false;
            let mut k: usize = 0;
            while k < out.len()
                invariant
                    k <= out@.len(),
                    seen == exists|j: int| 0 <= j < k && (#[trigger] out@[j]).position == c.position,
                decreases out@.len() - k,
            {
                if out[k].position.0 == c.position.0 && out[k].position.1 == c.position.1 {
                    seen = true;
                }
                k = k + 1;
            }
            if !seen {
                let is_pp = c.position.0 == pp.0 && c.position.1 == pp.1;
                if is_pp {
                    new_primary = out.len();
                }
                out.push(Cursor { is_primary: c.is_primary || is_pp, ..c });
                proof {
                    assert(out@[out@.len() - 1].position == c.position);
                    if has_position(out@.drop_last(), pp) {
                        let j = choose|j: int| 0 <= j < out@.drop_last().len() && (#[trigger] out@.drop_last()[j]).position == pp;
                        assert(out@[j].position == pp);
                    }
                }
            } else {
                proof {
                    let j = choose|j: int| 0 <= j < out@.len() && (#[trigger] out@[j]).position == c.position;
                    assert(out@[j].position == c.position);
                }
            }
            i = i + 1;
        }
        proof {
            assert(s.take(s.len() as int) =~= s);
            lemma_merged_distinct(s, pp);
        }
        self.cursors = out;
        self.primary_index = new_primary;
    }

    /// Makes the cursor at `index` the primary one, when there is one.
    pub fn set_primary(&mut self, index: usize)
        requires
            old(self).wf(),
        ensures
            index < old(self).cursors@.len() ==> {
                &&& final(self).primary_index == index
                &&& final(self).cursors@ == old(self).cursors@.update(
                    old(self).primary_index as int,
                    Cursor { is_primary: false, ..old(self).cursors@[old(self).primary_index as int] },
                ).update(index as int, Cursor { is_primary: true, ..old(self).cursors@[index as int] })
            },
            index >= old(self).cursors@.len() ==> *final(self) == *old(self),
            final(self).wf(),
    {
        if index < self.cursors.len() {
            let mut old_primary = self.cursors[self.primary_index];
            old_primary.is_primary = false;
            self.cursors.set(self.primary_index, old_primary);
            self.primary_index = index;
            let mut new_primary = self.cursors[index];
            new_primary.is_primary = true;
            self.cursors.set(index, new_primary);
        }
    }

    pub fn cursor_count(&self) -> (n: usize)
        ensures
            n == self.cursors@.len(),
    {
        self.cursors.len()
    }

    pub fn has_multiple_cursors(&self) -> (r: bool)
        ensures
            r == (self.cursors@.len() > 1),
    {
        self.cursors.len() > 1
    }
}

proof fn lemma_primaries_has(s: Seq<Cursor>, p: int)
    requires
        0 <= p < s.len(),
        s[p].is_primary,
    ensures
        primaries(s).len() > 0,
        forall|k: int| 0 <= k < primaries(s).len() ==> (#[trigger] primaries(s)[k]).is_primary,
    decreases s.len(),
{
    let t = s.drop_last();
    if p < s.len() - 1 {
        lemma_primaries_has(t, p);
    } else if s.len() > 1 {
        lemma_primaries_flags(t);
    }
    lemma_primaries_flags(s);
}

proof fn lemma_primaries_flags(s: Seq<Cursor>)
    ensures
        forall|k: int| 0 <= k < primaries(s).len() ==> (#[trigger] primaries(s)[k]).is_primary,
    decreases s.len(),
{
    if s.len() > 0 {
        lemma_primaries_flags(s.drop_last());
    }
}

/// Cursor `a`'s position comes after cursor `b`'s.
pub open spec fn pos_after(a: Cursor, b: Cursor) -> bool {
    a.position.0 > b.position.0 || (a.position.0 == b.position.0 && a.position.1 > b.position.1)
}

/// Where index `i` goes in `order`: before the first index whose cursor
/// stands before cursor `i`.
pub open spec fn insert_place(s: Seq<Cursor>, order: Seq<usize>, i: usize, k: int) -> int
    decreases order.len() - k,
{
    if k < 0 || k >= order.len() {
        order.len() as int
    } else if pos_after(s[i as int], s[order[k] as int]) {
        k
    } else {
        insert_place(s, order, i, k + 1)
    }
}

/// Indices of the first `n` cursors, last position first; cursors at one
/// position keep their order.
pub open spec fn order_desc(s: Seq<Cursor>, n: nat) -> Seq<usize>
    decreases n,
{
    if n == 0 {
        Seq::empty()
    } else {
        let o = order_desc(s, (n - 1) as nat);
        o.insert(insert_place(s, o, (n - 1) as usize, 0), (n - 1) as usize)
    }
}

/// Text and cursors after backspace at cursor `idx`, standing at `pos`.
pub open spec fn backspace_at(t: Seq<char>, c: Seq<Cursor>, idx: usize, pos: (usize, usize)) -> (Seq<char>, Seq<Cursor>) {
    let (row, col) = pos;
    if col > 0 {
        if row <= line_count(t) && line_start(t, row as nat) + col - 1 < t.len() {
            let at = line_start(t, row as nat) + col - 1;
            (t.take(at) + t.skip(at + 1), c.update(idx as int, Cursor { position: (row, (col - 1) as usize), ..c[idx as int] }))
        } else {
            (t, c)
        }
    } else if row > 0 && row <= line_count(t) && line_start(t, row as nat) > 0 && line_start(t, row as nat) - 1 < t.len() {
        let at = line_start(t, row as nat) - 1;
        let prev = line_start(t, row as nat) - line_start(t, (row - 1) as nat);
        let prev_col = if prev > 0 { prev - 1 } else { 0 };
        (t.take(at) + t.skip(at + 1), c.update(idx as int, Cursor { position: ((row - 1) as usize, prev_col as usize), ..c[idx as int] }))
    } else {
        (t, c)
    }
}

/// Backspace at each cursor of `order` in turn, at the positions of `snap`.
pub open spec fn backspace_all(t: Seq<char>, c: Seq<Cursor>, order: Seq<usize>, snap: Seq<Cursor>) -> (Seq<char>, Seq<Cursor>)
    decreases order.len(),
{
    if order.len() == 0 {
        (t, c)
    } else {
        let r = backspace_all(t, c, order.drop_last(), snap);
        backspace_at(r.0, r.1, order.last(), snap[order.last() as int].position)
    }
}

proof fn lemma_insert_place(s: Seq<Cursor>, order: Seq<usize>, i: usize, k: int)
    requires
        0 <= k <= order.len(),
    ensures
        k <= insert_place(s, order, i, k) <= order.len(),
    decreases order.len() - k,
{
    if k < order.len() && !pos_after(s[i as int], s[order[k] as int]) {
        lemma_insert_place(s, order, i, k + 1);
    }
}

proof fn lemma_order_desc(s: Seq<Cursor>, n: nat)
    ensures
        order_desc(s, n).len() == n,
        forall|k: int| 0 <= k < n ==> (#[trigger] order_desc(s, n)[k]) < n,
    decreases n,
{
    if n > 0 {
        let o = order_desc(s, (n - 1) as nat);
        lemma_order_desc(s, (n - 1) as nat);
        lemma_insert_place(s, o, (n - 1) as usize, 0);
        let p = insert_place(s, o, (n - 1) as usize, 0);
        assert forall|k: int| 0 <= k < n implies (#[trigger] order_desc(s, n)[k]) < n by {
            if k < p {
                assert(order_desc(s, n)[k] == o[k]);
            } else if k > p {
                assert(order_desc(s, n)[k] == o[k - 1]);
            }
        }
    }
}

/// Indices of the cursors, last position first.
fn sorted_desc(cursors: &Vec<Cursor>) -> (order: Vec<usize>)
    ensures
        order@ == order_desc(cursors@, cursors@.len()),
{
    let n = cursors.len();
    let mut order: Vec<usize> = Vec::new();
    let mut i: usize = 0;
    while i < n
        invariant
            i <= n,
            n == cursors@.len(),
            order@ == order_desc(cursors@, i as nat),
        decreases n - i,
    {
        proof {
            lemma_order_desc(cursors@, i as nat);
        }
        let ci = cursors[i];
        let mut k: usize = 0;
        while k < order.len()
            invariant
                k <= order@.len(),
                i < n,
                n == cursors@.len(),
                ci == cursors@[i as int],
                order@ == order_desc(cursors@, i as nat),
                order@.len() == i,
                forall|m: int| 0 <= m < i ==> (#[trigger] order@[m]) < i,
                insert_place(cursors@, order@, i, k as int) == insert_place(cursors@, order@, i, 0),
            ensures
                k as int == insert_place(cursors@, order@, i, 0),
            decreases order@.len() - k,
        {
            let co = cursors[order[k]];
            if ci.position.0 > co.position.0 || (ci.position.0 == co.position.0 && ci.position.1 > co.position.1) {
                break;
            }
            k = k + 1;
        }
        proof {
            assert(order@.insert(k as int, i) == order_desc(cursors@, (i + 1) as nat));
        }
        order.insert(k, i);
        i = i + 1;
    }
    order
}

impl CursorManager {
    /// Backspace at every cursor of `content`, last position first: a
    /// character before the cursor is removed, or at column 0 the line is
    /// joined to the one above. Each cursor steps back; the others keep
    /// their positions.
    pub fn delete_at_all_cursors(&mut self, content: &mut Rope)
        ensures
            ({
                let order = order_desc(old(self).cursors@, old(self).cursors@.len());
                let r = backspace_all(rope_text(*old(content)), old(self).cursors@, order, old(self).cursors@);
                &&& rope_text(*final(content)) == r.0
                &&& final(self).cursors@ == r.1
            }),
            final(self).primary_index == old(self).primary_index,
    {
        let snap = self.cursors.clone();
        proof {
            assert(snap@ == self.cursors@);
        }
        let order = sorted_desc(&self.cursors);
        proof {
            lemma_order_desc(self.cursors@, self.cursors@.len());
        }
        let ghost t0 = rope_text(*content);
        let ghost c0 = self.cursors@;
        let mut k: usize = 0;
        while k < order.len()
            invariant
                k <= order@.len(),
                snap@ == c0,
                c0 == old(self).cursors@,
                t0 == rope_text(*old(content)),
                order@ == order_desc(c0, c0.len()),
                order@.len() == c0.len(),
                forall|m: int| 0 <= m < order@.len() ==> (#[trigger] order@[m]) < c0.len(),
                self.cursors@.len() == c0.len(),
                (rope_text(*content), self.cursors@) == backspace_all(t0, c0, order@.take(k as int), c0),
                self.primary_index == old(self).primary_index,
            decreases order@.len() - k,
        {
            let idx = order[k];
            let (row, col) = snap[idx].position;
            let ghost t = rope_text(*content);
            proof {
                assert(order@.take(k + 1).drop_last() =~= order@.take(k as int));
                assert(order@.take(k + 1).last() == idx);
            }
            let count = rope_len_lines(content);
            let len = rope_len_chars(content);
            if col > 0 {
                if row <= count {
                    let ls = rope_line_to_char(content, row);
                    proof {
                        lemma_line_start_bound(t, row as nat);
                    }
                    if col - 1 < len - ls {
                        let at = ls + col - 1;
                        rope_remove(content, at, at + 1);
                        let mut c = self.cursors[idx];
                        c.position = (row, col - 1);
                        self.cursors.set(idx, c);
                    }
                }
            } else if row > 0 && row <= count {
                let ls = rope_line_to_char(content, row);
                let prev_start = rope_line_to_char(content, row - 1);
                proof {
                    lemma_line_start_bound(t, row as nat);
                    lemma_line_start_bound(t, (row - 1) as nat);
                    lemma_line_start_mono_any(t, (row - 1) as nat);
                }
                if ls > 0 && ls - 1 < len {
                    let prev = ls - prev_start;
                    let prev_col = if prev > 0 { prev - 1 } else { 0 };
                    rope_remove(content, ls - 1, ls);
                    let mut c = self.cursors[idx];
                    c.position = (row - 1, prev_col);
                    self.cursors.set(idx, c);
                }
            }
            k = k + 1;
        }
        proof {
            assert(order@.take(order@.len() as int) =~= order@);
        }
    }
}

/// A line start never passes the end.
proof fn lemma_line_start_bound(s: Seq<char>, row: nat)
    ensures
        line_start(s, row) <= s.len(),
    decreases s.len(),
{
    if row > 0 && s.len() > 0 {
        if s[0] == '\n' {
            lemma_line_start_bound(s.drop_first(), (row - 1) as nat);
        } else {
            lemma_line_start_bound(s.drop_first(), row);
        }
    }
}

/// Line starts never decrease from one row to the next, past the last
/// line too.
proof fn lemma_line_start_mono_any(s: Seq<char>, row: nat)
    ensures
        line_start(s, row) <= line_start(s, row + 1),
    decreases s.len(),
{
    if s.len() > 0 {
        if s[0] == '\n' {
            if row > 0 {
                lemma_line_start_mono_any(s.drop_first(), (row - 1) as nat);
            }
        } else {
            lemma_line_start_mono_any(s.drop_first(), row);
        }
    }
}

/// The lines of `s` as `str::lines` gives them.
pub uninterp spec fn line_pieces(s: Seq<char>) -> Seq<Seq<char>>;

/// Relies on `str::lines`: the lines of `text`, split at `\n` or `\r\n`,
/// without their endings, the last ending optional.
#[verifier::external_body]
fn lines_of(text: &str) -> (v: Vec<Vec<char>>)
    ensures
        v@.map_values(|l: Vec<char>| l@) == line_pieces(text@),
{
    text.lines().map(|l| l.chars().collect()).collect()
}

/// `a + b`, or `usize::MAX` when that does not fit.
pub open spec fn sat(a: int, b: int) -> usize {
    if a + b <= usize::MAX {
        (a + b) as usize
    } else {
        usize::MAX
    }
}

/// Where another cursor at `p` goes when `n` characters holding `added`
/// line breaks are typed at `(row, col)`.
pub open spec fn shifted(p: (usize, usize), row: usize, col: usize, n: nat, added: nat) -> (usize, usize) {
    if p.0 == row && p.1 > col {
        if added > 0 {
            (sat(p.0 as int, added as int), p.1)
        } else {
            (p.0, sat(p.1 as int, n as int))
        }
    } else if p.0 > row && added > 0 {
        (sat(p.0 as int, added as int), p.1)
    } else {
        p
    }
}

/// Where the cursor that typed `text` at `(row, col)` goes.
pub open spec fn typed_end(c: Cursor, row: usize, text: Seq<char>, pieces: Seq<Seq<char>>) -> (usize, usize) {
    if pieces.len() > 1 {
        (sat(row as int, pieces.len() - 1), pieces.last().len() as usize)
    } else {
        (c.position.0, sat(c.position.1 as int, text.len() as int))
    }
}

/// Text and cursors after typing `text` at cursor `idx`, standing at `pos`;
/// `pieces` are the lines of `text`, `added` the line breaks it adds.
pub open spec fn type_at(t: Seq<char>, c: Seq<Cursor>, idx: usize, pos: (usize, usize), text: Seq<char>, pieces: Seq<Seq<char>>, added: nat) -> (Seq<char>, Seq<Cursor>) {
    let (row, col) = pos;
    if row <= line_count(t) && line_start(t, row as nat) + col <= t.len() {
        let at = line_start(t, row as nat) + col;
        (
            t.take(at) + text + t.skip(at),
            Seq::new(c.len(), |i: int| if i == idx {
                Cursor { position: typed_end(c[i], row, text, pieces), ..c[i] }
            } else {
                Cursor { position: shifted(c[i].position, row, col, text.len(), added), ..c[i] }
            }),
        )
    } else {
        (t, c)
    }
}

/// Typing at each cursor of `order` in turn, at the positions of `snap`.
pub open spec fn type_all(t: Seq<char>, c: Seq<Cursor>, order: Seq<usize>, snap: Seq<Cursor>, text: Seq<char>, pieces: Seq<Seq<char>>, added: nat) -> (Seq<char>, Seq<Cursor>)
    decreases order.len(),
{
    if order.len() == 0 {
        (t, c)
    } else {
        let r = type_all(t, c, order.drop_last(), snap, text, pieces, added);
        type_at(r.0, r.1, order.last(), snap[order.last() as int].position, text, pieces, added)
    }
}

/// The line breaks `text` adds: one less than its lines when it holds a
/// break.
pub open spec fn added_lines(text: Seq<char>, pieces: Seq<Seq<char>>) -> nat {
    if text.contains('\n') && pieces.len() > 0 {
        (pieces.len() - 1) as nat
    } else {
        0
    }
}

fn sat_add_exec(a: usize, b: usize) -> (r: usize)
    ensures
        r == sat(a as int, b as int),
{
    if a > usize::MAX - b {
        usize::MAX
    } else {
        a + b
    }
}

fn shift_pos(p: (usize, usize), row: usize, col: usize, n: usize, added: usize) -> (q: (usize, usize))
    ensures
        q == shifted(p, row, col, n as nat, added as nat),
{
    if p.0 == row && p.1 > col {
        if added > 0 {
            (sat_add_exec(p.0, added), p.1)
        } else {
            (p.0, sat_add_exec(p.1, n))
        }
    } else if p.0 > row && added > 0 {
        (sat_add_exec(p.0, added), p.1)
    } else {
        p
    }
}

impl CursorManager {
    /// Inserts `text` at every cursor of `content`, last position first.
    /// Each cursor moves past its text; the cursors after it on its line,
    /// or on later lines, move with the text. Returns the positions typed
    /// at, in that order. A cursor that names no position of the text is
    /// passed over.
    pub fn insert_at_all_cursors(&mut self, content: &mut Rope, text: &str) -> (r: Vec<(usize, usize)>)
        ensures
            ({
                let order = order_desc(old(self).cursors@, old(self).cursors@.len());
                let pieces = line_pieces(text@);
                let res = type_all(rope_text(*old(content)), old(self).cursors@, order, old(self).cursors@, text@, pieces, added_lines(text@, pieces));
                &&& rope_text(*final(content)) == res.0
                &&& final(self).cursors@ == res.1
                &&& r@ == order.map_values(|i: usize| old(self).cursors@[i as int].position)
            }),
            final(self).primary_index == old(self).primary_index,
    {
        let snap = self.cursors.clone();
        proof {
            assert(snap@ == self.cursors@);
        }
        let order = sorted_desc(&self.cursors);
        proof {
            lemma_order_desc(self.cursors@, self.cursors@.len());
        }
        let pieces = lines_of(text);
        let ghost pv = pieces@.map_values(|l: Vec<char>| l@);
        let chars = crate::text::chars_of(text);
        let n = chars.len();
        let mut has_break = false;
        let mut q: usize = 0;
        while q < n
            invariant
                q <= n,
                n == chars@.len(),
                chars@ == text@,
                has_break == exists|j: int| 0 <= j < q && chars@[j] == '\n',
            decreases n - q,
        {
            if chars[q] == '\n' {
                has_break = true;
                proof {
                    assert(chars@[q as int] == '\n');
                }
            }
            q = q + 1;
        }
        proof {
            if has_break {
                let j = choose|j: int| 0 <= j < n && chars@[j] == '\n';
                assert(text@[j] == '\n');
            }
            if text@.contains('\n') {
                let j = choose|j: int| 0 <= j < text@.len() && text@[j] == '\n';
                assert(chars@[j] == '\n');
            }
        }
        let added = if has_break && pieces.len() > 0 { pieces.len() - 1 } else { 0 };
        let last_len = if pieces.len() > 0 { pieces[pieces.len() - 1].len() } else { 0 };
        proof {
            if pieces@.len() > 0 {
                assert(pv.last() == pieces@[pieces@.len() - 1]@);
            }
        }
        let ghost t0 = rope_text(*content);
        let ghost c0 = self.cursors@;
        let mut out: Vec<(usize, usize)> = Vec::new();
        let mut k: usize = 0;
        while k < order.len()
            invariant
                k <= order@.len(),
                snap@ == c0,
                c0 == old(self).cursors@,
                t0 == rope_text(*old(content)),
                pv == line_pieces(text@),
                pv.len() == pieces@.len(),
                pv.len() > 0 ==> last_len == pv.last().len(),
                added == added_lines(text@, pv),
                n == text@.len(),
                order@ == order_desc(c0, c0.len()),
                order@.len() == c0.len(),
                forall|m: int| 0 <= m < order@.len() ==> (#[trigger] order@[m]) < c0.len(),
                self.cursors@.len() == c0.len(),
                (rope_text(*content), self.cursors@) == type_all(t0, c0, order@.take(k as int), c0, text@, pv, added as nat),
                out@ == order@.take(k as int).map_values(|i: usize| c0[i as int].position),
                self.primary_index == old(self).primary_index,
            decreases order@.len() - k,
        {
            let idx = order[k];
            let (row, col) = snap[idx].position;
            let ghost t = rope_text(*content);
            let ghost cs = self.cursors@;
            proof {
                assert(order@.take(k + 1).drop_last() =~= order@.take(k as int));
                assert(order@.take(k + 1).last() == idx);
                assert(order@.take(k + 1).map_values(|i: usize| c0[i as int].position) =~= out@.push((row, col)));
            }
            let count = rope_len_lines(content);
            let len = rope_len_chars(content);
            if row <= count {
                let ls = rope_line_to_char(content, row);
                proof {
                    lemma_line_start_bound(t, row as nat);
                }
                if col <= len - ls {
                    let at = ls + col;
                    rope_insert(content, at, text);
                    let mut i: usize = 0;
                    while i < self.cursors.len()
                        invariant
                            i <= self.cursors@.len(),
                            self.cursors@.len() == cs.len(),
                            idx < cs.len(),
                            forall|m: int| 0 <= m < i ==> (#[trigger] self.cursors@[m]) == (if m == idx {
                                Cursor { position: typed_end(cs[m], row, text@, pv), ..cs[m] }
                            } else {
                                Cursor { position: shifted(cs[m].position, row, col, text@.len(), added as nat), ..cs[m] }
                            }),
                            forall|m: int| i <= m < cs.len() ==> (#[trigger] self.cursors@[m]) == cs[m],
                            pv.len() == pieces@.len(),
                            pv.len() > 0 ==> last_len == pv.last().len(),
                            n == text@.len(),
                            self.primary_index == old(self).primary_index,
                        decreases cs.len() - i,
                    {
                        let mut c = self.cursors[i];
                        if i == idx {
                            c.position = if pieces.len() > 1 {
                                (sat_add_exec(row, pieces.len() - 1), last_len)
                            } else {
                                (c.position.0, sat_add_exec(c.position.1, n))
                            };
                        } else {
                            c.position = shift_pos(c.position, row, col, n, added);
                        }
                        self.cursors.set(i, c);
                        i = i + 1;
                    }
                    proof {
                        assert(self.cursors@ =~= type_at(t, cs, idx, (row, col), text@, pv, added as nat).1);
                    }
                }
            }
            out.push((row, col));
            k = k + 1;
        }
        proof {
            assert(order@.take(order@.len() as int) =~= order@);
        }
        out
    }
}

} // verus!
