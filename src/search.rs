//! Finding a query in the lines of a buffer, and replacing it.
use crate::buffer::{advance, TextBuffer};
use crate::comment::{lower_of, to_lower};
use crate::indent::sat_add;
use crate::text::{
    chars_of, lemma_pos_bounds, lemma_pos_prefix, line_count, line_start, line_text, pos_valid,
    rope_len_chars, rope_len_lines, rope_remove,
};
use vstd::prelude::*;

verus! {

/// `q` occurs in `line` at index `i`.
pub open spec fn occurs_at(line: Seq<char>, q: Seq<char>, i: int) -> bool {
    0 <= i && i + q.len() <= line.len() && line.subrange(i, i + q.len()) == q
}

/// The first index at or after `i` where `q` occurs in `line`.
pub open spec fn first_occ(line: Seq<char>, q: Seq<char>, i: int) -> Option<int>
    decreases line.len() - i,
{
    if i < 0 || i + q.len() > line.len() {
        None
    } else if occurs_at(line, q, i) {
        Some(i)
    } else if i >= line.len() {
        None
    } else {
        first_occ(line, q, i + 1)
    }
}

/// The first occurrence of `q` at or after `(row, col)`, reading the lines
/// in order.
pub open spec fn find_forward(lines: Seq<Seq<char>>, q: Seq<char>, row: int, col: int) -> Option<
    (usize, usize),
>
    decreases lines.len() - row,
{
    if row < 0 || row >= lines.len() {
        None
    } else {
        match first_occ(lines[row], q, col) {
            Some(k) => Some((row as usize, k as usize)),
            None => find_forward(lines, q, row + 1, 0),
        }
    }
}

/// Cyclic search from `(row, col)` included: on to the end, then from the
/// start. None for an empty query.
pub open spec fn find_from(lines: Seq<Seq<char>>, q: Seq<char>, row: int, col: int) -> Option<
    (usize, usize),
> {
    if q.len() == 0 {
        None
    } else {
        match find_forward(lines, q, row, col) {
            Some(p) => Some(p),
            None => find_forward(lines, q, 0, 0),
        }
    }
}

/// The non-overlapping occurrences of `q` in `line` from index `i`, each
/// as `(row, start, start + n)`.
pub open spec fn line_matches(line: Seq<char>, q: Seq<char>, row: usize, n: nat, i: int) -> Seq<
    (usize, usize, usize),
>
    decreases line.len() - i,
{
    if q.len() == 0 || i < 0 {
        Seq::empty()
    } else {
        match first_occ(line, q, i) {
            None => Seq::empty(),
            Some(k) => if k < i || k + q.len() > line.len() {
                Seq::empty()
            } else {
                seq![(row, k as usize, sat_add(k as usize, n))] + line_matches(line, q, row, n, k + q.len())
            },
        }
    }
}

/// The occurrences of `q` in the lines from `row` on, in order.
pub open spec fn all_matches(lines: Seq<Seq<char>>, q: Seq<char>, n: nat, row: int) -> Seq<
    (usize, usize, usize),
>
    decreases lines.len() - row,
{
    if row < 0 || row >= lines.len() {
        Seq::empty()
    } else {
        line_matches(lines[row], q, row as usize, n, 0) + all_matches(lines, q, n, row + 1)
    }
}

/// The lines as searched: as they are, or lowercased.
pub open spec fn search_lines(s: Seq<char>, case_sensitive: bool) -> Seq<Seq<char>> {
    Seq::new(
        line_count(s),
        |r: int|
            if case_sensitive {
                line_text(s, r as nat)
            } else {
                lower_of(line_text(s, r as nat))
            },
    )
}

pub open spec fn search_query(q: Seq<char>, case_sensitive: bool) -> Seq<char> {
    if case_sensitive {
        q
    } else {
        lower_of(q)
    }
}

pub open spec fn views(v: Seq<Vec<char>>) -> Seq<Seq<char>> {
    v.map_values(|l: Vec<char>| l@)
}

proof fn lemma_first_occ_bound(line: Seq<char>, q: Seq<char>, i: int)
    ensures
        first_occ(line, q, i) matches Some(k) ==> i <= k && occurs_at(line, q, k),
    decreases line.len() - i,
{
    if !(i < 0 || i + q.len() > line.len()) && !occurs_at(line, q, i) && i < line.len() {
        lemma_first_occ_bound(line, q, i + 1);
    }
}

fn occurs(line: &Vec<char>, q: &Vec<char>, i: usize) -> (r: bool)
    requires
        i + q@.len() <= line@.len(),
    ensures
        r == occurs_at(line@, q@, i as int),
{
    let n = line.len();
    let mut j: usize = 0;
    while j < q.len()
        invariant
            n == line@.len(),
            j <= q@.len(),
            i + q@.len() <= line@.len(),
            forall|k: int| 0 <= k < j ==> line@[i + k] == q@[k],
        decreases q@.len() - j,
    {
        if line[i + j] != q[j] {
            proof {
                assert(line@.subrange(i as int, i + q@.len())[j as int] != q@[j as int]);
            }
            return false;
        }
        j = j + 1;
    }
    proof {
        assert(line@.subrange(i as int, i + q@.len()) =~= q@);
    }
    true
}

/// The first index at or after `from` where `q` occurs in `line`.
pub fn first_occurrence(line: &Vec<char>, q: &Vec<char>, from: usize) -> (r: Option<usize>)
    ensures
        r == (match first_occ(line@, q@, from as int) {
            Some(k) => Some(k as usize),
            None => None,
        }),
{
    let n = line.len();
    let m = q.len();
    if m > n || from > n - m {
        return None;
    }
    let mut i = from;
    loop
        invariant
            from <= i <= n - m,
            m == q@.len(),
            n == line@.len(),
            m <= n,
            first_occ(line@, q@, from as int) == first_occ(line@, q@, i as int),
        decreases n - i,
    {
        if occurs(line, q, i) {
            return Some(i);
        }
        if i == n - m {
            proof {
                assert(first_occ(line@, q@, i + 1) is None);
            }
            return None;
        }
        i = i + 1;
    }
}

/// The first occurrence of `q` at or after `(row, col)`.
fn forward(lines: &Vec<Vec<char>>, q: &Vec<char>, row: usize, col: usize) -> (r: Option<(usize, usize)>)
    ensures
        r == find_forward(views(lines@), q@, row as int, col as int),
{
    let mut r = row;
    let mut c = col;
    while r < lines.len()
        invariant
            row <= r,
            find_forward(views(lines@), q@, row as int, col as int) == find_forward(views(lines@), q@, r as int, c as int),
        decreases lines@.len() - r,
    {
        proof {
            assert(views(lines@)[r as int] == lines@[r as int]@);
        }
        match first_occurrence(&lines[r], q, c) {
            Some(k) => {
                return Some((r, k));
            },
            None => {},
        }
        r = r + 1;
        c = 0;
    }
    None
}

/// Cyclic search over lines that are already as searched.
pub fn find_from_in_lines(lines: &Vec<Vec<char>>, q: &Vec<char>, row: usize, col: usize) -> (r: Option<(usize, usize)>)
    ensures
        r == find_from(views(lines@), q@, row as int, col as int),
{
    if q.len() == 0 {
        return None;
    }
    match forward(lines, q, row, col) {
        Some(p) => Some(p),
        None => forward(lines, q, 0, 0),
    }
}

/// The next occurrence after `from` in lines that are already as
/// searched, wrapping around to `from` itself.
pub fn find_next_in_lines(lines: &Vec<Vec<char>>, q: &Vec<char>, from: (usize, usize)) -> (r: Option<(usize, usize)>)
    ensures
        r == find_from(views(lines@), q@, from.0 as int, from.1 + 1),
{
    if from.1 < usize::MAX {
        find_from_in_lines(lines, q, from.0, from.1 + 1)
    } else {
        if from.0 < lines.len() {
            let _ = lines[from.0].len();
        }
        proof {
            if q@.len() > 0 && 0 <= from.0 < lines@.len() {
                assert(views(lines@)[from.0 as int] == lines@[from.0 as int]@);
                assert(first_occ(views(lines@)[from.0 as int], q@, from.1 + 1) is None);
                assert(first_occ(views(lines@)[from.0 as int], q@, from.1 as int) is None);
            }
        }
        find_from_in_lines(lines, q, from.0, from.1)
    }
}

/// Every non-overlapping occurrence of `q` in lines that are already as
/// searched, as `(row, start, start + match_len)`.
pub fn find_all_in_lines(lines: &Vec<Vec<char>>, q: &Vec<char>, match_len: usize) -> (r: Vec<(usize, usize, usize)>)
    ensures
        r@ == all_matches(views(lines@), q@, match_len as nat, 0),
{
    let mut out: Vec<(usize, usize, usize)> = Vec::new();
    if q.len() == 0 {
        proof {
            lemma_all_matches_empty(views(lines@), q@, match_len as nat, 0);
        }
        return out;
    }
    let mut r: usize = 0;
    while r < lines.len()
        invariant
            r <= lines@.len(),
            q@.len() > 0,
            out@ + all_matches(views(lines@), q@, match_len as nat, r as int) == all_matches(views(lines@), q@, match_len as nat, 0),
        decreases lines@.len() - r,
    {
        let line = &lines[r];
        proof {
            assert(views(lines@)[r as int] == line@);
        }
        let ghost before = out@;
        let ln = line.len();
        let mut i: usize = 0;
        loop
            invariant
                ln == line@.len(),
                i <= line@.len(),
                q@.len() > 0,
                r < lines@.len(),
                views(lines@)[r as int] == line@,
                out@ + line_matches(line@, q@, r, match_len as nat, i as int) == before + line_matches(line@, q@, r, match_len as nat, 0),
            ensures
                out@ == before + line_matches(line@, q@, r, match_len as nat, 0),
            decreases line@.len() - i,
        {
            proof {
                lemma_first_occ_bound(line@, q@, i as int);
            }
            match first_occurrence(line, q, i) {
                Some(k) => {
                    proof {
                        let sk = first_occ(line@, q@, i as int)->Some_0;
                        assert(sk == k as int);
                    }
                    let ghost rest = line_matches(line@, q@, r, match_len as nat, (k + q@.len()) as int);
                    out.push((r, k, k.saturating_add(match_len)));
                    proof {
                        assert(line_matches(line@, q@, r, match_len as nat, i as int) == seq![(r, k, sat_add(k, match_len as nat))] + rest);
                        assert(out@ + rest =~= before + line_matches(line@, q@, r, match_len as nat, 0)) by {
                            assert(out@ =~= out@.drop_last().push((r, k, sat_add(k, match_len as nat))));
                        }
                    }
                    i = k + q.len();
                },
                None => {
                    proof {
                        assert(out@ + Seq::empty() =~= out@);
                    }
                    break;
                },
            }
        }
        proof {
            assert(out@ =~= before + line_matches(line@, q@, r, match_len as nat, 0));
            assert(all_matches(views(lines@), q@, match_len as nat, r as int) == line_matches(line@, q@, r, match_len as nat, 0) + all_matches(views(lines@), q@, match_len as nat, r + 1));
            assert(before + all_matches(views(lines@), q@, match_len as nat, r as int) =~= out@ + all_matches(views(lines@), q@, match_len as nat, r + 1));
        }
        r = r + 1;
    }
    proof {
        assert(out@ + Seq::empty() =~= out@);
    }
    out
}

proof fn lemma_all_matches_empty(lines: Seq<Seq<char>>, q: Seq<char>, n: nat, row: int)
    requires
        q.len() == 0,
    ensures
        all_matches(lines, q, n, row) == Seq::<(usize, usize, usize)>::empty(),
    decreases lines.len() - row,
{
    if 0 <= row < lines.len() {
        lemma_all_matches_empty(lines, q, n, row + 1);
        assert(line_matches(lines[row], q, row as usize, n, 0) + Seq::<(usize, usize, usize)>::empty() =~= Seq::<(usize, usize, usize)>::empty());
    }
}

impl TextBuffer {
    /// The buffer's lines as searched: as they are, or lowercased.
    fn lines_for_search(&self, case_sensitive: bool) -> (v: Vec<Vec<char>>)
        ensures
            views(v@) == search_lines(self.text(), case_sensitive),
    {
        let count = rope_len_lines(&self.content);
        let mut v: Vec<Vec<char>> = Vec::new();
        let mut r: usize = 0;
        while r < count
            invariant
                r <= count,
                count == line_count(self.text()),
                v@.len() == r,
                forall|i: int| 0 <= i < r ==> (#[trigger] v@[i])@ == search_lines(self.text(), case_sensitive)[i],
            decreases count - r,
        {
            let chars = if case_sensitive {
                self.line_chars(r)
            } else {
                let line = self.get_line(r);
                let lower = to_lower(line.as_str());
                chars_of(lower.as_str())
            };
            v.push(chars);
            r = r + 1;
        }
        proof {
            assert(views(v@) =~= search_lines(self.text(), case_sensitive));
        }
        v
    }

    /// Every non-overlapping occurrence of `query`, row by row, as
    /// `(row, start column, start column + query length)`; none for an
    /// empty query. Without `case_sensitive`, lines and query are compared
    /// lowercased.
    pub fn find_all_matches(&self, query: &str, case_sensitive: bool) -> (r: Vec<(usize, usize, usize)>)
        ensures
            query@.len() == 0 ==> r@.len() == 0,
            query@.len() > 0 ==> r@ == all_matches(
                search_lines(self.text(), case_sensitive),
                search_query(query@, case_sensitive),
                query@.len(),
                0,
            ),
    {
        let q = chars_of(query);
        let qlen = q.len();
        if qlen == 0 {
            return Vec::new();
        }
        let sq = if case_sensitive {
            q
        } else {
            let lower = to_lower(query);
            chars_of(lower.as_str())
        };
        let lines = self.lines_for_search(case_sensitive);
        find_all_in_lines(&lines, &sq, qlen)
    }

    /// The next occurrence of `query` after `from_position`: on to the end
    /// of the document, then from its start back to `from_position` itself.
    /// None for an empty query or when there is none.
    pub fn find_next(&self, query: &str, from_position: (usize, usize), case_sensitive: bool) -> (r: Option<(usize, usize)>)
        ensures
            query@.len() == 0 ==> r.is_none(),
            query@.len() > 0 ==> r == find_from(
                search_lines(self.text(), case_sensitive),
                search_query(query@, case_sensitive),
                from_position.0 as int,
                from_position.1 + 1,
            ),
    {
        let q = chars_of(query);
        if q.len() == 0 {
            return None;
        }
        let sq = if case_sensitive {
            q
        } else {
            let lower = to_lower(query);
            chars_of(lower.as_str())
        };
        let lines = self.lines_for_search(case_sensitive);
        find_next_in_lines(&lines, &sq, from_position)
    }

    /// Replaces the first occurrence of `find` (compared lowercased) at or
    /// after the cursor, wrapping around the document, by `replace_with`,
    /// and puts the cursor just after the inserted text. Nothing happens
    /// when there is none, or when the occurrence does not lie within its
    /// line in the document's own characters.
    pub fn replace(&mut self, find: &str, replace_with: &str, _replace_all: bool)
        requires
            old(self).wf(),
        ensures
            final(self).wf(),
            ({
                let s = old(self).text();
                let c = old(self).cursor_position;
                let found = find_from(search_lines(s, false), lower_of(find@), c.0 as int, c.1 as int);
                let ok = find@.len() > 0 && found is Some && pos_valid(
                    s,
                    found->Some_0.0 as nat,
                    (found->Some_0.1 + find@.len()) as nat,
                ) && s.len() - find@.len() + replace_with@.len() <= usize::MAX;
                &&& ok ==> {
                    let (row, k) = found->Some_0;
                    let o = offset_of_pos(s, row, k);
                    &&& final(self).text() == s.take(o) + replace_with@ + s.skip(o + find@.len())
                    &&& final(self).cursor_position.0 == advance(row as int, k as int, replace_with@).0
                    &&& final(self).cursor_position.1 == advance(row as int, k as int, replace_with@).1
                    &&& final(self).selection == old(self).selection
                    &&& final(self).edited_from(old(self))
                }
                &&& !ok ==> *final(self) == *old(self)
            }),
    {
        let fq = chars_of(find);
        let flen = fq.len();
        if flen == 0 {
            return;
        }
        let lower = to_lower(find);
        let sq = chars_of(lower.as_str());
        let lines = self.lines_for_search(false);
        let (row, col) = self.cursor_position;
        let found = find_from_in_lines(&lines, &sq, row, col);
        let (frow, k) = match found {
            Some(p) => p,
            None => return,
        };
        if flen > usize::MAX - k {
            let _ = rope_len_chars(&self.content);
            proof {
                assert(!pos_valid(self.text(), frow as nat, (k + flen) as nat)) by {
                    if pos_valid(self.text(), frow as nat, (k + flen) as nat) {
                        lemma_pos_bounds_len(self.text(), frow as nat, (k + flen) as nat);
                    }
                }
            }
            return;
        }
        let end_ok = self.position_offset(frow, k + flen);
        let o_end = match end_ok {
            Some(e) => e,
            None => return,
        };
        let len = rope_len_chars(&self.content);
        let rw = chars_of(replace_with);
        if rw.len() > usize::MAX - (len - flen) {
            return;
        }
        let ghost s = self.text();
        proof {
            lemma_pos_bounds_len(s, frow as nat, (k + flen) as nat);
        }
        self.save_state();
        let o = o_end - flen;
        proof {
            let t = s.take(o as int) + s.skip(o_end as int);
            assert(t.take(o as int) =~= s.take(o as int));
            lemma_pos_prefix(s, t, frow as nat, k as nat);
        }
        rope_remove(&mut self.content, o, o_end);
        self.cursor_position = (frow, k);
        let ghost t = self.text();
        self.type_chars(&rw);
        proof {
            assert(t.take(o as int) + rw@ + t.skip(o as int) =~= s.take(o as int) + replace_with@ + s.skip(o + flen));
        }
        self.modified = true;
    }
}

/// Offset in `s` of position `(row, col)`.
pub open spec fn offset_of_pos(s: Seq<char>, row: usize, col: usize) -> int {
    line_start(s, row as nat) + col
}

proof fn lemma_pos_bounds_len(s: Seq<char>, row: nat, col: nat)
    requires
        pos_valid(s, row, col),
    ensures
        line_start(s, row) + col <= s.len(),
        forall|c: nat| c <= col ==> pos_valid(s, row, c),
{
    lemma_pos_bounds(s, row, col);
}

} // verus!
