//! Line differences between a committed version of a file and the working
//! one, found with a short look-ahead rather than a longest common
//! subsequence.
use vstd::prelude::*;

verus! {

/// How far ahead, in lines, a line is looked for on the other side.
pub const LOOKAHEAD: usize = 5;

/// Which lines differ: indices of working lines added, of committed lines
/// deleted, and of working lines modified; and the buffers the two
/// versions are shown in.
#[derive(Debug, Clone)]
pub struct DiffInfo {
    pub head_buffer_index: usize,
    pub working_buffer_index: usize,
    pub added_lines: Vec<usize>,
    pub deleted_lines: Vec<usize>,
    pub modified_lines: Vec<usize>,
}

/// First index in `from..to` where `s` holds `target`.
pub open spec fn look(s: Seq<Seq<char>>, target: Seq<char>, from: int, to: int) -> Option<int>
    decreases to - from,
{
    if from >= to || from < 0 || from >= s.len() {
        None
    } else if s[from] == target {
        Some(from)
    } else {
        look(s, target, from + 1, to)
    }
}

/// The indices `a..b`.
pub open spec fn range(a: int, b: int) -> Seq<usize> {
    Seq::new((b - a) as nat, |t: int| (a + t) as usize)
}

/// Added, deleted and modified indices found from committed line `i` and
/// working line `j` on.
pub open spec fn diff_from(h: Seq<Seq<char>>, w: Seq<Seq<char>>, i: int, j: int) -> (Seq<usize>, Seq<usize>, Seq<usize>)
    decreases (h.len() - i) + (w.len() - j),
{
    if i < 0 || j < 0 || i > h.len() || j > w.len() || (i == h.len() && j == w.len()) {
        (Seq::empty(), Seq::empty(), Seq::empty())
    } else if i >= h.len() {
        let r = diff_from(h, w, i, j + 1);
        (seq![j as usize] + r.0, r.1, r.2)
    } else if j >= w.len() {
        let r = diff_from(h, w, i + 1, j);
        (r.0, seq![i as usize] + r.1, r.2)
    } else if h[i] == w[j] {
        diff_from(h, w, i + 1, j + 1)
    } else {
        let in_working = look(w, h[i], j + 1, if j + 5 < w.len() { j + 5 } else { w.len() as int });
        let in_head = look(h, w[j], i + 1, if i + 5 < h.len() { i + 5 } else { h.len() as int });
        match (in_working, in_head) {
            (Some(k), _) => if k <= j || k > w.len() {
                (Seq::empty(), Seq::empty(), Seq::empty())
            } else {
                let r = diff_from(h, w, i, k);
                (range(j, k) + r.0, r.1, r.2)
            },
            (None, Some(k)) => if k <= i || k > h.len() {
                (Seq::empty(), Seq::empty(), Seq::empty())
            } else {
                let r = diff_from(h, w, k, j);
                (r.0, range(i, k) + r.1, r.2)
            },
            (None, None) => {
                let r = diff_from(h, w, i + 1, j + 1);
                (r.0, r.1, seq![j as usize] + r.2)
            },
        }
    }
}

pub open spec fn views(v: Seq<String>) -> Seq<Seq<char>> {
    v.map_values(|s: String| s@)
}

proof fn lemma_look(s: Seq<Seq<char>>, target: Seq<char>, from: int, to: int)
    ensures
        look(s, target, from, to) matches Some(k) ==> from <= k < to && 0 <= k < s.len(),
    decreases to - from,
{
    if !(from >= to || from < 0 || from >= s.len()) && s[from] != target {
        lemma_look(s, target, from + 1, to);
    }
}

fn look_exec(s: &Vec<String>, target: &String, from: usize, to: usize) -> (r: Option<usize>)
    requires
        to <= s@.len(),
    ensures
        r == (match look(views(s@), target@, from as int, to as int) {
            Some(k) => Some(k as usize),
            None => None,
        }),
{
    let mut k = from;
    while k < to
        invariant
            from <= k,
            to <= s@.len(),
            look(views(s@), target@, from as int, to as int) == look(views(s@), target@, k as int, to as int),
        decreases to - k,
    {
        proof {
            assert(views(s@)[k as int] == s@[k as int]@);
        }
        if s[k] == *target {
            return Some(k);
        }
        k = k + 1;
    }
    None
}

/// Which working lines were added or modified and which committed lines
/// deleted: equal lines are passed together; at a difference, a line found
/// within the next few lines of the other side marks the lines skipped to
/// reach it as added (or deleted), and otherwise the working line counts
/// as modified.
#[verifier::rlimit(100)]
pub fn compute_diff(head_lines: &Vec<String>, working_lines: &Vec<String>) -> (d: DiffInfo)
    ensures
        ({
            let r = diff_from(views(head_lines@), views(working_lines@), 0, 0);
            &&& d.added_lines@ == r.0
            &&& d.deleted_lines@ == r.1
            &&& d.modified_lines@ == r.2
            &&& d.head_buffer_index == 0
            &&& d.working_buffer_index == 0
        }),
{
    let ghost h = views(head_lines@);
    let ghost w = views(working_lines@);
    let hn = head_lines.len();
    let wn = working_lines.len();
    let mut added: Vec<usize> = Vec::new();
    let mut deleted: Vec<usize> = Vec::new();
    let mut modified: Vec<usize> = Vec::new();
    let mut i: usize = 0;
    let mut j: usize = 0;
    while i < hn || j < wn
        invariant
            i <= hn,
            j <= wn,
            hn == h.len(),
            wn == w.len(),
            h == views(head_lines@),
            w == views(working_lines@),
            added@ + diff_from(h, w, i as int, j as int).0 == diff_from(h, w, 0, 0).0,
            deleted@ + diff_from(h, w, i as int, j as int).1 == diff_from(h, w, 0, 0).1,
            modified@ + diff_from(h, w, i as int, j as int).2 == diff_from(h, w, 0, 0).2,
        decreases (hn - i) + (wn - j),
    {
        let ghost r0 = diff_from(h, w, i as int, j as int);
        if i >= hn {
            let ghost before = added@;
            added.push(j);
            proof {
                assert(before + r0.0 =~= added@ + diff_from(h, w, i as int, j + 1).0);
            }
            j = j + 1;
        } else if j >= wn {
            let ghost before = deleted@;
            deleted.push(i);
            proof {
                assert(before + r0.1 =~= deleted@ + diff_from(h, w, i + 1, j as int).1);
            }
            i = i + 1;
        } else if head_lines[i] == working_lines[j] {
            proof {
                assert(h[i as int] == head_lines@[i as int]@);
                assert(w[j as int] == working_lines@[j as int]@);
            }
            i = i + 1;
            j = j + 1;
        } else {
            proof {
                assert(h[i as int] == head_lines@[i as int]@);
                assert(w[j as int] == working_lines@[j as int]@);
            }
            let wend = if wn - j > LOOKAHEAD { j + LOOKAHEAD } else { wn };
            let hend = if hn - i > LOOKAHEAD { i + LOOKAHEAD } else { hn };
            let in_working = look_exec(working_lines, &head_lines[i], j + 1, wend);
            let in_head = look_exec(head_lines, &working_lines[j], i + 1, hend);
            proof {
                lemma_look(w, h[i as int], j + 1, wend as int);
                lemma_look(h, w[j as int], i + 1, hend as int);
            }
            match (in_working, in_head) {
                (Some(k), _) => {
                    let ghost before = added@;
                    let mut t = j;
                    while t < k
                        invariant
                            j <= t <= k,
                            added@ == before + range(j as int, t as int),
                        decreases k - t,
                    {
                        added.push(t);
                        proof {
                            assert(added@ =~= before + range(j as int, t + 1));
                        }
                        t = t + 1;
                    }
                    proof {
                        assert(before + r0.0 =~= added@ + diff_from(h, w, i as int, k as int).0);
                    }
                    j = k;
                },
                (None, Some(k)) => {
                    let ghost before = deleted@;
                    let mut t = i;
                    while t < k
                        invariant
                            i <= t <= k,
                            deleted@ == before + range(i as int, t as int),
                        decreases k - t,
                    {
                        deleted.push(t);
                        proof {
                            assert(deleted@ =~= before + range(i as int, t + 1));
                        }
                        t = t + 1;
                    }
                    proof {
                        assert(before + r0.1 =~= deleted@ + diff_from(h, w, k as int, j as int).1);
                    }
                    i = k;
                },
                (None, None) => {
                    let ghost before = modified@;
                    modified.push(j);
                    proof {
                        assert(before + r0.2 =~= modified@ + diff_from(h, w, i + 1, j + 1).2);
                    }
                    i = i + 1;
                    j = j + 1;
                },
            }
        }
    }
    proof {
        assert(added@ + Seq::<usize>::empty() =~= added@);
        assert(deleted@ + Seq::<usize>::empty() =~= deleted@);
        assert(modified@ + Seq::<usize>::empty() =~= modified@);
    }
    DiffInfo {
        head_buffer_index: 0,
        working_buffer_index: 0,
        added_lines: added,
        deleted_lines: deleted,
        modified_lines: modified,
    }
}

} // verus!
