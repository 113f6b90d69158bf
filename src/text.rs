//! The document text: a `ropey::Rope` seen as a sequence of characters, and
//! the line structure of such a sequence (lines are separated by `'\n'`).
use ropey::Rope;
use vstd::prelude::*;

verus! {

#[verifier::external_type_specification]
#[verifier::external_body]
pub struct ExRope(ropey::Rope);

/// The characters a rope holds, in order.
pub uninterp spec fn rope_text(r: Rope) -> Seq<char>;

/// Number of line breaks in `s`.
pub open spec fn nl_count(s: Seq<char>) -> nat
    decreases s.len(),
{
    if s.len() == 0 {
        0
    } else {
        (if s[0] == '\n' { 1nat } else { 0nat }) + nl_count(s.drop_first())
    }
}

/// Number of lines of `s`: one more than its line breaks.
pub open spec fn line_count(s: Seq<char>) -> nat {
    nl_count(s) + 1
}

/// Offset of the first character of line `row`; `s.len()` once `row` is
/// past the last line.
pub open spec fn line_start(s: Seq<char>, row: nat) -> nat
    decreases s.len(),
{
    if row == 0 {
        0
    } else if s.len() == 0 {
        0
    } else if s[0] == '\n' {
        1 + line_start(s.drop_first(), (row - 1) as nat)
    } else {
        1 + line_start(s.drop_first(), row)
    }
}

/// The characters of line `row`, its line break included when it has one.
pub open spec fn line_text(s: Seq<char>, row: nat) -> Seq<char> {
    s.subrange(line_start(s, row) as int, line_start(s, row + 1) as int)
}

/// Offset in `s` of position `(row, col)`.
pub open spec fn offset_of(s: Seq<char>, row: nat, col: nat) -> int {
    (line_start(s, row) + col) as int
}

/// `(row, col)` names a line of `s` and a column within that line's text
/// (at most its length, the line break not counted).
pub open spec fn pos_valid(s: Seq<char>, row: nat, col: nat) -> bool {
    &&& row <= nl_count(s)
    &&& offset_of(s, row, col) <= s.len()
    &&& forall|j: int|
        line_start(s, row) <= j < offset_of(s, row, col) ==> #[trigger] s[j] != '\n'
}

/// `s` holds no line break.
pub open spec fn no_newline(s: Seq<char>) -> bool {
    forall|j: int| 0 <= j < s.len() ==> #[trigger] s[j] != '\n'
}

pub proof fn lemma_nl_count_concat(a: Seq<char>, b: Seq<char>)
    ensures
        nl_count(a + b) == nl_count(a) + nl_count(b),
    decreases a.len(),
{
    if a.len() > 0 {
        assert((a + b).drop_first() =~= a.drop_first() + b);
        lemma_nl_count_concat(a.drop_first(), b);
    } else {
        assert(a + b =~= b);
    }
}

pub proof fn lemma_nl_count_none(s: Seq<char>)
    requires
        no_newline(s),
    ensures
        nl_count(s) == 0,
    decreases s.len(),
{
    if s.len() > 0 {
        assert(no_newline(s.drop_first())) by {
            assert forall|j: int| 0 <= j < s.drop_first().len() implies #[trigger] s.drop_first()[j]
                != '\n' by {
                assert(s.drop_first()[j] == s[j + 1]);
            }
        }
        lemma_nl_count_none(s.drop_first());
    }
}

/// Structure of the lines: where each starts, and that a line's text has
/// no break but its last character.
pub proof fn lemma_line_start(s: Seq<char>, row: nat)
    requires
        row <= nl_count(s),
    ensures
        line_start(s, row) <= s.len(),
        nl_count(s.take(line_start(s, row) as int)) == row,
        row > 0 ==> s[line_start(s, row) - 1] == '\n',
        row < nl_count(s) ==> {
            &&& line_start(s, row) < line_start(s, row + 1) <= s.len()
            &&& s[line_start(s, row + 1) - 1] == '\n'
            &&& forall|j: int|
                line_start(s, row) <= j < line_start(s, row + 1) - 1 ==> #[trigger] s[j] != '\n'
        },
        row == nl_count(s) ==> {
            &&& line_start(s, row + 1) == s.len()
            &&& forall|j: int| line_start(s, row) <= j < s.len() ==> #[trigger] s[j] != '\n'
        },
    decreases s.len(),
{
    if s.len() == 0 {
        assert(s.take(0) =~= s);
        assert(line_start(s, row + 1) == 0);
    } else {
        let t = s.drop_first();
        assert(seq![s[0]].drop_first() =~= Seq::<char>::empty());
        assert(s.take(0) =~= Seq::<char>::empty());
        assert(nl_count(Seq::<char>::empty()) == 0);
        assert forall|j: int| 1 <= j < s.len() implies #[trigger] s[j] == t[j - 1] by {}
        if s[0] == '\n' && row > 0 {
            let r1 = (row - 1) as nat;
            lemma_line_start(t, r1);
            let p = line_start(t, r1);
            assert(s.take(p + 1int) =~= seq![s[0]] + t.take(p as int));
            lemma_nl_count_concat(seq![s[0]], t.take(p as int));
            if row < nl_count(s) {
                assert forall|j: int|
                    line_start(s, row) <= j < line_start(s, row + 1) - 1 implies #[trigger] s[j]
                    != '\n' by {
                    assert(t[j - 1] != '\n');
                }
            }
            if row == nl_count(s) {
                assert forall|j: int| line_start(s, row) <= j < s.len() implies #[trigger] s[j]
                    != '\n' by {
                    assert(t[j - 1] != '\n');
                }
            }
        } else if s[0] == '\n' {
            assert(line_start(s, 1) == 1);
        } else {
            lemma_line_start(t, row);
            let p = line_start(t, row);
            if row > 0 {
                assert(s.take(p + 1int) =~= seq![s[0]] + t.take(p as int));
                lemma_nl_count_concat(seq![s[0]], t.take(p as int));
            }
            if row < nl_count(s) {
                assert forall|j: int|
                    line_start(s, row) <= j < line_start(s, row + 1) - 1 implies #[trigger] s[j]
                    != '\n' by {
                    if j > 0 {
                        assert(t[j - 1] != '\n');
                    }
                }
            }
            if row == nl_count(s) {
                assert forall|j: int| line_start(s, row) <= j < s.len() implies #[trigger] s[j]
                    != '\n' by {
                    if j > 0 {
                        assert(t[j - 1] != '\n');
                    }
                }
            }
        }
    }
}

/// Line starts depend only on the text before them.
pub proof fn lemma_line_start_prefix(s: Seq<char>, t: Seq<char>, row: nat, q: int)
    requires
        row <= nl_count(s),
        line_start(s, row) <= q <= s.len(),
        q <= t.len(),
        s.take(q) =~= t.take(q),
    ensures
        line_start(t, row) == line_start(s, row),
        row <= nl_count(t),
    decreases s.len(),
{
    if row > 0 {
        assert(s.len() > 0);
        assert(s[0] == s.take(q)[0]);
        assert(t[0] == t.take(q)[0]);
        let s1 = s.drop_first();
        let t1 = t.drop_first();
        assert(s1.take(q - 1) =~= t1.take(q - 1)) by {
            assert forall|j: int| 0 <= j < q - 1 implies #[trigger] s1.take(q - 1)[j] == t1.take(q - 1)[j] by {
                assert(s.take(q)[j + 1] == t.take(q)[j + 1]);
            }
        }
        if s[0] == '\n' {
            lemma_line_start_prefix(s1, t1, (row - 1) as nat, q - 1);
        } else {
            lemma_line_start_prefix(s1, t1, row, q - 1);
        }
    }
}

/// A position stays valid, at the same offset, under any change that keeps
/// the text before it.
pub proof fn lemma_pos_prefix(s: Seq<char>, t: Seq<char>, row: nat, col: nat)
    requires
        pos_valid(s, row, col),
        offset_of(s, row, col) <= t.len(),
        s.take(offset_of(s, row, col)) =~= t.take(offset_of(s, row, col)),
    ensures
        pos_valid(t, row, col),
        offset_of(t, row, col) == offset_of(s, row, col),
{
    let q = offset_of(s, row, col);
    lemma_line_start(s, row);
    lemma_line_start_prefix(s, t, row, q);
    assert forall|j: int| line_start(t, row) <= j < offset_of(t, row, col) implies #[trigger] t[j]
        != '\n' by {
        assert(s.take(q)[j] == t.take(q)[j]);
        assert(s[j] != '\n');
    }
}

/// Line `row + 1` starts just after the first break at or after the start
/// of line `row`.
pub proof fn lemma_next_line(s: Seq<char>, row: nat, e: int)
    requires
        row <= nl_count(s),
        line_start(s, row) <= e < s.len(),
        s[e] == '\n',
        forall|j: int| line_start(s, row) <= j < e ==> #[trigger] s[j] != '\n',
    ensures
        row < nl_count(s),
        line_start(s, row + 1) == e + 1,
        pos_valid(s, row + 1, 0),
{
    lemma_line_start(s, row);
    if row == nl_count(s) {
        assert(s[e] != '\n');
    }
    lemma_line_start(s, row + 1);
    let n = line_start(s, row + 1) - 1;
    if n < e {
        assert(s[n] != '\n');
    }
    if n > e {
        assert(s[e] != '\n');
    }
}

/// The last column of line `row - 1` is a valid position, at the offset of
/// the break that ends that line.
pub proof fn lemma_prev_line_end(s: Seq<char>, row: nat)
    requires
        0 < row <= nl_count(s),
    ensures
        line_start(s, (row - 1) as nat) < line_start(s, row),
        pos_valid(s, (row - 1) as nat, (line_start(s, row) - 1 - line_start(s, (row - 1) as nat)) as nat),
        offset_of(s, (row - 1) as nat, (line_start(s, row) - 1 - line_start(s, (row - 1) as nat)) as nat)
            == line_start(s, row) - 1,
{
    lemma_line_start(s, (row - 1) as nat);
}

/// Inserting a character at a valid position: the cursor after it is valid
/// too, one further.
pub proof fn lemma_insert_at_pos(s: Seq<char>, row: nat, col: nat, c: char)
    requires
        pos_valid(s, row, col),
    ensures
        c != '\n' ==> pos_valid(s.insert(offset_of(s, row, col), c), row, col + 1) && offset_of(
            s.insert(offset_of(s, row, col), c),
            row,
            col + 1,
        ) == offset_of(s, row, col) + 1,
        c == '\n' ==> pos_valid(s.insert(offset_of(s, row, col), c), row + 1, 0) && offset_of(
            s.insert(offset_of(s, row, col), c),
            row + 1,
            0,
        ) == offset_of(s, row, col) + 1,
{
    let o = offset_of(s, row, col);
    let t = s.insert(o, c);
    assert(t.take(o) =~= s.take(o));
    lemma_pos_prefix(s, t, row, col);
    if c == '\n' {
        lemma_next_line(t, row, o);
    }
}

/// Removing the character before a valid position inside a line.
pub proof fn lemma_remove_before_pos(s: Seq<char>, row: nat, col: nat)
    requires
        pos_valid(s, row, col),
        col > 0,
    ensures
        pos_valid(
            s.take(offset_of(s, row, col) - 1) + s.skip(offset_of(s, row, col)),
            row,
            (col - 1) as nat,
        ),
        offset_of(s.take(offset_of(s, row, col) - 1) + s.skip(offset_of(s, row, col)), row, (col - 1) as nat)
            == offset_of(s, row, col) - 1,
{
    let o = offset_of(s, row, col);
    let t = s.take(o - 1) + s.skip(o);
    assert(t.take(o - 1) =~= s.take(o - 1));
    lemma_pos_prefix(s, t, row, (col - 1) as nat);
}

/// Removing the break before the start of line `row` joins it to the line
/// above; the end of that line's old text is a valid position.
pub proof fn lemma_join_lines(s: Seq<char>, row: nat)
    requires
        0 < row <= nl_count(s),
    ensures
        ({
            let o = line_start(s, row) as int;
            let t = s.take(o - 1) + s.skip(o);
            let c = (line_start(s, row) - 1 - line_start(s, (row - 1) as nat)) as nat;
            pos_valid(t, (row - 1) as nat, c) && offset_of(t, (row - 1) as nat, c) == o - 1
        }),
{
    let o = line_start(s, row) as int;
    let t = s.take(o - 1) + s.skip(o);
    let c = (line_start(s, row) - 1 - line_start(s, (row - 1) as nat)) as nat;
    lemma_prev_line_end(s, row);
    lemma_line_start(s, row);
    assert(t.take(o - 1) =~= s.take(o - 1));
    lemma_pos_prefix(s, t, (row - 1) as nat, c);
}

/// Offset of a valid position, and the columns of a valid position's line.
pub proof fn lemma_pos_bounds(s: Seq<char>, row: nat, col: nat)
    requires
        pos_valid(s, row, col),
    ensures
        line_start(s, row) <= line_start(s, row + 1) <= s.len(),
        offset_of(s, row, col) <= line_start(s, row + 1),
        row < nl_count(s) ==> offset_of(s, row, col) < line_start(s, row + 1),
        forall|c: nat| c <= col ==> pos_valid(s, row, c),
{
    lemma_line_start(s, row);
    let o = offset_of(s, row, col);
    if row < nl_count(s) && o >= line_start(s, row + 1) {
        assert(s[line_start(s, row + 1) - 1] != '\n');
    }
}

/// Length of line `row` in characters, its break included.
pub open spec fn line_len(s: Seq<char>, row: nat) -> int {
    line_start(s, row + 1) - line_start(s, row)
}

/// Length of line `row`'s text, the break not counted.
pub open spec fn content_len(s: Seq<char>, row: nat) -> int {
    if row < nl_count(s) {
        line_len(s, row) - 1
    } else {
        line_len(s, row)
    }
}

/// The column that vertical moves and `move_to_line_end` clamp to: one
/// less than the line's length, or 0 on an empty line.
pub open spec fn last_col(s: Seq<char>, row: nat) -> int {
    if line_len(s, row) > 0 {
        line_len(s, row) - 1
    } else {
        0
    }
}

/// The valid columns of a line are those up to the length of its text.
pub proof fn lemma_pos_valid_iff(s: Seq<char>, row: nat)
    requires
        row <= nl_count(s),
    ensures
        0 <= last_col(s, row) <= content_len(s, row),
        line_start(s, row) + line_len(s, row) <= s.len(),
        forall|c: nat| #[trigger] pos_valid(s, row, c) <==> c <= content_len(s, row),
{
    lemma_line_start(s, row);
    assert forall|c: nat| #[trigger] pos_valid(s, row, c) <==> c <= content_len(s, row) by {
        if pos_valid(s, row, c) {
            lemma_pos_bounds(s, row, c);
        }
    }
}

/// Line starts never decrease.
pub proof fn lemma_line_start_mono(s: Seq<char>, r1: nat, r2: nat)
    requires
        r1 <= r2 <= nl_count(s),
    ensures
        line_start(s, r1) <= line_start(s, r2),
    decreases r2 - r1,
{
    if r1 < r2 {
        lemma_line_start(s, r1);
        lemma_line_start_mono(s, r1 + 1, r2);
    }
}

/// Lines past the breaks of `a` start in `x`.
pub proof fn lemma_line_start_concat(a: Seq<char>, x: Seq<char>, r: nat)
    requires
        r > nl_count(a),
    ensures
        line_start(a + x, r) == a.len() + line_start(x, (r - nl_count(a)) as nat),
    decreases a.len(),
{
    if a.len() == 0 {
        assert(a + x =~= x);
    } else {
        let a1 = a.drop_first();
        assert((a + x).drop_first() =~= a1 + x);
        assert((a + x)[0] == a[0]);
        if a[0] == '\n' {
            lemma_line_start_concat(a1, x, (r - 1) as nat);
        } else {
            lemma_line_start_concat(a1, x, r);
        }
    }
}

/// The lines of `s`, each with its break when it has one.
pub open spec fn lines(s: Seq<char>) -> Seq<Seq<char>> {
    Seq::new(line_count(s), |r: int| line_text(s, r as nat))
}

/// Replacing `m` characters at offset `p` inside the text of line `row` by
/// `ins`, which holds no break, changes that line alone.
pub proof fn lemma_line_edit(s: Seq<char>, row: nat, p: int, m: int, ins: Seq<char>)
    requires
        row <= nl_count(s),
        line_start(s, row) <= p,
        0 <= m,
        p + m <= line_start(s, row) + content_len(s, row),
        no_newline(ins),
    ensures
        ({
            let t = s.take(p) + ins + s.skip(p + m);
            let l = line_text(s, row);
            let k = p - line_start(s, row);
            &&& nl_count(t) == nl_count(s)
            &&& line_start(t, row) == line_start(s, row)
            &&& line_text(t, row) == l.take(k) + ins + l.skip(k + m)
            &&& forall|r: nat| r <= nl_count(s) && r != row ==> #[trigger] line_text(t, r) == line_text(s, r)
        }),
{
    let t = s.take(p) + ins + s.skip(p + m);
    let l = line_text(s, row);
    let ls = line_start(s, row);
    let k = p - ls;
    lemma_pos_valid_iff(s, row);
    lemma_line_start(s, row);
    let pp = s.take(p);
    let mm = s.subrange(p, p + m);
    let q = s.skip(p + m);
    assert(s =~= pp + mm + q);
    // breaks before the edit
    assert(pp =~= s.take(ls as int) + s.subrange(ls as int, p));
    assert(no_newline(s.subrange(ls as int, p)));
    lemma_nl_count_none(s.subrange(ls as int, p));
    lemma_nl_count_concat(s.take(ls as int), s.subrange(ls as int, p));
    assert(no_newline(mm));
    lemma_nl_count_none(mm);
    lemma_nl_count_none(ins);
    lemma_nl_count_concat(pp, mm);
    lemma_nl_count_concat(pp + mm, q);
    lemma_nl_count_concat(pp, ins);
    lemma_nl_count_concat(pp + ins, q);
    assert(t =~= (pp + ins) + q);
    assert(nl_count(pp + mm) == row);
    assert(nl_count(pp + ins) == row);
    // rows up to the edited one start where they did
    assert(t.take(p) =~= s.take(p));
    lemma_line_start_prefix(s, t, row, p);
    assert forall|r: nat| r <= nl_count(s) && r != row implies #[trigger] line_text(t, r) == line_text(s, r) by {
        if r < row {
            lemma_line_start_mono(s, r + 1, row);
            lemma_line_start_mono(s, r, r + 1);
            lemma_line_start_prefix(s, t, r, p);
            lemma_line_start_prefix(s, t, r + 1, p);
            assert(line_text(t, r) =~= line_text(s, r)) by {
                assert forall|j: int| 0 <= j < line_text(t, r).len() implies line_text(t, r)[j] == line_text(s, r)[j] by {
                    assert(t.take(p)[line_start(s, r) + j] == s.take(p)[line_start(s, r) + j]);
                }
            }
        } else {
            lemma_line_start_concat(pp + mm, q, r);
            lemma_line_start_concat(pp + ins, q, r);
            lemma_line_start_concat(pp + mm, q, r + 1);
            lemma_line_start_concat(pp + ins, q, r + 1);
            let rq = (r - row) as nat;
            lemma_line_start(q, rq);
            let x = line_start(q, rq) as int;
            let y = line_start(q, rq + 1) as int;
            assert(line_text(t, r) =~= q.subrange(x, y)) by {
                assert forall|j: int| 0 <= j < y - x implies #[trigger] line_text(t, r)[j] == q.subrange(x, y)[j] by {
                    assert(t[(pp + ins).len() + x + j] == q[x + j]);
                }
            }
            assert(line_text(s, r) =~= q.subrange(x, y)) by {
                assert forall|j: int| 0 <= j < y - x implies #[trigger] line_text(s, r)[j] == q.subrange(x, y)[j] by {
                    assert(s[(pp + mm).len() + x + j] == q[x + j]);
                }
            }
        }
    }
    lemma_line_start_concat(pp + mm, q, row + 1);
    lemma_line_start_concat(pp + ins, q, row + 1);
    assert(line_text(t, row) =~= l.take(k) + ins + l.skip(k + m));
}

/// A column is valid when it fits the line's text, its break not counted.
pub proof fn lemma_pos_valid_line(s: Seq<char>, row: nat)
    requires
        row <= nl_count(s),
    ensures
        forall|c: nat|
            #[trigger] pos_valid(s, row, c) <==> c + (if row < nl_count(s) { 1int } else { 0int })
                <= line_text(s, row).len(),
        content_len(s, row) + (if row < nl_count(s) { 1int } else { 0int }) == line_text(s, row).len(),
        row < nl_count(s) ==> line_text(s, row).len() > 0 && line_text(s, row).last() == '\n',
        row == nl_count(s) ==> no_newline(line_text(s, row)),
        no_newline(line_text(s, row).take(content_len(s, row))),
{
    lemma_pos_valid_iff(s, row);
    lemma_line_start(s, row);
    let l = line_text(s, row);
    assert forall|j: int| 0 <= j < content_len(s, row) implies #[trigger] l.take(content_len(s, row))[j] != '\n' by {
        assert(s[line_start(s, row) + j] != '\n');
    }
    if row == nl_count(s) {
        assert forall|j: int| 0 <= j < l.len() implies #[trigger] l[j] != '\n' by {
            assert(s[line_start(s, row) + j] != '\n');
        }
    }
}

/// There are no more breaks than characters.
pub proof fn lemma_nl_count_le_len(s: Seq<char>)
    ensures
        nl_count(s) <= s.len(),
    decreases s.len(),
{
    if s.len() > 0 {
        lemma_nl_count_le_len(s.drop_first());
    }
}

/// Counts of breaks grow with the prefix.
pub proof fn lemma_nl_count_take_mono(s: Seq<char>, i: int, k: int)
    requires
        0 <= i <= k <= s.len(),
    ensures
        nl_count(s.take(i)) <= nl_count(s.take(k)),
{
    assert(s.take(k) =~= s.take(i) + s.subrange(i, k));
    lemma_nl_count_concat(s.take(i), s.subrange(i, k));
}

/// The row of the character at offset `q`: the number of breaks before it.
pub open spec fn row_of(s: Seq<char>, q: int) -> nat {
    nl_count(s.take(q))
}

/// A character's row starts at or before it, and the next row after it.
pub proof fn lemma_row_of(s: Seq<char>, q: int)
    requires
        0 <= q < s.len(),
    ensures
        row_of(s, q) <= nl_count(s),
        line_start(s, row_of(s, q)) <= q < line_start(s, row_of(s, q) + 1),
{
    let r = row_of(s, q);
    lemma_nl_count_take_mono(s, q, s.len() as int);
    assert(s.take(s.len() as int) =~= s);
    lemma_line_start(s, r);
    let ls = line_start(s, r) as int;
    if ls > q {
        assert(s[ls - 1] == '\n');
        assert(s.take(ls) =~= s.take(ls - 1).push(s[ls - 1]));
        lemma_nl_count_concat(s.take(ls - 1), seq![s[ls - 1]]);
        assert(s.take(ls - 1).push(s[ls - 1]) =~= s.take(ls - 1) + seq![s[ls - 1]]);
        assert(seq![s[ls - 1]].drop_first() =~= Seq::<char>::empty());
        assert(nl_count(Seq::<char>::empty()) == 0);
        lemma_nl_count_take_mono(s, q, ls - 1);
    }
    if r < nl_count(s) {
        lemma_line_start(s, r + 1);
        if q >= line_start(s, r + 1) {
            lemma_nl_count_take_mono(s, line_start(s, r + 1) as int, q);
        }
    }
}

/// The row of a character given by row and column is that row.
pub proof fn lemma_row_of_pos(s: Seq<char>, row: nat, col: nat)
    requires
        row <= nl_count(s),
        col < line_len(s, row),
    ensures
        row_of(s, (line_start(s, row) + col) as int) == row,
        line_start(s, row) + col < s.len(),
{
    lemma_line_start(s, row);
    let ls = line_start(s, row) as int;
    let q = ls + col;
    assert(s.take(q) =~= s.take(ls) + s.subrange(ls, q));
    assert(no_newline(s.subrange(ls, q))) by {
        assert forall|j: int| 0 <= j < s.subrange(ls, q).len() implies #[trigger] s.subrange(ls, q)[j] != '\n' by {
            assert(s[ls + j] != '\n');
        }
    }
    lemma_nl_count_none(s.subrange(ls, q));
    lemma_nl_count_concat(s.take(ls), s.subrange(ls, q));
}

/// Relies on `Rope::new`: an empty rope.
#[verifier::external_body]
pub(crate) fn rope_new() -> (r: Rope)
    ensures
        rope_text(r) == Seq::<char>::empty(),
{
    Rope::new()
}

/// Relies on `Rope::from_str`: a rope holding the characters of `text`.
#[verifier::external_body]
pub(crate) fn rope_from_str(text: &str) -> (r: Rope)
    ensures
        rope_text(r) == text@,
{
    Rope::from_str(text)
}

/// Relies on `Rope::clone`: a rope with the same characters.
#[verifier::external_body]
pub(crate) fn rope_clone(r: &Rope) -> (c: Rope)
    ensures
        rope_text(c) == rope_text(*r),
{
    r.clone()
}

/// Relies on `Rope::len_chars`: the number of characters.
#[verifier::external_body]
pub(crate) fn rope_len_chars(r: &Rope) -> (n: usize)
    ensures
        n == rope_text(*r).len(),
{
    r.len_chars()
}

/// Relies on `Rope::len_lines`: one more than the number of line breaks
/// (only `'\n'` breaks a line with the crate's default features off).
#[verifier::external_body]
pub(crate) fn rope_len_lines(r: &Rope) -> (n: usize)
    ensures
        n == line_count(rope_text(*r)),
{
    r.len_lines()
}

/// Relies on `Rope::line_to_char`: the offset where line `row` starts, the
/// length for the row one past the last.
#[verifier::external_body]
pub(crate) fn rope_line_to_char(r: &Rope, row: usize) -> (n: usize)
    requires
        row <= line_count(rope_text(*r)),
    ensures
        n == line_start(rope_text(*r), row as nat),
{
    r.line_to_char(row)
}

/// Relies on `Rope::line` and `RopeSlice::chars`: the characters of line
/// `row`, its break included.
#[verifier::external_body]
pub(crate) fn rope_line_chars(r: &Rope, row: usize) -> (v: Vec<char>)
    requires
        row < line_count(rope_text(*r)),
    ensures
        v@ == line_text(rope_text(*r), row as nat),
{
    r.line(row).chars().collect()
}

/// Relies on `Rope::char_to_line`: the number of line breaks before
/// offset `i`.
#[verifier::external_body]
pub(crate) fn rope_char_to_line(r: &Rope, i: usize) -> (n: usize)
    requires
        i <= rope_text(*r).len(),
    ensures
        n == nl_count(rope_text(*r).take(i as int)),
{
    r.char_to_line(i)
}

/// Relies on `Rope::chars`: all the characters, in order.
#[verifier::external_body]
pub(crate) fn rope_chars(r: &Rope) -> (v: Vec<char>)
    ensures
        v@ == rope_text(*r),
{
    r.chars().collect()
}

/// Relies on `Rope::slice` and `RopeSlice::to_string`: the characters in
/// `[start, end)`.
#[verifier::external_body]
pub(crate) fn rope_slice_string(r: &Rope, start: usize, end: usize) -> (s: String)
    requires
        start <= end <= rope_text(*r).len(),
    ensures
        s@ == rope_text(*r).subrange(start as int, end as int),
{
    r.slice(start..end).to_string()
}

/// Relies on `Rope::insert_char`: `ch` is inserted at offset `i`.
#[verifier::external_body]
pub(crate) fn rope_insert_char(r: &mut Rope, i: usize, ch: char)
    requires
        i <= rope_text(*old(r)).len(),
    ensures
        rope_text(*final(r)) == rope_text(*old(r)).insert(i as int, ch),
{
    r.insert_char(i, ch)
}

/// Relies on `Rope::insert`: the characters of `text` are inserted at
/// offset `i`.
#[verifier::external_body]
pub(crate) fn rope_insert(r: &mut Rope, i: usize, text: &str)
    requires
        i <= rope_text(*old(r)).len(),
    ensures
        rope_text(*final(r)) == rope_text(*old(r)).take(i as int) + text@ + rope_text(*old(r)).skip(
            i as int,
        ),
{
    r.insert(i, text)
}

/// Relies on `Rope::remove`: the characters in `[start, end)` are removed.
#[verifier::external_body]
pub(crate) fn rope_remove(r: &mut Rope, start: usize, end: usize)
    requires
        start <= end <= rope_text(*old(r)).len(),
    ensures
        rope_text(*final(r)) == rope_text(*old(r)).take(start as int) + rope_text(*old(r)).skip(
            end as int,
        ),
{
    r.remove(start..end)
}

/// Relies on `str::chars`: the characters of `s`, in order.
#[verifier::external_body]
pub(crate) fn chars_of(s: &str) -> (v: Vec<char>)
    ensures
        v@ == s@,
{
    s.chars().collect()
}

/// Relies on `String`'s `FromIterator<&char>`: the string of `v`'s characters.
#[verifier::external_body]
pub(crate) fn string_of(v: &Vec<char>) -> (s: String)
    ensures
        s@ == v@,
{
    v.iter().collect()
}

} // verus!
