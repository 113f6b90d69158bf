//! Bounded undo history and unbounded redo history of editor snapshots.
use crate::selection::Selection;
use crate::text::{rope_len_chars, rope_text, pos_valid};
use ropey::Rope;
use std::collections::VecDeque;
use vstd::prelude::*;

verus! {

/// Most snapshots kept for undo; older ones are dropped.
pub const MAX_UNDO_HISTORY: usize = 1000;

/// What a snapshot holds, as values.
pub struct StateView {
    pub text: Seq<char>,
    pub cursor: (usize, usize),
    pub selection: Option<Selection>,
}

impl StateView {
    /// The cursor names a position of the text.
    pub open spec fn wf(self) -> bool {
        pos_valid(self.text, self.cursor.0 as nat, self.cursor.1 as nat)
    }
}

/// A snapshot of a buffer's content, cursor and selection.
#[derive(Debug)]
pub struct EditorState {
    pub content: Rope,
    pub cursor_position: (usize, usize),
    pub selection: Option<Selection>,
}

impl View for EditorState {
    type V = StateView;

    open spec fn view(&self) -> StateView {
        StateView {
            text: rope_text(self.content),
            cursor: self.cursor_position,
            selection: self.selection,
        }
    }
}

/// All states of `s` have a valid cursor.
pub open spec fn all_wf(s: Seq<StateView>) -> bool {
    forall|i: int| 0 <= i < s.len() ==> (#[trigger] s[i]).wf()
}

/// A buffer's present state with what can be undone and redone.
pub struct History {
    pub present: StateView,
    pub past: Seq<StateView>,
    pub future: Seq<StateView>,
}

/// Stepping back one snapshot; nothing happens with no past.
pub open spec fn undo_step(h: History) -> History {
    if h.past.len() == 0 {
        h
    } else {
        History { present: h.past.last(), past: h.past.drop_last(), future: h.future.push(h.present) }
    }
}

/// Stepping forward one snapshot; nothing happens with no future.
pub open spec fn redo_step(h: History) -> History {
    if h.future.len() == 0 {
        h
    } else {
        History { present: h.future.last(), past: h.past.push(h.present), future: h.future.drop_last() }
    }
}

pub open spec fn undo_times(h: History, n: nat) -> History
    decreases n,
{
    if n == 0 {
        h
    } else {
        undo_times(undo_step(h), (n - 1) as nat)
    }
}

pub open spec fn redo_times(h: History, n: nat) -> History
    decreases n,
{
    if n == 0 {
        h
    } else {
        redo_step(redo_times(h, (n - 1) as nat))
    }
}

/// The past after recording `s` in a history that keeps at most
/// `MAX_UNDO_HISTORY` snapshots.
pub open spec fn record(past: Seq<StateView>, s: StateView) -> Seq<StateView> {
    (if past.len() >= MAX_UNDO_HISTORY {
        past.drop_first()
    } else {
        past
    }).push(s)
}

proof fn lemma_round_trip_within(h: History, n: nat)
    requires
        n <= h.past.len(),
    ensures
        redo_times(undo_times(h, n), n) == h,
    decreases n,
{
    if n > 0 {
        let h1 = undo_step(h);
        lemma_round_trip_within(h1, (n - 1) as nat);
        assert(h1.future.last() == h.present);
        assert(h1.past.push(h1.present) =~= h.past);
        assert(h1.future.drop_last() =~= h.future);
    }
}

proof fn lemma_undo_times_split(h: History, k: nat, j: nat)
    ensures
        undo_times(h, k + j) == undo_times(undo_times(h, k), j),
    decreases k,
{
    if k > 0 {
        lemma_undo_times_split(undo_step(h), (k - 1) as nat, j);
        assert((k + j - 1) as nat == (k - 1) as nat + j);
    }
}

proof fn lemma_redo_times_split(h: History, k: nat, j: nat)
    ensures
        redo_times(h, k + j) == redo_times(redo_times(h, k), j),
    decreases j,
{
    if j > 0 {
        lemma_redo_times_split(h, k, (j - 1) as nat);
        assert((k + j - 1) as nat == k + (j - 1) as nat);
    }
}

proof fn lemma_undo_times_empty(h: History, n: nat)
    requires
        h.past.len() == 0,
    ensures
        undo_times(h, n) == h,
    decreases n,
{
    if n > 0 {
        lemma_undo_times_empty(h, (n - 1) as nat);
    }
}

proof fn lemma_redo_times_empty(h: History, n: nat)
    requires
        h.future.len() == 0,
    ensures
        redo_times(h, n) == h,
    decreases n,
{
    if n > 0 {
        lemma_redo_times_empty(h, (n - 1) as nat);
    }
}

proof fn lemma_undo_times_past(h: History, n: nat)
    requires
        n <= h.past.len(),
    ensures
        undo_times(h, n).past.len() == h.past.len() - n,
    decreases n,
{
    if n > 0 {
        lemma_undo_times_past(undo_step(h), (n - 1) as nat);
    }
}

/// Undoing `n` steps and then redoing `n` steps gives back the same
/// present, past and future: whenever `n` steps can be undone, and for any
/// `n` when nothing is left to redo, as after a run of edits.
pub proof fn lemma_undo_redo_round_trip(h: History, n: nat)
    requires
        n <= h.past.len() || h.future.len() == 0,
    ensures
        redo_times(undo_times(h, n), n) == h,
{
    if n <= h.past.len() {
        lemma_round_trip_within(h, n);
    } else {
        let k = h.past.len();
        let j = (n - k) as nat;
        lemma_undo_times_split(h, k, j);
        lemma_undo_times_past(h, k);
        let y = undo_times(h, k);
        lemma_undo_times_empty(y, j);
        lemma_redo_times_split(y, k, j);
        lemma_round_trip_within(h, k);
        lemma_redo_times_empty(h, j);
    }
}

#[derive(Debug)]
pub struct UndoManager {
    undo_stack: VecDeque<EditorState>,
    redo_stack: VecDeque<EditorState>,
    last_saved_state: Option<EditorState>,
}

impl UndoManager {
    /// The snapshots to undo to, the most recent last.
    pub closed spec fn undo_states(&self) -> Seq<StateView> {
        self.undo_stack@.map_values(|s: EditorState| s@)
    }

    /// The snapshots to redo to, the most recent last.
    pub closed spec fn redo_states(&self) -> Seq<StateView> {
        self.redo_stack@.map_values(|s: EditorState| s@)
    }

    /// The text recorded as saved, if any.
    pub closed spec fn saved_text(&self) -> Option<Seq<char>> {
        match self.last_saved_state {
            Some(s) => Some(rope_text(s.content)),
            None => None,
        }
    }

    /// Both histories together stay within the bound, and every snapshot
    /// has a valid cursor.
    pub open spec fn wf(&self) -> bool {
        &&& self.undo_states().len() + self.redo_states().len() <= MAX_UNDO_HISTORY
        &&& all_wf(self.undo_states())
        &&& all_wf(self.redo_states())
    }

    pub fn new() -> (m: UndoManager)
        ensures
            m.undo_states() == Seq::<StateView>::empty(),
            m.redo_states() == Seq::<StateView>::empty(),
            m.saved_text() == None::<Seq<char>>,
            m.wf(),
    {
        let m = UndoManager {
            undo_stack: VecDeque::with_capacity(MAX_UNDO_HISTORY),
            redo_stack: VecDeque::new(),
            last_saved_state: None,
        };
        assert(m.undo_states() =~= Seq::<StateView>::empty());
        assert(m.redo_states() =~= Seq::<StateView>::empty());
        m
    }

    /// Records `state` as the newest undo snapshot, dropping the oldest when
    /// the history is full, and forgets everything that could be redone.
    pub fn save_state(&mut self, state: EditorState)
        requires
            old(self).wf(),
            state@.wf(),
        ensures
            final(self).undo_states() == record(old(self).undo_states(), state@),
            final(self).redo_states() == Seq::<StateView>::empty(),
            final(self).saved_text() == old(self).saved_text(),
            final(self).wf(),
    {
        self.redo_stack.clear();
        if self.undo_stack.len() >= MAX_UNDO_HISTORY {
            self.undo_stack.pop_front();
        }
        let ghost mid = self.undo_stack@;
        self.undo_stack.push_back(state);
        assert(self.undo_stack@ =~= mid.push(state));
        assert(self.undo_states() =~= (if old(self).undo_states().len() >= MAX_UNDO_HISTORY {
            old(self).undo_states().drop_first()
        } else {
            old(self).undo_states()
        }).push(state@));
        assert(self.redo_states() =~= Seq::<StateView>::empty());
    }

    /// Takes the newest undo snapshot, recording `current_state` for redo.
    pub fn undo(&mut self, current_state: EditorState) -> (r: Option<EditorState>)
        requires
            old(self).wf(),
            current_state@.wf(),
        ensures
            old(self).undo_states().len() == 0 ==> r.is_none() && final(self).undo_states()
                == old(self).undo_states() && final(self).redo_states() == old(
                self,
            ).redo_states(),
            old(self).undo_states().len() > 0 ==> r.is_some() && r.unwrap()@ == old(
                self,
            ).undo_states().last() && final(self).undo_states() == old(
                self,
            ).undo_states().drop_last() && final(self).redo_states() == old(
                self,
            ).redo_states().push(current_state@),
            final(self).saved_text() == old(self).saved_text(),
            final(self).wf(),
    {
        match self.undo_stack.pop_back() {
            Some(previous_state) => {
                let ghost mid = self.redo_stack@;
                self.redo_stack.push_back(current_state);
                assert(self.undo_states() =~= old(self).undo_states().drop_last());
                assert(self.redo_states() =~= old(self).redo_states().push(current_state@));
                assert(old(self).undo_states().last() == previous_state@);
                Some(previous_state)
            },
            None => None,
        }
    }

    /// Takes the newest redo snapshot, recording `current_state` for undo.
    pub fn redo(&mut self, current_state: EditorState) -> (r: Option<EditorState>)
        requires
            old(self).wf(),
            current_state@.wf(),
        ensures
            old(self).redo_states().len() == 0 ==> r.is_none() && final(self).undo_states()
                == old(self).undo_states() && final(self).redo_states() == old(
                self,
            ).redo_states(),
            old(self).redo_states().len() > 0 ==> r.is_some() && r.unwrap()@ == old(
                self,
            ).redo_states().last() && final(self).redo_states() == old(
                self,
            ).redo_states().drop_last() && final(self).undo_states() == old(
                self,
            ).undo_states().push(current_state@),
            final(self).saved_text() == old(self).saved_text(),
            final(self).wf(),
    {
        match self.redo_stack.pop_back() {
            Some(next_state) => {
                self.undo_stack.push_back(current_state);
                assert(self.redo_states() =~= old(self).redo_states().drop_last());
                assert(self.undo_states() =~= old(self).undo_states().push(current_state@));
                assert(old(self).redo_states().last() == next_state@);
                Some(next_state)
            },
            None => None,
        }
    }

    /// Records `state` as the saved one.
    pub fn mark_saved(&mut self, state: EditorState)
        requires
            old(self).wf(),
        ensures
            final(self).saved_text() == Some(state@.text),
            final(self).undo_states() == old(self).undo_states(),
            final(self).redo_states() == old(self).redo_states(),
            final(self).wf(),
    {
        self.last_saved_state = Some(state);
    }

    /// Whether `current_state`'s text differs from the saved one; with
    /// nothing saved, whether it has any text.
    pub fn is_modified(&self, current_state: &EditorState) -> (r: bool)
        ensures
            r == match self.saved_text() {
                Some(t) => t != current_state@.text,
                None => current_state@.text.len() > 0,
            },
    {
        match &self.last_saved_state {
            Some(saved) => !rope_eq(&saved.content, &current_state.content),
            None => rope_len_chars(&current_state.content) != 0,
        }
    }

    pub fn can_undo(&self) -> (r: bool)
        ensures
            r == (self.undo_states().len() > 0),
    {
        self.undo_stack.len() != 0
    }

    pub fn can_redo(&self) -> (r: bool)
        ensures
            r == (self.redo_states().len() > 0),
    {
        self.redo_stack.len() != 0
    }

    /// Forgets both histories.
    pub fn clear(&mut self)
        ensures
            final(self).undo_states() == Seq::<StateView>::empty(),
            final(self).redo_states() == Seq::<StateView>::empty(),
            final(self).saved_text() == old(self).saved_text(),
            final(self).wf(),
    {
        self.undo_stack.clear();
        self.redo_stack.clear();
        assert(self.undo_states() =~= Seq::<StateView>::empty());
        assert(self.redo_states() =~= Seq::<StateView>::empty());
    }
}

impl Default for UndoManager {
    fn default() -> (m: UndoManager)
        ensures
            m.undo_states() == Seq::<StateView>::empty(),
            m.redo_states() == Seq::<StateView>::empty(),
            m.wf(),
    {
        UndoManager::new()
    }
}

/// Relies on `Rope`'s `PartialEq`: two ropes are equal when they hold the
/// same characters.
#[verifier::external_body]
fn rope_eq(a: &Rope, b: &Rope) -> (r: bool)
    ensures
        r == (rope_text(*a) == rope_text(*b)),
{
    a == b
}

} // verus!
