//! The open buffers, in order, and which one is current.
use crate::buffer::TextBuffer;
use vstd::prelude::*;

verus! {

/// Buffer `b` was read from `path`.
pub open spec fn opened_from(b: TextBuffer, path: Seq<char>) -> bool {
    match b.file_path {
        Some(p) => p@ == path,
        None => false,
    }
}

pub struct BufferManager {
    buffers: Vec<TextBuffer>,
    current_index: usize,
}

impl BufferManager {
    /// The buffers, in the order they were opened.
    pub closed spec fn buffer_seq(&self) -> Seq<TextBuffer> {
        self.buffers@
    }

    /// Index of the current buffer.
    pub closed spec fn index(&self) -> nat {
        self.current_index as nat
    }

    /// There is a buffer and the current index names one.
    pub open spec fn wf(&self) -> bool {
        &&& self.buffer_seq().len() > 0
        &&& self.index() < self.buffer_seq().len()
    }

    /// One empty buffer.
    pub fn new() -> (m: BufferManager)
        ensures
            m.buffer_seq().len() == 1,
            m.buffer_seq()[0].text() == Seq::<char>::empty(),
            m.buffer_seq()[0].wf(),
            m.index() == 0,
            m.wf(),
    {
        let mut buffers = Vec::new();
        buffers.push(TextBuffer::new());
        BufferManager { buffers, current_index: 0 }
    }

    pub fn current(&self) -> (b: &TextBuffer)
        requires
            self.wf(),
        ensures
            *b == self.buffer_seq()[self.index() as int],
    {
        &self.buffers[self.current_index]
    }

    pub fn current_mut(&mut self) -> (b: &mut TextBuffer)
        requires
            old(self).wf(),
        ensures
            *b == old(self).buffer_seq()[old(self).index() as int],
            final(self).buffer_seq() == old(self).buffer_seq().update(old(self).index() as int, *final(b)),
            final(self).index() == old(self).index(),
            final(self).wf(),
    {
        let i = self.current_index;
        &mut self.buffers[i]
    }

    /// Index of the first buffer read from `path`.
    pub fn find_by_path(&self, path: &str) -> (r: Option<usize>)
        ensures
            r is Some ==> r->Some_0 < self.buffer_seq().len() && opened_from(self.buffer_seq()[r->Some_0 as int], path@)
                && forall|k: int| 0 <= k < r->Some_0 ==> !opened_from(#[trigger] self.buffer_seq()[k], path@),
            r is None ==> forall|k: int| 0 <= k < self.buffer_seq().len() ==> !opened_from(#[trigger] self.buffer_seq()[k], path@),
    {
        let p = path.to_owned();
        let mut i: usize = 0;
        while i < self.buffers.len()
            invariant
                i <= self.buffers@.len(),
                p@ == path@,
                forall|k: int| 0 <= k < i ==> !opened_from(#[trigger] self.buffers@[k], path@),
            decreases self.buffers@.len() - i,
        {
            match &self.buffers[i].file_path {
                Some(q) => {
                    if *q == p {
                        return Some(i);
                    }
                },
                None => {},
            }
            i = i + 1;
        }
        None
    }

    /// Opens `buffer` after the others and makes it current: the part of
    /// opening a file that follows reading it, when `find_by_path` found no
    /// buffer for it.
    pub fn add_buffer(&mut self, buffer: TextBuffer)
        requires
            old(self).wf(),
        ensures
            final(self).buffer_seq() == old(self).buffer_seq().push(buffer),
            final(self).index() == old(self).buffer_seq().len(),
            final(self).wf(),
    {
        self.buffers.push(buffer);
        self.current_index = self.buffers.len() - 1;
    }

    /// Opens an empty buffer after the others and makes it current.
    pub fn new_buffer(&mut self)
        requires
            old(self).wf(),
        ensures
            final(self).buffer_seq().len() == old(self).buffer_seq().len() + 1,
            final(self).buffer_seq().drop_last() == old(self).buffer_seq(),
            final(self).buffer_seq().last().text() == Seq::<char>::empty(),
            final(self).index() == old(self).buffer_seq().len(),
            final(self).wf(),
    {
        self.buffers.push(TextBuffer::new());
        self.current_index = self.buffers.len() - 1;
        proof {
            assert(self.buffers@.drop_last() =~= old(self).buffers@);
        }
    }

    /// Closes the current buffer; the last one left is emptied instead.
    /// True when a buffer was closed.
    pub fn close_current(&mut self) -> (closed: bool)
        requires
            old(self).wf(),
        ensures
            closed == (old(self).buffer_seq().len() > 1),
            closed ==> final(self).buffer_seq() == old(self).buffer_seq().remove(old(self).index() as int)
                && final(self).index() == if old(self).index() < final(self).buffer_seq().len() {
                old(self).index()
            } else {
                (final(self).buffer_seq().len() - 1) as nat
            },
            !closed ==> final(self).buffer_seq().len() == 1 && final(self).buffer_seq()[0].text()
                == Seq::<char>::empty() && final(self).index() == 0,
            final(self).wf(),
    {
        if self.buffers.len() == 1 {
            self.buffers.set(0, TextBuffer::new());
            false
        } else {
            self.buffers.remove(self.current_index);
            if self.current_index >= self.buffers.len() {
                self.current_index = self.buffers.len() - 1;
            }
            true
        }
    }

    /// Makes the next buffer current, the first after the last.
    pub fn next_buffer(&mut self)
        requires
            old(self).wf(),
        ensures
            final(self).index() == (old(self).index() as int + 1) % (old(self).buffer_seq().len() as int),
            final(self).buffer_seq() == old(self).buffer_seq(),
            final(self).wf(),
    {
        let n = self.buffers.len();
        let ghost a = self.index() as int;
        if self.current_index + 1 < n {
            self.current_index = self.current_index + 1;
            proof {
                assert((a + 1) % (n as int) == a + 1) by (nonlinear_arith)
                    requires a + 1 < n, a >= 0;
            }
        } else {
            self.current_index = 0;
            proof {
                assert((a + 1) % (n as int) == 0) by (nonlinear_arith)
                    requires a + 1 == n, n > 0;
            }
        }
    }

    /// Makes the previous buffer current, the last before the first.
    pub fn previous_buffer(&mut self)
        requires
            old(self).wf(),
        ensures
            final(self).index() == if old(self).index() == 0 {
                (old(self).buffer_seq().len() - 1) as nat
            } else {
                (old(self).index() - 1) as nat
            },
            final(self).buffer_seq() == old(self).buffer_seq(),
            final(self).wf(),
    {
        if self.current_index == 0 {
            self.current_index = self.buffers.len() - 1;
        } else {
            self.current_index = self.current_index - 1;
        }
    }

    /// Makes the buffer at `index` current; false when there is none.
    pub fn go_to_buffer(&mut self, index: usize) -> (r: bool)
        requires
            old(self).wf(),
        ensures
            r == (index < old(self).buffer_seq().len()),
            final(self).index() == if r { index as nat } else { old(self).index() },
            final(self).buffer_seq() == old(self).buffer_seq(),
            final(self).wf(),
    {
        if index < self.buffers.len() {
            self.current_index = index;
            true
        } else {
            false
        }
    }

    pub fn buffer_count(&self) -> (n: usize)
        ensures
            n == self.buffer_seq().len(),
    {
        self.buffers.len()
    }

    /// The current buffer's number, counting from 1.
    pub fn current_buffer_index(&self) -> (n: usize)
        requires
            self.wf(),
        ensures
            n == self.index() + 1,
    {
        let _ = self.buffers.len();
        self.current_index + 1
    }

    /// Indices of the buffers with unsaved changes, in order.
    pub fn has_unsaved_buffers(&self) -> (v: Vec<usize>)
        ensures
            forall|k: int| 0 <= k < v@.len() ==> (#[trigger] v@[k]) < self.buffer_seq().len() && self.buffer_seq()[v@[k] as int].modified,
            forall|a: int, b: int| 0 <= a < b < v@.len() ==> (#[trigger] v@[a]) < (#[trigger] v@[b]),
            forall|i: int| 0 <= i < self.buffer_seq().len() && (#[trigger] self.buffer_seq()[i]).modified ==> v@.contains(i as usize),
    {
        let mut v: Vec<usize> = Vec::new();
        let mut i: usize = 0;
        while i < self.buffers.len()
            invariant
                i <= self.buffers@.len(),
                forall|k: int| 0 <= k < v@.len() ==> (#[trigger] v@[k]) < i && self.buffers@[v@[k] as int].modified,
                forall|a: int, b: int| 0 <= a < b < v@.len() ==> (#[trigger] v@[a]) < (#[trigger] v@[b]),
                forall|j: int| 0 <= j < i && (#[trigger] self.buffers@[j]).modified ==> v@.contains(j as usize),
            decreases self.buffers@.len() - i,
        {
            if self.buffers[i].modified {
                let ghost before = v@;
                v.push(i);
                proof {
                    assert forall|j: int| 0 <= j < i + 1 && (#[trigger] self.buffers@[j]).modified implies v@.contains(j as usize) by {
                        if j < i {
                            let k = choose|k: int| 0 <= k < before.len() && before[k] == j as usize;
                            assert(v@[k] == j as usize);
                        } else {
                            assert(v@[v@.len() - 1] == i);
                        }
                    }
                }
            }
            i = i + 1;
        }
        v
    }
}

} // verus!
