//! The submission gate: a bounded queue of entries that wait for the kernel.
//!
//! The queue takes at most as many entries as the depth it was made with. A
//! push onto a full queue is refused at once and leaves the queue as it was;
//! nothing is retried. A flush hands all waiting entries over, oldest first.
//!
//! What was handed over sits in the kernel's own queue until the kernel
//! accepts it, and keeps its place until then: the kernel's answer to a
//! flush says how many entries it accepted, or that it refused the flush.
//! A refused entry is not lost. It stays in the kernel's queue and is taken
//! with the next flush that the kernel accepts.

use crate::entry::SubmissionEntry;
use crate::error::Error;
use vstd::prelude::*;

verus! {

/// A gate as its depth, the entries that wait, oldest first, and the number
/// of entries that were handed over and that the kernel has not accepted yet.
pub struct GateView {
    pub depth: nat,
    pub pending: Seq<SubmissionEntry>,
    pub handed: nat,
}

impl GateView {
    /// The depth is positive and the queue holds no more than it.
    pub open spec fn wf(self) -> bool {
        &&& 0 < self.depth <= u32::MAX
        &&& self.pending.len() + self.handed <= self.depth
    }

    /// An empty gate of the given depth.
    pub open spec fn empty(depth: nat) -> GateView {
        GateView { depth, pending: Seq::empty(), handed: 0 }
    }

    /// Whether the entries that wait and those not yet accepted are as many
    /// as the depth.
    pub open spec fn is_full(self) -> bool {
        self.pending.len() + self.handed >= self.depth
    }

    /// How many more entries the queue takes.
    pub open spec fn room(self) -> nat {
        if self.is_full() {
            0
        } else {
            (self.depth - self.pending.len() - self.handed) as nat
        }
    }

    /// What a push answers.
    pub open spec fn push_result(self) -> Result<(), Error> {
        if self.is_full() {
            Err(Error::QueueFull)
        } else {
            Ok(())
        }
    }

    /// This queue after a push of `entry`: unchanged if it was full.
    pub open spec fn push(self, entry: SubmissionEntry) -> GateView {
        if self.is_full() {
            self
        } else {
            GateView {
                depth: self.depth,
                pending: self.pending.push(entry),
                handed: self.handed,
            }
        }
    }

    /// This queue after one push of each of `entries`, in order.
    pub open spec fn push_all(self, entries: Seq<SubmissionEntry>) -> GateView
        decreases entries.len(),
    {
        if entries.len() == 0 {
            self
        } else {
            self.push_all(entries.drop_last()).push(entries.last())
        }
    }

    /// This queue after a flush: what waited is handed over.
    pub open spec fn flush(self) -> GateView {
        GateView {
            depth: self.depth,
            pending: Seq::empty(),
            handed: self.handed + self.pending.len(),
        }
    }

    /// This queue after the kernel answered a flush. Accepted entries leave
    /// the kernel's queue; after a refusal all stay where they are.
    pub open spec fn acknowledge(self, answer: Result<u32, i32>) -> GateView {
        match answer {
            Ok(accepted) => GateView {
                depth: self.depth,
                pending: self.pending,
                handed: if accepted <= self.handed {
                    (self.handed - accepted) as nat
                } else {
                    0
                },
            },
            Err(_) => self,
        }
    }
}

/// What the caller of a flush is told, given the kernel's answer: the number
/// of entries accepted, or the kernel's error code.
pub open spec fn flush_result(answer: Result<u32, i32>) -> Result<u32, Error> {
    match answer {
        Ok(accepted) => Ok(accepted),
        Err(code) => Err(Error::SubmitFailed { code }),
    }
}

/// The bounded queue of entries that wait for the kernel.
pub struct Gate {
    depth: u32,
    pending: Vec<SubmissionEntry>,
    handed: u32,
}

impl View for Gate {
    type V = GateView;

    closed spec fn view(&self) -> GateView {
        GateView {
            depth: self.depth as nat,
            pending: self.pending@,
            handed: self.handed as nat,
        }
    }
}

impl Gate {
    /// The representation invariant.
    pub open spec fn wf(&self) -> bool {
        self@.wf()
    }

    /// An empty gate that takes `depth` entries. A depth of zero is refused.
    pub fn new(depth: u32) -> (result: Result<Gate, Error>)
        ensures
            depth == 0 ==> result is Err && result->Err_0 == Error::InvalidDepth,
            depth > 0 ==> result is Ok && result->Ok_0.wf() && result->Ok_0@ == GateView::empty(
                depth as nat,
            ),
    {
        if depth == 0 {
            return Err(Error::InvalidDepth);
        }
        Ok(Gate { depth, pending: Vec::new(), handed: 0 })
    }

    /// The depth that was fixed when the queue was made.
    pub fn depth(&self) -> (depth: u32)
        ensures
            depth == self@.depth,
    {
        self.depth
    }

    /// Number of entries that wait.
    pub fn len(&self) -> (len: usize)
        ensures
            len == self@.pending.len(),
    {
        self.pending.len()
    }

    /// Number of entries that were handed over and not accepted yet.
    pub fn handed(&self) -> (handed: u32)
        ensures
            handed == self@.handed,
    {
        self.handed
    }

    /// Whether a push would be refused.
    pub fn is_full(&self) -> (full: bool)
        requires
            self.wf(),
        ensures
            full == self@.is_full(),
    {
        self.pending.len() >= (self.depth - self.handed) as usize
    }

    /// The entries that wait, oldest first.
    pub fn pending(&self) -> (entries: &Vec<SubmissionEntry>)
        ensures
            entries@ == self@.pending,
    {
        &self.pending
    }

    /// Appends `entry` to the queue, or refuses it with `QueueFull` and
    /// leaves the queue as it was.
    pub fn push(&mut self, entry: SubmissionEntry) -> (result: Result<(), Error>)
        requires
            old(self).wf(),
        ensures
            final(self).wf(),
            result == old(self)@.push_result(),
            final(self)@ == old(self)@.push(entry),
    {
        if self.is_full() {
            return Err(Error::QueueFull);
        }
        self.pending.push(entry);
        Ok(())
    }

    /// Takes all waiting entries out of the queue, oldest first, to be put
    /// into the kernel's queue in that order. They count as handed over
    /// until the kernel's answer is acknowledged.
    pub fn flush(&mut self) -> (batch: Vec<SubmissionEntry>)
        requires
            old(self).wf(),
        ensures
            final(self).wf(),
            batch@ == old(self)@.pending,
            final(self)@ == old(self)@.flush(),
    {
        let mut batch: Vec<SubmissionEntry> = Vec::new();
        std::mem::swap(&mut batch, &mut self.pending);
        let count: usize = batch.len();
        self.handed = self.handed + count as u32;
        batch
    }

    /// Takes the kernel's answer to a flush: the number of entries that it
    /// accepted, or its error code. Accepted entries free their places. A
    /// refusal is passed on with its code and changes nothing; neither is
    /// anything retried.
    pub fn acknowledge(&mut self, answer: Result<u32, i32>) -> (result: Result<u32, Error>)
        requires
            old(self).wf(),
        ensures
            final(self).wf(),
            result == flush_result(answer),
            final(self)@ == old(self)@.acknowledge(answer),
    {
        match answer {
            Ok(accepted) => {
                if accepted <= self.handed {
                    self.handed = self.handed - accepted;
                } else {
                    self.handed = 0;
                }
                Ok(accepted)
            },
            Err(code) => Err(Error::SubmitFailed { code }),
        }
    }
}

/// How many of `count` pushes a gate with `room` free places accepts.
pub open spec fn accepted(room: nat, count: nat) -> nat {
    if count <= room {
        count
    } else {
        room
    }
}

/// Pushing more entries than the queue has room for, with no flush in
/// between: the entries that fit are queued in order, every further push is
/// refused with `QueueFull`, and a refused push leaves the queue as it was.
pub proof fn lemma_overflow_is_refused(gate: GateView, entries: Seq<SubmissionEntry>)
    requires
        gate.wf(),
    ensures
        gate.push_all(entries).wf(),
        gate.push_all(entries).depth == gate.depth,
        gate.push_all(entries).handed == gate.handed,
        gate.push_all(entries).pending == gate.pending + entries.take(
            accepted(gate.room(), entries.len()) as int,
        ),
        forall|k: int|
            0 <= k < entries.len() ==> (#[trigger] gate.push_all(entries.take(k))).push_result()
                == (if k < gate.room() {
                Ok::<(), Error>(())
            } else {
                Err::<(), Error>(Error::QueueFull)
            }),
        forall|k: int|
            gate.room() <= k < entries.len() ==> (#[trigger] gate.push_all(entries.take(k))).push(
                entries[k],
            ) == gate.push_all(entries.take(k)),
    decreases entries.len(),
{
    if entries.len() == 0 {
        assert(gate.pending + entries.take(0) =~= gate.pending);
    } else {
        let front = entries.drop_last();
        let n = front.len() as int;
        lemma_overflow_is_refused(gate, front);
        let before = gate.push_all(front);
        assert(before.pending == gate.pending + front.take(
            accepted(gate.room(), front.len()) as int,
        ));
        if n < gate.room() {
            assert(front.take(n) =~= front);
            assert(entries.take(n + 1) =~= entries);
            assert(gate.pending + entries =~= (gate.pending + front).push(entries.last()));
        } else {
            assert(entries.take(gate.room() as int) =~= front.take(gate.room() as int));
        }
        assert forall|k: int| 0 <= k < entries.len() implies (#[trigger] gate.push_all(
            entries.take(k),
        )).push_result() == (if k < gate.room() {
            Ok::<(), Error>(())
        } else {
            Err::<(), Error>(Error::QueueFull)
        }) by {
            if k < n {
                assert(entries.take(k) =~= front.take(k));
            } else {
                assert(entries.take(k) =~= front);
            }
        }
        assert forall|k: int| gate.room() <= k < entries.len() implies (#[trigger] gate.push_all(
            entries.take(k),
        )).push(entries[k]) == gate.push_all(entries.take(k)) by {
            if k < n {
                assert(entries.take(k) =~= front.take(k));
                assert(entries[k] == front[k]);
            } else {
                assert(entries.take(k) =~= front);
            }
        }
    }
}

} // verus!
