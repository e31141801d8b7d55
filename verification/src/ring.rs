//! The ring handle and its operations.
//!
//! A `Ring` is the part of an I/O ring that lives on this side of the
//! kernel: the submission gate and the tracker of auxiliary allocations. It
//! decides; it performs no I/O. Each operation encodes its entry and pushes
//! it onto its gate. Entries leave the ring in batches, oldest first, when
//! the caller submits or when an operation's policy asks for it. Whoever
//! drives the kernel ring puts each batch into the kernel's queue in that
//! order, flushes, and brings the kernel's answer back to `acknowledge`.

use crate::entry::{
    null_terminated, open_entry, policy_of, read_entry, stat_entry, submission_policy,
    tags_of, terminable, write_entry, cancel_entry, is_read_vectored, kind_of, MemoryRegion,
    Operation,
    SubmissionEntry, SubmitPolicy,
};
use crate::error::Error;
use crate::gate::{flush_result, Gate, GateView};
use crate::platform::{open_block_size, OPEN_BLOCK_SIZE, STAT_BUFFER_SIZE};
use crate::tracker::{Payload, Stage, Tracker, TrackerView};
use vstd::prelude::*;

verus! {

/// The ring as the views of its gate and its tracker.
pub struct RingView {
    pub gate: GateView,
    pub tracker: TrackerView,
}

impl RingView {
    /// A ring of the given depth with no entry and no allocation.
    pub open spec fn empty(depth: nat) -> RingView {
        RingView { gate: GateView::empty(depth), tracker: TrackerView::empty() }
    }

    /// Whether `handle` names a live allocation of the operation `owner` at
    /// the given stage.
    pub open spec fn holds(self, handle: u64, owner: u64, stage: Stage) -> bool {
        &&& self.tracker.live.contains_key(handle)
        &&& self.tracker.live[handle].owner == owner
        &&& self.tracker.live[handle].stage == stage
    }

    /// Whether the storage that `entry` refers to is live, of the right kind
    /// and at the given stage.
    pub open spec fn carries(self, entry: SubmissionEntry, stage: Stage) -> bool {
        match entry.operation {
            Operation::Stat { path, .. } => {
                &&& self.tracker.is_text(path)
                &&& self.holds(path, entry.tag, stage)
            },
            Operation::Open { path, block, .. } => {
                &&& self.tracker.is_text(path)
                &&& self.holds(path, entry.tag, stage)
                &&& self.tracker.is_block(block)
                &&& self.holds(block, entry.tag, stage)
            },
            _ => true,
        }
    }

    /// Gate and tracker are well formed, and what a waiting entry refers to
    /// is staged.
    pub open spec fn wf(self) -> bool {
        &&& self.gate.wf()
        &&& self.tracker.wf()
        &&& forall|i: int|
            0 <= i < self.gate.pending.len() ==> self.carries(
                #[trigger] self.gate.pending[i],
                Stage::Staged,
            )
    }

    /// The ring after a push of `entry` onto a gate with room.
    pub open spec fn enqueue(self, entry: SubmissionEntry) -> RingView {
        RingView { gate: self.gate.push(entry), tracker: self.tracker }
    }

    /// The ring after all waiting entries were handed to the kernel: they
    /// sit in the kernel's queue, and they and what they refer to are in
    /// flight.
    pub open spec fn submit(self) -> RingView {
        RingView {
            gate: self.gate.flush(),
            tracker: self.tracker.submit(tags_of(self.gate.pending)),
        }
    }

    /// The ring after the kernel answered a flush.
    pub open spec fn acknowledge(self, answer: Result<u32, i32>) -> RingView {
        RingView { gate: self.gate.acknowledge(answer), tracker: self.tracker }
    }

    /// The ring after a completion with `tag` was harvested.
    pub open spec fn complete(self, tag: u64) -> RingView {
        RingView { gate: self.gate, tracker: self.tracker.complete(tag) }
    }

    /// The ring after the allocation `handle` was freed.
    pub open spec fn release(self, handle: u64) -> RingView {
        RingView { gate: self.gate, tracker: self.tracker.release(handle) }
    }

    /// Why a read or a write with `buffer` is refused, if it is.
    pub open spec fn transfer_refusal(self, buffer: MemoryRegion) -> Option<Error> {
        if buffer.length > u32::MAX {
            Some(Error::RegionTooLarge)
        } else if self.gate.is_full() {
            Some(Error::QueueFull)
        } else {
            None
        }
    }

    /// Why a vectored read into `blocks` blocks is refused, if it is.
    pub open spec fn vectored_refusal(self, blocks: nat) -> Option<Error> {
        if blocks > u32::MAX {
            Some(Error::TooManyBlocks)
        } else if self.gate.is_full() {
            Some(Error::QueueFull)
        } else {
            None
        }
    }

    /// Why a stat of `path` into `buffer` is refused, if it is.
    pub open spec fn stat_refusal(self, path: Seq<u8>, buffer: MemoryRegion) -> Option<Error> {
        if !terminable(path) {
            Some(Error::InvalidPath)
        } else if buffer.length < STAT_BUFFER_SIZE {
            Some(Error::RegionTooSmall)
        } else if self.gate.is_full() {
            Some(Error::QueueFull)
        } else if !self.tracker.can_issue(1) {
            Some(Error::HandlesExhausted)
        } else {
            None
        }
    }

    /// The ring after a stat of `path` was accepted: the terminated path is
    /// staged under a new handle and the entry waits in the queue.
    pub open spec fn stat(self, tag: u64, path: Seq<u8>, buffer: MemoryRegion) -> RingView {
        RingView {
            gate: self.gate.push(stat_entry(tag, self.tracker.next_handle(), buffer.address)),
            tracker: self.tracker.track(tag, Payload::Text(path.push(0))),
        }
    }

    /// Why an open of `path` is refused, if it is.
    pub open spec fn open_refusal(self, path: Seq<u8>) -> Option<Error> {
        if !terminable(path) {
            Some(Error::InvalidPath)
        } else if self.gate.is_full() {
            Some(Error::QueueFull)
        } else if !self.tracker.can_issue(2) {
            Some(Error::HandlesExhausted)
        } else {
            None
        }
    }

    /// The ring after an open of `path` was accepted, before the flush that
    /// its policy asks for: the terminated path and the parameter block are
    /// staged under two new handles and the entry waits in the queue.
    pub open spec fn open(self, tag: u64, path: Seq<u8>, flags: u64) -> RingView {
        let text = self.tracker.next_handle();
        let with_text = self.tracker.track(tag, Payload::Text(path.push(0)));
        let block = with_text.next_handle();
        RingView {
            gate: self.gate.push(open_entry(tag, text, block)),
            tracker: with_text.track(tag, Payload::Block { flags }),
        }
    }
}

/// What an accepted open gives back.
pub struct OpenTicket {
    /// Handle of the path text; free it with `free_text`.
    pub text: u64,
    /// Handle of the parameter block; free it with `free_block`.
    pub block: u64,
    /// Length of the parameter block, as `free_block` wants it.
    pub block_size: u64,
    /// The entries to hand to the kernel at once, oldest first. The open is
    /// the last of them.
    pub batch: Vec<SubmissionEntry>,
}

/// What a destroyed ring still held.
#[derive(Clone, Copy, Debug, PartialEq, Eq, Structural)]
pub struct Leftover {
    /// Entries that were pushed and never submitted.
    pub entries: usize,
    /// Entries that were submitted and that the kernel never accepted.
    pub unaccepted: usize,
    /// Auxiliary allocations that were never freed.
    pub allocations: usize,
}

/// One ring: a submission gate of fixed depth and the tracker of the
/// auxiliary allocations that its operations refer to.
pub struct Ring {
    gate: Gate,
    tracker: Tracker,
}

impl View for Ring {
    type V = RingView;

    closed spec fn view(&self) -> RingView {
        RingView { gate: self.gate@, tracker: self.tracker@ }
    }
}

proof fn lemma_untouched_stay_staged(before: RingView, after: RingView)
    requires
        before.wf(),
        after.gate.pending.len() >= before.gate.pending.len(),
        forall|i: int|
            0 <= i < before.gate.pending.len() ==> #[trigger] after.gate.pending[i]
                == before.gate.pending[i],
        forall|h: u64|
            (#[trigger] before.tracker.live.contains_key(h)) && before.tracker.live[h].stage
                == Stage::Staged ==> after.tracker.live.contains_key(h) && after.tracker.live[h]
                == before.tracker.live[h],
    ensures
        forall|i: int|
            0 <= i < before.gate.pending.len() ==> after.carries(
                #[trigger] after.gate.pending[i],
                Stage::Staged,
            ),
{
    assert forall|i: int| 0 <= i < before.gate.pending.len() implies after.carries(
        #[trigger] after.gate.pending[i],
        Stage::Staged,
    ) by {
        let entry = before.gate.pending[i];
        assert(before.carries(entry, Stage::Staged));
        match entry.operation {
            Operation::Stat { path, .. } => {
                assert(before.tracker.live.contains_key(path));
            },
            Operation::Open { path, block, .. } => {
                assert(before.tracker.live.contains_key(path));
                assert(before.tracker.live.contains_key(block));
            },
            _ => {},
        }
    }
}

impl Ring {
    /// The representation invariant.
    pub closed spec fn wf(&self) -> bool {
        &&& self.gate.wf()
        &&& self.tracker.wf()
        &&& self@.wf()
    }

    /// A well-formed ring has a well-formed view.
    pub proof fn lemma_view_wf(&self)
        requires
            self.wf(),
        ensures
            self@.wf(),
    {
    }

    /// Makes the ring for a kernel ring that was requested with `depth`
    /// entries. `granted` is what the kernel answered: the number of entries
    /// of the ring it set up, or `None` if it set none up. A depth of zero is
    /// refused as invalid; a request that the kernel did not grant in full
    /// fails with `ResourceExhausted`.
    pub fn create(depth: u32, granted: Option<u32>) -> (result: Result<Ring, Error>)
        ensures
            match create_refusal(depth, granted) {
                Some(error) => result is Err && result->Err_0 == error,
                None => result is Ok && result->Ok_0.wf() && result->Ok_0@ == RingView::empty(
                    depth as nat,
                ),
            },
    {
        let gate = match Gate::new(depth) {
            Ok(gate) => gate,
            Err(error) => {
                return Err(error);
            },
        };
        match granted {
            None => Err(Error::ResourceExhausted),
            Some(entries) => {
                if entries < depth {
                    Err(Error::ResourceExhausted)
                } else {
                    let tracker = Tracker::new();
                    proof {
                        tracker.lemma_view_wf();
                    }
                    Ok(Ring { gate, tracker })
                }
            },
        }
    }

    /// Gives the ring up and reports what it still held: the entries that
    /// were never submitted, the entries that the kernel never accepted and
    /// the allocations that were never freed. All are dropped with the ring.
    pub fn destroy(self) -> (leftover: Leftover)
        requires
            self.wf(),
        ensures
            leftover.entries == self@.gate.pending.len(),
            leftover.unaccepted == self@.gate.handed,
            leftover.allocations == self@.tracker.live.len(),
    {
        Leftover {
            entries: self.gate.len(),
            unaccepted: self.gate.handed() as usize,
            allocations: self.tracker.live_count(),
        }
    }

    /// The depth the ring was made with.
    pub fn depth(&self) -> (depth: u32)
        ensures
            depth == self@.gate.depth,
    {
        self.gate.depth()
    }

    /// Number of entries that wait for the next submit.
    pub fn pending(&self) -> (count: usize)
        ensures
            count == self@.gate.pending.len(),
    {
        self.gate.len()
    }

    /// Number of entries that were submitted and that the kernel has not
    /// accepted yet.
    pub fn unaccepted(&self) -> (count: u32)
        ensures
            count == self@.gate.handed,
    {
        self.gate.handed()
    }

    /// Number of entries in flight under `tag`: handed to the kernel and not
    /// yet completed.
    pub fn in_flight(&self, tag: u64) -> (count: usize)
        ensures
            count == self@.tracker.flying.count(tag),
    {
        self.tracker.in_flight(tag)
    }

    fn enter(&mut self, entry: SubmissionEntry) -> (batch: Vec<SubmissionEntry>)
        requires
            old(self).gate.wf(),
            old(self).tracker.wf(),
            !old(self)@.gate.is_full(),
            old(self)@.enqueue(entry).wf(),
        ensures
            final(self).wf(),
            policy_of(kind_of(entry.operation)) == SubmitPolicy::Deferred ==> {
                &&& batch@ == Seq::<SubmissionEntry>::empty()
                &&& final(self)@ == old(self)@.enqueue(entry)
            },
            policy_of(kind_of(entry.operation)) == SubmitPolicy::Immediate ==> {
                &&& batch@ == old(self)@.gate.pending.push(entry)
                &&& final(self)@ == old(self)@.enqueue(entry).submit()
            },
            forall|i: int|
                0 <= i < batch@.len() ==> final(self)@.carries(
                    #[trigger] batch@[i],
                    Stage::InFlight,
                ),
    {
        let policy = submission_policy(entry.kind());
        let pushed = self.gate.push(entry);
        assert(pushed is Ok);
        match policy {
            SubmitPolicy::Deferred => Vec::new(),
            SubmitPolicy::Immediate => self.flush(),
        }
    }

    fn flush(&mut self) -> (batch: Vec<SubmissionEntry>)
        requires
            old(self).wf(),
        ensures
            final(self).wf(),
            batch@ == old(self)@.gate.pending,
            final(self)@ == old(self)@.submit(),
            forall|i: int|
                0 <= i < batch@.len() ==> final(self)@.carries(
                    #[trigger] batch@[i],
                    Stage::InFlight,
                ),
    {
        let batch = self.gate.flush();
        self.tracker.submit(collect_tags(&batch));
        proof {
            self.tracker.lemma_view_wf();
            let before = old(self)@;
            let after = self@;
            assert forall|i: int| 0 <= i < batch@.len() implies after.carries(
                #[trigger] batch@[i],
                Stage::InFlight,
            ) by {
                assert(before.carries(before.gate.pending[i], Stage::Staged));
            }
        }
        batch
    }

    /// Queues a read of `fd` at `offset` into `buffer`, tagged `tag`. If
    /// `linked`, the entry queued next will not start before this read has
    /// completed.
    pub fn read(
        &mut self,
        tag: u64,
        fd: i32,
        offset: u64,
        buffer: MemoryRegion,
        linked: bool,
    ) -> (result: Result<(), Error>)
        requires
            old(self).wf(),
        ensures
            final(self).wf(),
            match old(self)@.transfer_refusal(buffer) {
                Some(error) => result == Err::<(), Error>(error) && final(self)@ == old(self)@,
                None => result == Ok::<(), Error>(()) && final(self)@ == old(self)@.enqueue(
                    read_entry(tag, fd, offset, buffer, linked),
                ),
            },
    {
        let entry = match SubmissionEntry::read(tag, fd, offset, buffer, linked) {
            Ok(entry) => entry,
            Err(error) => {
                return Err(error);
            },
        };
        if self.gate.is_full() {
            return Err(Error::QueueFull);
        }
        proof {
            lemma_untouched_stay_staged(self@, self@.enqueue(entry));
        }
        let _ = self.enter(entry);
        Ok(())
    }

    /// Queues a write of `buffer` to `fd` at `offset`, tagged `tag`. If
    /// `linked`, the entry queued next will not start before this write has
    /// completed.
    pub fn write(
        &mut self,
        tag: u64,
        fd: i32,
        offset: u64,
        buffer: MemoryRegion,
        linked: bool,
    ) -> (result: Result<(), Error>)
        requires
            old(self).wf(),
        ensures
            final(self).wf(),
            match old(self)@.transfer_refusal(buffer) {
                Some(error) => result == Err::<(), Error>(error) && final(self)@ == old(self)@,
                None => result == Ok::<(), Error>(()) && final(self)@ == old(self)@.enqueue(
                    write_entry(tag, fd, offset, buffer, linked),
                ),
            },
    {
        let entry = match SubmissionEntry::write(tag, fd, offset, buffer, linked) {
            Ok(entry) => entry,
            Err(error) => {
                return Err(error);
            },
        };
        if self.gate.is_full() {
            return Err(Error::QueueFull);
        }
        proof {
            lemma_untouched_stay_staged(self@, self@.enqueue(entry));
        }
        let _ = self.enter(entry);
        Ok(())
    }

    /// Queues a read of `fd` into the blocks at the given addresses, each
    /// `block_size` bytes long, tagged `tag`.
    pub fn read_vectored(
        &mut self,
        tag: u64,
        fd: i32,
        blocks: Vec<u64>,
        block_size: u64,
        linked: bool,
    ) -> (result: Result<(), Error>)
        requires
            old(self).wf(),
        ensures
            final(self).wf(),
            match old(self)@.vectored_refusal(blocks@.len()) {
                Some(error) => result == Err::<(), Error>(error) && final(self)@ == old(self)@,
                None => {
                    &&& result == Ok::<(), Error>(())
                    &&& final(self)@.tracker == old(self)@.tracker
                    &&& final(self)@.gate.depth == old(self)@.gate.depth
                    &&& final(self)@.gate.pending.len() == old(self)@.gate.pending.len() + 1
                    &&& final(self)@.gate.pending.drop_last() == old(self)@.gate.pending
                    &&& is_read_vectored(
                        final(self)@.gate.pending.last(),
                        tag,
                        fd,
                        blocks@,
                        block_size,
                        linked,
                    )
                },
            },
    {
        let entry = match SubmissionEntry::read_vectored(tag, fd, blocks, block_size, linked) {
            Ok(entry) => entry,
            Err(error) => {
                return Err(error);
            },
        };
        if self.gate.is_full() {
            return Err(Error::QueueFull);
        }
        proof {
            lemma_untouched_stay_staged(self@, self@.enqueue(entry));
            assert(self@.gate.pending.push(entry).drop_last() =~= self@.gate.pending);
        }
        let _ = self.enter(entry);
        Ok(())
    }

    /// Queues the cancellation of the operation tagged `target`. The
    /// cancellation is tagged `tag`; how it went is reported by its own
    /// completion.
    pub fn cancel(&mut self, tag: u64, target: u64) -> (result: Result<(), Error>)
        requires
            old(self).wf(),
        ensures
            final(self).wf(),
            result == old(self)@.gate.push_result(),
            final(self)@ == old(self)@.enqueue(cancel_entry(tag, target)),
    {
        if self.gate.is_full() {
            return Err(Error::QueueFull);
        }
        let entry = SubmissionEntry::cancel(tag, target);
        proof {
            lemma_untouched_stay_staged(self@, self@.enqueue(entry));
        }
        let _ = self.enter(entry);
        Ok(())
    }

    /// Queues a stat of `path`, relative to the working directory, into
    /// `buffer`, tagged `tag`. The path is null-terminated and the tracker
    /// takes the text over; the handle returned names it. The text must be
    /// freed with `free_text`, after the completion was harvested.
    pub fn stat_extended(&mut self, tag: u64, path: &[u8], buffer: MemoryRegion) -> (result: Result<
        u64,
        Error,
    >)
        requires
            old(self).wf(),
        ensures
            final(self).wf(),
            match old(self)@.stat_refusal(path@, buffer) {
                Some(error) => result == Err::<u64, Error>(error) && final(self)@ == old(self)@,
                None => {
                    &&& result == Ok::<u64, Error>(old(self)@.tracker.next_handle())
                    &&& final(self)@ == old(self)@.stat(tag, path@, buffer)
                },
            },
    {
        let text = match null_terminated(path) {
            Ok(text) => text,
            Err(error) => {
                return Err(error);
            },
        };
        if buffer.length < crate::platform::stat_buffer_size() {
            return Err(Error::RegionTooSmall);
        }
        if self.gate.is_full() {
            return Err(Error::QueueFull);
        }
        let handle = match self.tracker.track_text(tag, text) {
            Ok(handle) => handle,
            Err(error) => {
                return Err(error);
            },
        };
        let entry = match SubmissionEntry::stat(tag, handle, buffer) {
            Ok(entry) => entry,
            Err(error) => {
                return Err(error);
            },
        };
        proof {
            old(self).tracker.lemma_view_wf();
            self.tracker.lemma_view_wf();
            lemma_untouched_stay_staged(old(self)@, self@.enqueue(entry));
        }
        let _ = self.enter(entry);
        Ok(handle)
    }

    /// Queues an open of `path`, relative to the working directory, with the
    /// open `flags`, tagged `tag`, and flushes the queue at once, as the
    /// policy of an open asks. The path is null-terminated and the tracker
    /// takes over the text and the parameter block; the ticket names both and
    /// holds the batch for the kernel. Text and block must be freed with
    /// `free_text` and `free_block`, after the completion was harvested.
    pub fn open_extended(&mut self, tag: u64, path: &[u8], flags: u64) -> (result: Result<
        OpenTicket,
        Error,
    >)
        requires
            old(self).wf(),
        ensures
            final(self).wf(),
            match old(self)@.open_refusal(path@) {
                Some(error) => {
                    &&& result is Err
                    &&& result->Err_0 == error
                    &&& final(self)@ == old(self)@
                },
                None => {
                    &&& result is Ok
                    &&& result->Ok_0.text == old(self)@.tracker.next_handle()
                    &&& result->Ok_0.block == old(self)@.tracker.next_handle() + 1
                    &&& result->Ok_0.block_size == OPEN_BLOCK_SIZE
                    &&& result->Ok_0.batch@ == old(self)@.open(tag, path@, flags).gate.pending
                    &&& final(self)@ == old(self)@.open(tag, path@, flags).submit()
                    &&& forall|i: int|
                        0 <= i < result->Ok_0.batch@.len() ==> final(self)@.carries(
                            #[trigger] result->Ok_0.batch@[i],
                            Stage::InFlight,
                        )
                },
            },
    {
        let text = match null_terminated(path) {
            Ok(text) => text,
            Err(error) => {
                return Err(error);
            },
        };
        if self.gate.is_full() {
            return Err(Error::QueueFull);
        }
        if !self.tracker.can_issue(2) {
            return Err(Error::HandlesExhausted);
        }
        let text_handle = match self.tracker.track_text(tag, text) {
            Ok(handle) => handle,
            Err(error) => {
                return Err(error);
            },
        };
        let block_handle = match self.tracker.track_block(tag, flags) {
            Ok(handle) => handle,
            Err(error) => {
                return Err(error);
            },
        };
        let entry = SubmissionEntry::open(tag, text_handle, block_handle);
        proof {
            old(self).tracker.lemma_view_wf();
            self.tracker.lemma_view_wf();
            lemma_untouched_stay_staged(old(self)@, self@.enqueue(entry));
        }
        let batch = self.enter(entry);
        Ok(
            OpenTicket {
                text: text_handle,
                block: block_handle,
                block_size: open_block_size(),
                batch,
            },
        )
    }

    /// Takes all waiting entries out of the ring, oldest first, to be put
    /// into the kernel's queue in that order and flushed. They and what they
    /// refer to are in flight from now on. What the kernel answers to the
    /// flush goes to `acknowledge`.
    pub fn submit(&mut self) -> (batch: Vec<SubmissionEntry>)
        requires
            old(self).wf(),
        ensures
            final(self).wf(),
            batch@ == old(self)@.gate.pending,
            final(self)@ == old(self)@.submit(),
            forall|i: int|
                0 <= i < batch@.len() ==> final(self)@.carries(
                    #[trigger] batch@[i],
                    Stage::InFlight,
                ),
    {
        self.flush()
    }

    /// Takes the kernel's answer to a flush: the number of entries that it
    /// accepted, or its error code. On an answer the count is returned and
    /// the accepted entries free their places in the queue. A refusal comes
    /// back as `SubmitFailed` with the kernel's code, at once and without a
    /// retry, and changes nothing: the refused entries keep their places and
    /// stay in flight, for the kernel takes them with the next flush that it
    /// accepts.
    pub fn acknowledge(&mut self, answer: Result<u32, i32>) -> (result: Result<u32, Error>)
        requires
            old(self).wf(),
        ensures
            final(self).wf(),
            result == flush_result(answer),
            final(self)@ == old(self)@.acknowledge(answer),
    {
        let result = self.gate.acknowledge(answer);
        proof {
            lemma_untouched_stay_staged(old(self)@, self@);
        }
        result
    }

    /// Records that a completion with `tag` was harvested. One entry less is
    /// in flight under the tag. What the tag owns is released only if that
    /// was the last entry in flight under it: where several operations share
    /// a tag, their storage lives until all of them have completed.
    pub fn complete(&mut self, tag: u64)
        requires
            old(self).wf(),
        ensures
            final(self).wf(),
            final(self)@ == old(self)@.complete(tag),
    {
        self.tracker.complete(tag);
        proof {
            self.tracker.lemma_view_wf();
            lemma_untouched_stay_staged(old(self)@, self@);
        }
    }

    /// Frees the text `handle`. The completion of the operation that
    /// referred to it must have been harvested: before that the kernel may
    /// still read the text, and the call is refused with `StillInFlight`.
    pub fn free_text(&mut self, handle: u64) -> (result: Result<(), Error>)
        requires
            old(self).wf(),
        ensures
            final(self).wf(),
            match old(self)@.tracker.text_refusal(handle) {
                Some(error) => result == Err::<(), Error>(error) && final(self)@ == old(self)@,
                None => result == Ok::<(), Error>(()) && final(self)@ == old(self)@.release(
                    handle,
                ),
            },
    {
        let result = self.tracker.free_text(handle);
        proof {
            self.tracker.lemma_view_wf();
            lemma_untouched_stay_staged(old(self)@, self@);
        }
        result
    }

    /// Frees the parameter block `handle` of `length` bytes. The completion
    /// of the open that referred to it must have been harvested: before that
    /// the kernel may still read the block, and the call is refused with
    /// `StillInFlight`.
    pub fn free_block(&mut self, handle: u64, length: u64) -> (result: Result<(), Error>)
        requires
            old(self).wf(),
        ensures
            final(self).wf(),
            match old(self)@.tracker.block_refusal(handle, length) {
                Some(error) => result == Err::<(), Error>(error) && final(self)@ == old(self)@,
                None => result == Ok::<(), Error>(()) && final(self)@ == old(self)@.release(
                    handle,
                ),
            },
    {
        let result = self.tracker.free_block(handle, length);
        proof {
            self.tracker.lemma_view_wf();
            lemma_untouched_stay_staged(old(self)@, self@);
        }
        result
    }

    /// The bytes of the text `handle`, terminating zero included.
    pub fn text(&self, handle: u64) -> (found: Option<&Vec<u8>>)
        requires
            self.wf(),
        ensures
            match found {
                Some(bytes) => self@.tracker.is_text(handle) && self@.tracker.live[handle].payload
                    == Payload::Text(bytes@),
                None => !self@.tracker.is_text(handle),
            },
    {
        self.tracker.text(handle)
    }

    /// The parameter block `handle`.
    pub fn block(&self, handle: u64) -> (found: Option<&io_uring::types::OpenHow>)
        requires
            self.wf(),
        ensures
            found is Some <==> self@.tracker.is_block(handle),
    {
        self.tracker.block(handle)
    }
}

fn collect_tags(batch: &Vec<SubmissionEntry>) -> (tags: Vec<u64>)
    ensures
        tags@ == tags_of(batch@),
{
    let mut tags: Vec<u64> = Vec::new();
    let mut i: usize = 0;
    while i < batch.len()
        invariant
            i <= batch@.len(),
            tags@.len() == i,
            forall|k: int| 0 <= k < i ==> tags@[k] == batch@[k].tag,
        decreases batch@.len() - i,
    {
        tags.push(batch[i].tag);
        i += 1;
    }
    assert(tags@ =~= tags_of(batch@));
    tags
}

/// Why making a ring of `depth` entries is refused, if it is, given what the
/// kernel granted.
pub open spec fn create_refusal(depth: u32, granted: Option<u32>) -> Option<Error> {
    if depth == 0 {
        Some(Error::InvalidDepth)
    } else {
        match granted {
            None => Some(Error::ResourceExhausted),
            Some(entries) => if entries < depth {
                Some(Error::ResourceExhausted)
            } else {
                None
            },
        }
    }
}

} // verus!
