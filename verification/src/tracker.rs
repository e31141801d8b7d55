//! The auxiliary resource tracker.
//!
//! Some operations need storage that the kernel reads while the operation
//! runs: the null-terminated path of a stat or an open, and the parameter
//! block of an open. The tracker owns that storage and names each piece by a
//! handle. A piece passes through three stages: staged while its entry waits
//! in the submission queue, in flight once the entry was handed to the
//! kernel, released once the completion was harvested. Only a released piece
//! can be freed, and a handle is never issued twice, so freeing too early and
//! freeing twice are both refused instead of corrupting memory.
//!
//! A completion names its operation by the tag alone, and the caller may use
//! a tag more than once. So the tracker counts, for each tag, the entries
//! that were handed to the kernel and have not completed yet, and releases
//! what a tag owns only with the completion that brings that count to zero.

use crate::error::Error;
use crate::platform::{open_block, open_block_size, OPEN_BLOCK_SIZE};
use vstd::multiset::Multiset;
use vstd::prelude::*;
use vstd::seq_lib::{lemma_multiset_commutative, to_multiset_contains, to_multiset_remove};

verus! {

/// Where an allocation stands in the life of its operation.
#[derive(Clone, Copy, Debug, PartialEq, Eq, Structural)]
pub enum Stage {
    /// The entry that refers to it waits in the submission queue.
    Staged,
    /// The entry was handed to the kernel; no completion was seen yet.
    InFlight,
    /// The completion was harvested: the allocation may be freed.
    Released,
}

/// What an allocation holds.
pub enum Payload {
    /// A path with its terminating zero byte.
    Text(Seq<u8>),
    /// The parameter block of an open with the given flags.
    Block { flags: u64 },
}

/// What the tracker knows of one allocation.
pub struct Allocation {
    /// Correlation tag of the operation that refers to the allocation.
    pub owner: u64,
    pub stage: Stage,
    pub payload: Payload,
}

impl Allocation {
    /// Bytes the allocation occupies.
    pub open spec fn length(self) -> nat {
        match self.payload {
            Payload::Text(bytes) => bytes.len(),
            Payload::Block { .. } => OPEN_BLOCK_SIZE as nat,
        }
    }

    /// The same allocation at another stage.
    pub open spec fn at(self, stage: Stage) -> Allocation {
        Allocation { owner: self.owner, stage, payload: self.payload }
    }

    /// The allocation after every staged entry was handed to the kernel.
    pub open spec fn after_submit(self) -> Allocation {
        if self.stage == Stage::Staged {
            self.at(Stage::InFlight)
        } else {
            self
        }
    }

    /// The allocation after the last entry in flight under `tag` completed.
    pub open spec fn after_completion(self, tag: u64) -> Allocation {
        if self.stage == Stage::InFlight && self.owner == tag {
            self.at(Stage::Released)
        } else {
            self
        }
    }
}

/// The tracker as a map from live handles to allocations, the number of
/// handles issued so far, and the tags of the entries in flight, each as
/// often as entries carry it. Handles are issued in order, starting at one.
pub struct TrackerView {
    pub live: Map<u64, Allocation>,
    pub issued: nat,
    pub flying: Multiset<u64>,
}

impl TrackerView {
    /// No allocation, no handle issued.
    pub open spec fn empty() -> TrackerView {
        TrackerView { live: Map::empty(), issued: 0, flying: Multiset::empty() }
    }

    /// Every live handle was issued.
    pub open spec fn wf(self) -> bool {
        &&& self.issued <= u64::MAX
        &&& forall|h: u64| #[trigger] self.live.contains_key(h) ==> 1 <= h <= self.issued
    }

    /// Whether `count` more handles can be issued.
    pub open spec fn can_issue(self, count: nat) -> bool {
        self.issued + count <= u64::MAX
    }

    /// The handle that the next allocation gets.
    pub open spec fn next_handle(self) -> u64 {
        (self.issued + 1) as u64
    }

    /// The tracker after a new, staged allocation for `owner`.
    pub open spec fn track(self, owner: u64, payload: Payload) -> TrackerView {
        TrackerView {
            live: self.live.insert(
                self.next_handle(),
                Allocation { owner, stage: Stage::Staged, payload },
            ),
            issued: self.issued + 1,
            flying: self.flying,
        }
    }

    /// The tracker after the waiting entries, which carry `tags`, were
    /// handed to the kernel: what was staged is in flight, and so are the
    /// tags.
    pub open spec fn submit(self, tags: Seq<u64>) -> TrackerView {
        TrackerView {
            live: self.live.map_values(|a: Allocation| a.after_submit()),
            issued: self.issued,
            flying: self.flying.add(tags.to_multiset()),
        }
    }

    /// Whether a completion with `tag` is the last that is due under that
    /// tag: no more than one entry in flight carries it.
    pub open spec fn settles(self, tag: u64) -> bool {
        self.flying.count(tag) <= 1
    }

    /// The tracker after a completion with `tag` was harvested. One entry
    /// less is in flight under the tag. What the tag owns is released if
    /// that was the last one, and stays in flight otherwise.
    pub open spec fn complete(self, tag: u64) -> TrackerView {
        TrackerView {
            live: if self.settles(tag) {
                self.live.map_values(|a: Allocation| a.after_completion(tag))
            } else {
                self.live
            },
            issued: self.issued,
            flying: self.flying.remove(tag),
        }
    }

    /// The tracker without the allocation `handle`.
    pub open spec fn release(self, handle: u64) -> TrackerView {
        TrackerView { live: self.live.remove(handle), issued: self.issued, flying: self.flying }
    }

    /// Whether `handle` names a live text allocation.
    pub open spec fn is_text(self, handle: u64) -> bool {
        self.live.contains_key(handle) && self.live[handle].payload is Text
    }

    /// Whether `handle` names a live parameter block.
    pub open spec fn is_block(self, handle: u64) -> bool {
        self.live.contains_key(handle) && self.live[handle].payload is Block
    }

    /// Why freeing the text `handle` is refused, if it is.
    pub open spec fn text_refusal(self, handle: u64) -> Option<Error> {
        if !self.live.contains_key(handle) {
            Some(Error::UnknownAllocation)
        } else if !(self.live[handle].payload is Text) {
            Some(Error::WrongKind)
        } else if self.live[handle].stage != Stage::Released {
            Some(Error::StillInFlight)
        } else {
            None
        }
    }

    /// Why freeing the block `handle` of `length` bytes is refused, if it is.
    pub open spec fn block_refusal(self, handle: u64, length: u64) -> Option<Error> {
        if !self.live.contains_key(handle) {
            Some(Error::UnknownAllocation)
        } else if !(self.live[handle].payload is Block) {
            Some(Error::WrongKind)
        } else if length != OPEN_BLOCK_SIZE {
            Some(Error::LengthMismatch)
        } else if self.live[handle].stage != Stage::Released {
            Some(Error::StillInFlight)
        } else {
            None
        }
    }
}

enum Storage {
    Text(Vec<u8>),
    Block { flags: u64, block: Box<io_uring::types::OpenHow> },
}

struct Slot {
    handle: u64,
    owner: u64,
    stage: Stage,
    storage: Storage,
}

impl Slot {
    spec fn model(self) -> Allocation {
        Allocation {
            owner: self.owner,
            stage: self.stage,
            payload: match self.storage {
                Storage::Text(bytes) => Payload::Text(bytes@),
                Storage::Block { flags, .. } => Payload::Block { flags },
            },
        }
    }
}

spec fn holds(slots: Seq<Slot>, handle: u64) -> bool {
    exists|i: int| 0 <= i < slots.len() && (#[trigger] slots[i]).handle == handle
}

spec fn index_of(slots: Seq<Slot>, handle: u64) -> int {
    choose|i: int| 0 <= i < slots.len() && (#[trigger] slots[i]).handle == handle
}

spec fn distinct(slots: Seq<Slot>) -> bool {
    forall|i: int, j: int|
        0 <= i < j < slots.len() ==> (#[trigger] slots[i]).handle != (#[trigger] slots[j]).handle
}

spec fn table(slots: Seq<Slot>) -> Map<u64, Allocation> {
    Map::new(|h: u64| holds(slots, h), |h: u64| slots[index_of(slots, h)].model())
}

proof fn lemma_lookup(slots: Seq<Slot>, i: int)
    requires
        distinct(slots),
        0 <= i < slots.len(),
    ensures
        holds(slots, slots[i].handle),
        index_of(slots, slots[i].handle) == i,
        table(slots).contains_key(slots[i].handle),
        table(slots)[slots[i].handle] == slots[i].model(),
{
    let h = slots[i].handle;
    assert(holds(slots, h));
    let j = index_of(slots, h);
    assert(0 <= j < slots.len() && slots[j].handle == h);
    if j < i {
        assert(slots[j].handle != slots[i].handle);
    } else if i < j {
        assert(slots[i].handle != slots[j].handle);
    }
}

/// Owner of the storage that operations in flight refer to.
pub struct Tracker {
    slots: Vec<Slot>,
    issued: u64,
    flying: Vec<u64>,
}

impl View for Tracker {
    type V = TrackerView;

    closed spec fn view(&self) -> TrackerView {
        TrackerView {
            live: table(self.slots@),
            issued: self.issued as nat,
            flying: self.flying@.to_multiset(),
        }
    }
}

impl Tracker {
    /// The representation invariant: handles are distinct and were issued.
    pub closed spec fn wf(&self) -> bool {
        &&& distinct(self.slots@)
        &&& forall|i: int|
            0 <= i < self.slots@.len() ==> 1 <= (#[trigger] self.slots@[i]).handle <= self.issued
    }

    /// A well-formed tracker has a well-formed view.
    pub proof fn lemma_view_wf(&self)
        requires
            self.wf(),
        ensures
            self@.wf(),
    {
        assert forall|h: u64| #[trigger] self@.live.contains_key(h) implies 1 <= h
            <= self@.issued by {
            let i = index_of(self.slots@, h);
            assert(self.slots@[i].handle == h);
        }
    }

    /// A tracker without allocations.
    pub fn new() -> (tracker: Tracker)
        ensures
            tracker.wf(),
            tracker@ == TrackerView::empty(),
    {
        let tracker = Tracker { slots: Vec::new(), issued: 0, flying: Vec::new() };
        assert(tracker@.live =~= Map::empty());
        assert(tracker@.flying =~= Multiset::empty()) by {
            to_multiset_contains(tracker.flying@, 0u64);
            assert forall|tag: u64| tracker@.flying.count(tag) == 0 by {
                to_multiset_contains(tracker.flying@, tag);
            }
        }
        tracker
    }

    /// Whether `count` more handles can be issued.
    pub fn can_issue(&self, count: u64) -> (can: bool)
        ensures
            can == self@.can_issue(count as nat),
    {
        count <= u64::MAX - self.issued
    }

    /// Number of live allocations.
    pub fn live_count(&self) -> (count: usize)
        requires
            self.wf(),
        ensures
            count == self@.live.len(),
            self@.live.dom().finite(),
    {
        proof {
            lemma_table_len(self.slots@);
        }
        self.slots.len()
    }

    fn find(&self, handle: u64) -> (found: Option<usize>)
        requires
            self.wf(),
        ensures
            match found {
                Some(i) => i < self.slots@.len() && self.slots@[i as int].handle == handle,
                None => !holds(self.slots@, handle),
            },
    {
        let mut i: usize = 0;
        while i < self.slots.len()
            invariant
                i <= self.slots@.len(),
                forall|k: int| 0 <= k < i ==> (#[trigger] self.slots@[k]).handle != handle,
            decreases self.slots@.len() - i,
        {
            if self.slots[i].handle == handle {
                return Some(i);
            }
            i += 1;
        }
        None
    }

    fn insert(&mut self, owner: u64, storage: Storage) -> (handle: u64)
        requires
            old(self).wf(),
            old(self)@.can_issue(1),
        ensures
            final(self).wf(),
            handle == old(self)@.next_handle(),
            final(self)@ == old(self)@.track(
                owner,
                (Slot { handle, owner, stage: Stage::Staged, storage }).model().payload,
            ),
    {
        let handle: u64 = self.issued + 1;
        let ghost before = self.slots@;
        self.issued = handle;
        self.slots.push(Slot { handle, owner, stage: Stage::Staged, storage });
        proof {
            let after = self.slots@;
            let last = before.len() as int;
            assert(after[last].handle == handle);
            assert forall|i: int, j: int| 0 <= i < j < after.len() implies (#[trigger] after[i])
                .handle != (#[trigger] after[j]).handle by {
                if j < last {
                    assert(after[i] == before[i] && after[j] == before[j]);
                } else {
                    assert(after[i] == before[i]);
                }
            }
            assert forall|h: u64| #[trigger]
                holds(after, h) <==> (h == handle || holds(before, h)) by {
                if holds(after, h) {
                    let i = index_of(after, h);
                    if i < last {
                        assert(before[i].handle == h);
                    }
                }
                if holds(before, h) {
                    let i = index_of(before, h);
                    assert(after[i].handle == h);
                }
            }
            assert forall|h: u64| holds(before, h) implies #[trigger] table(after)[h] == table(
                before,
            )[h] by {
                let i = index_of(before, h);
                assert(after[i] == before[i]);
                lemma_lookup(after, i);
            }
            lemma_lookup(after, last);
            assert(table(after) =~= table(before).insert(handle, after[last].model()));
        }
        handle
    }

    /// Takes ownership of `text`, a path with its terminating zero byte, for
    /// the operation tagged `owner`. The new allocation is staged.
    pub fn track_text(&mut self, owner: u64, text: Vec<u8>) -> (result: Result<u64, Error>)
        requires
            old(self).wf(),
        ensures
            final(self).wf(),
            !old(self)@.can_issue(1) ==> result == Err::<u64, Error>(Error::HandlesExhausted)
                && final(self)@ == old(self)@,
            old(self)@.can_issue(1) ==> result == Ok::<u64, Error>(old(self)@.next_handle())
                && final(self)@ == old(self)@.track(owner, Payload::Text(text@)),
    {
        if self.issued == u64::MAX {
            return Err(Error::HandlesExhausted);
        }
        Ok(self.insert(owner, Storage::Text(text)))
    }

    /// Builds the parameter block of an open with the given flags and keeps
    /// it for the operation tagged `owner`. The new allocation is staged.
    pub fn track_block(&mut self, owner: u64, flags: u64) -> (result: Result<u64, Error>)
        requires
            old(self).wf(),
        ensures
            final(self).wf(),
            !old(self)@.can_issue(1) ==> result == Err::<u64, Error>(Error::HandlesExhausted)
                && final(self)@ == old(self)@,
            old(self)@.can_issue(1) ==> result == Ok::<u64, Error>(old(self)@.next_handle())
                && final(self)@ == old(self)@.track(owner, Payload::Block { flags }),
    {
        if self.issued == u64::MAX {
            return Err(Error::HandlesExhausted);
        }
        let block = Box::new(open_block(flags));
        Ok(self.insert(owner, Storage::Block { flags, block }))
    }

    /// Records that the waiting entries, which carry `tags`, were handed to
    /// the kernel.
    pub fn submit(&mut self, tags: Vec<u64>)
        requires
            old(self).wf(),
        ensures
            final(self).wf(),
            final(self)@ == old(self)@.submit(tags@),
    {
        let mut tags = tags;
        let ghost added = tags@;
        proof {
            lemma_multiset_commutative(self.flying@, added);
        }
        self.flying.append(&mut tags);
        let ghost before = self.slots@;
        let mut i: usize = 0;
        while i < self.slots.len()
            invariant
                i <= self.slots@.len(),
                self.slots@.len() == before.len(),
                self.issued == old(self).issued,
                self.flying@ == old(self).flying@ + added,
                forall|k: int|
                    0 <= k < before.len() ==> (#[trigger] self.slots@[k]).handle
                        == before[k].handle,
                forall|k: int|
                    0 <= k < i ==> (#[trigger] self.slots@[k]).model()
                        == before[k].model().after_submit(),
                forall|k: int| i <= k < before.len() ==> #[trigger] self.slots@[k] == before[k],
            decreases self.slots@.len() - i,
        {
            if self.slots[i].stage == Stage::Staged {
                self.slots[i].stage = Stage::InFlight;
            }
            i += 1;
        }
        proof {
            lemma_pointwise(before, self.slots@, |a: Allocation| a.after_submit());
        }
    }

    /// Takes one entry in flight under `tag` off the count and tells whether
    /// it was the last one.
    fn land(&mut self, tag: u64) -> (last: bool)
        ensures
            final(self).slots == old(self).slots,
            final(self).issued == old(self).issued,
            final(self).flying@.to_multiset() == old(self).flying@.to_multiset().remove(tag),
            last == (old(self).flying@.to_multiset().count(tag) <= 1),
    {
        let ghost before = self.flying@;
        let mut i: usize = 0;
        while i < self.flying.len() && self.flying[i] != tag
            invariant
                i <= self.flying@.len(),
                self.flying@ == before,
                self.slots == old(self).slots,
                self.issued == old(self).issued,
                forall|k: int| 0 <= k < i ==> self.flying@[k] != tag,
            decreases self.flying@.len() - i,
        {
            i += 1;
        }
        if i < self.flying.len() {
            let _ = self.flying.remove(i);
            proof {
                to_multiset_remove(before, i as int);
            }
        } else {
            proof {
                to_multiset_contains(before, tag);
                assert(before.to_multiset().remove(tag) =~= before.to_multiset());
            }
        }
        let ghost rest = self.flying@;
        let mut j: usize = 0;
        while j < self.flying.len() && self.flying[j] != tag
            invariant
                j <= self.flying@.len(),
                self.flying@ == rest,
                self.slots == old(self).slots,
                self.issued == old(self).issued,
                forall|k: int| 0 <= k < j ==> self.flying@[k] != tag,
            decreases self.flying@.len() - j,
        {
            j += 1;
        }
        proof {
            to_multiset_contains(rest, tag);
            to_multiset_contains(before, tag);
            if j < rest.len() {
                assert(rest[j as int] == tag);
                assert(rest.contains(tag));
            }
        }
        j >= self.flying.len()
    }

    /// Records that a completion with `tag` was harvested. What the tag owns
    /// is released if no other entry in flight carries the tag, and stays in
    /// flight until the last of them has completed otherwise.
    pub fn complete(&mut self, tag: u64)
        requires
            old(self).wf(),
        ensures
            final(self).wf(),
            final(self)@ == old(self)@.complete(tag),
    {
        let last = self.land(tag);
        if !last {
            return ;
        }
        let ghost before = self.slots@;
        let ghost flying = self.flying@;
        let mut i: usize = 0;
        while i < self.slots.len()
            invariant
                i <= self.slots@.len(),
                self.slots@.len() == before.len(),
                self.issued == old(self).issued,
                self.flying@ == flying,
                forall|k: int|
                    0 <= k < before.len() ==> (#[trigger] self.slots@[k]).handle
                        == before[k].handle,
                forall|k: int|
                    0 <= k < i ==> (#[trigger] self.slots@[k]).model()
                        == before[k].model().after_completion(tag),
                forall|k: int| i <= k < before.len() ==> #[trigger] self.slots@[k] == before[k],
            decreases self.slots@.len() - i,
        {
            if self.slots[i].stage == Stage::InFlight && self.slots[i].owner == tag {
                self.slots[i].stage = Stage::Released;
            }
            i += 1;
        }
        proof {
            lemma_pointwise(before, self.slots@, |a: Allocation| a.after_completion(tag));
        }
    }

    /// Number of entries in flight under `tag`.
    pub fn in_flight(&self, tag: u64) -> (count: usize)
        ensures
            count == self@.flying.count(tag),
    {
        let mut count: usize = 0;
        let mut i: usize = 0;
        proof {
            to_multiset_contains(self.flying@.take(0), tag);
        }
        while i < self.flying.len()
            invariant
                i <= self.flying@.len(),
                count <= i,
                count == self.flying@.take(i as int).to_multiset().count(tag),
            decreases self.flying@.len() - i,
        {
            proof {
                let front = self.flying@.take(i as int);
                assert(self.flying@.take(i + 1) =~= front.push(self.flying@[i as int]));
                vstd::seq_lib::to_multiset_build(front, self.flying@[i as int]);
            }
            if self.flying[i] == tag {
                count += 1;
            }
            i += 1;
        }
        proof {
            assert(self.flying@.take(i as int) =~= self.flying@);
        }
        count
    }

    fn discard(&mut self, index: usize)
        requires
            old(self).wf(),
            index < old(self).slots@.len(),
        ensures
            final(self).wf(),
            final(self)@ == old(self)@.release(old(self).slots@[index as int].handle),
    {
        let ghost before = self.slots@;
        let ghost handle = before[index as int].handle;
        let _ = self.slots.remove(index);
        proof {
            let after = self.slots@;
            let at = index as int;
            assert forall|k: int| 0 <= k < after.len() implies #[trigger] after[k] == before[if k
                < at {
                k
            } else {
                k + 1
            }] by {}
            assert forall|i: int, j: int| 0 <= i < j < after.len() implies (#[trigger] after[i])
                .handle != (#[trigger] after[j]).handle by {
                let bi = if i < at { i } else { i + 1 };
                let bj = if j < at { j } else { j + 1 };
                assert(after[i] == before[bi] && after[j] == before[bj]);
                assert(before[bi].handle != before[bj].handle);
            }
            assert forall|h: u64| #[trigger]
                holds(after, h) <==> (h != handle && holds(before, h)) by {
                if holds(after, h) {
                    let k = index_of(after, h);
                    let bk = if k < at { k } else { k + 1 };
                    assert(before[bk].handle == h);
                    lemma_lookup(before, at);
                    lemma_lookup(before, bk);
                }
                if h != handle && holds(before, h) {
                    let k = index_of(before, h);
                    let ak = if k < at { k } else { k - 1 };
                    assert(after[ak] == before[k]);
                }
            }
            assert forall|h: u64| holds(after, h) implies #[trigger] table(after)[h] == table(
                before,
            )[h] by {
                let k = index_of(after, h);
                let bk = if k < at { k } else { k + 1 };
                assert(after[k] == before[bk]);
                lemma_lookup(after, k);
                lemma_lookup(before, bk);
            }
            assert(table(after) =~= table(before).remove(handle));
        }
    }

    /// Frees the text allocation `handle`. It must be released: freeing while
    /// the kernel may still read the text is refused.
    pub fn free_text(&mut self, handle: u64) -> (result: Result<(), Error>)
        requires
            old(self).wf(),
        ensures
            final(self).wf(),
            match old(self)@.text_refusal(handle) {
                Some(error) => result == Err::<(), Error>(error) && final(self)@ == old(self)@,
                None => result == Ok::<(), Error>(()) && final(self)@ == old(self)@.release(
                    handle,
                ),
            },
    {
        match self.find(handle) {
            None => Err(Error::UnknownAllocation),
            Some(index) => {
                proof {
                    lemma_lookup(self.slots@, index as int);
                }
                let is_text = match &self.slots[index].storage {
                    Storage::Text(_) => true,
                    Storage::Block { .. } => false,
                };
                if !is_text {
                    Err(Error::WrongKind)
                } else if self.slots[index].stage != Stage::Released {
                    Err(Error::StillInFlight)
                } else {
                    self.discard(index);
                    Ok(())
                }
            },
        }
    }

    /// Frees the parameter block `handle`, which the caller believes to be
    /// `length` bytes long. It must be released.
    pub fn free_block(&mut self, handle: u64, length: u64) -> (result: Result<(), Error>)
        requires
            old(self).wf(),
        ensures
            final(self).wf(),
            match old(self)@.block_refusal(handle, length) {
                Some(error) => result == Err::<(), Error>(error) && final(self)@ == old(self)@,
                None => result == Ok::<(), Error>(()) && final(self)@ == old(self)@.release(
                    handle,
                ),
            },
    {
        match self.find(handle) {
            None => Err(Error::UnknownAllocation),
            Some(index) => {
                proof {
                    lemma_lookup(self.slots@, index as int);
                }
                let is_block = match &self.slots[index].storage {
                    Storage::Text(_) => false,
                    Storage::Block { .. } => true,
                };
                if !is_block {
                    Err(Error::WrongKind)
                } else if length != open_block_size() {
                    Err(Error::LengthMismatch)
                } else if self.slots[index].stage != Stage::Released {
                    Err(Error::StillInFlight)
                } else {
                    self.discard(index);
                    Ok(())
                }
            },
        }
    }

    /// The bytes of the text allocation `handle`, for as long as it lives.
    pub fn text(&self, handle: u64) -> (found: Option<&Vec<u8>>)
        requires
            self.wf(),
        ensures
            match found {
                Some(bytes) => self@.is_text(handle) && self@.live[handle].payload
                    == Payload::Text(bytes@),
                None => !self@.is_text(handle),
            },
    {
        match self.find(handle) {
            None => None,
            Some(index) => {
                proof {
                    lemma_lookup(self.slots@, index as int);
                }
                match &self.slots[index].storage {
                    Storage::Text(bytes) => Some(bytes),
                    Storage::Block { .. } => None,
                }
            },
        }
    }

    /// The parameter block `handle`, for as long as it lives.
    pub fn block(&self, handle: u64) -> (found: Option<&io_uring::types::OpenHow>)
        requires
            self.wf(),
        ensures
            found is Some <==> self@.is_block(handle),
    {
        match self.find(handle) {
            None => None,
            Some(index) => {
                proof {
                    lemma_lookup(self.slots@, index as int);
                }
                match &self.slots[index].storage {
                    Storage::Text(_) => None,
                    Storage::Block { block, .. } => Some(&**block),
                }
            },
        }
    }
}

/// A completion releases what its tag owns exactly when it is the last one
/// due under that tag. While two or more entries in flight carry the tag, a
/// completion leaves what the tag owns in flight and only takes one entry off
/// the count; the completion that finds a single entry left releases it. A
/// completion with another tag never touches it.
pub proof fn lemma_release_waits_for_the_last_completion(
    tracker: TrackerView,
    tag: u64,
    other: u64,
    handle: u64,
)
    requires
        tracker.live.contains_key(handle),
        tracker.live[handle].owner == tag,
        tracker.live[handle].stage == Stage::InFlight,
        other != tag,
    ensures
        tracker.flying.count(tag) >= 2 ==> tracker.complete(tag).live[handle]
            == tracker.live[handle],
        tracker.flying.count(tag) <= 1 ==> tracker.complete(tag).live[handle]
            == tracker.live[handle].at(Stage::Released),
        tracker.complete(tag).live.contains_key(handle),
        tracker.flying.count(tag) >= 1 ==> tracker.complete(tag).flying.count(tag)
            == tracker.flying.count(tag) - 1,
        tracker.flying.count(tag) == 0 ==> tracker.complete(tag).flying.count(tag) == 0,
        tracker.complete(other).live[handle] == tracker.live[handle],
        tracker.complete(other).flying.count(tag) == tracker.flying.count(tag),
{
}

/// No handle is issued twice. A new allocation gets a handle that was never
/// issued before, so a handle that was freed names nothing ever again, and
/// what other handles name is not touched.
pub proof fn lemma_handles_are_fresh(
    tracker: TrackerView,
    owner: u64,
    payload: Payload,
    handle: u64,
)
    requires
        tracker.wf(),
        tracker.can_issue(1),
        1 <= handle <= tracker.issued,
    ensures
        tracker.track(owner, payload).wf(),
        tracker.next_handle() != handle,
        !tracker.live.contains_key(tracker.next_handle()),
        tracker.track(owner, payload).live.contains_key(handle) == tracker.live.contains_key(
            handle,
        ),
        tracker.live.contains_key(handle) ==> tracker.track(owner, payload).live[handle]
            == tracker.live[handle],
{
}

proof fn lemma_pointwise(before: Seq<Slot>, after: Seq<Slot>, f: spec_fn(Allocation) -> Allocation)
    requires
        distinct(before),
        after.len() == before.len(),
        forall|k: int| 0 <= k < before.len() ==> (#[trigger] after[k]).handle == before[k].handle,
        forall|k: int|
            0 <= k < before.len() ==> (#[trigger] after[k]).model() == f(before[k].model()),
    ensures
        distinct(after),
        table(after) == table(before).map_values(f),
{
    assert forall|i: int, j: int| 0 <= i < j < after.len() implies (#[trigger] after[i]).handle
        != (#[trigger] after[j]).handle by {
        assert(before[i].handle != before[j].handle);
    }
    assert forall|h: u64| #[trigger] holds(after, h) <==> holds(before, h) by {
        if holds(after, h) {
            let k = index_of(after, h);
            assert(before[k].handle == h);
        }
        if holds(before, h) {
            let k = index_of(before, h);
            assert(after[k].handle == h);
        }
    }
    assert forall|h: u64| holds(before, h) implies #[trigger] table(after)[h] == f(
        table(before)[h],
    ) by {
        let k = index_of(before, h);
        assert(after[k].handle == h);
        lemma_lookup(before, k);
        lemma_lookup(after, k);
    }
    assert(table(after) =~= table(before).map_values(f));
}

proof fn lemma_table_len(slots: Seq<Slot>)
    requires
        distinct(slots),
    ensures
        table(slots).dom().finite(),
        table(slots).len() == slots.len(),
    decreases slots.len(),
{
    if slots.len() == 0 {
        assert(table(slots) =~= Map::empty());
    } else {
        let front = slots.drop_last();
        let last = slots.last();
        assert forall|i: int, j: int| 0 <= i < j < front.len() implies (#[trigger] front[i]).handle
            != (#[trigger] front[j]).handle by {
            assert(front[i] == slots[i] && front[j] == slots[j]);
        }
        lemma_table_len(front);
        assert(!holds(front, last.handle)) by {
            if holds(front, last.handle) {
                let i = index_of(front, last.handle);
                assert(slots[i].handle == slots[slots.len() - 1].handle);
            }
        }
        assert forall|h: u64| #[trigger]
            holds(slots, h) <==> (h == last.handle || holds(front, h)) by {
            if holds(slots, h) {
                let i = index_of(slots, h);
                if i < front.len() {
                    assert(front[i].handle == h);
                }
            }
            if holds(front, h) {
                let i = index_of(front, h);
                assert(slots[i].handle == h);
            }
            assert(slots[slots.len() - 1].handle == last.handle);
        }
        assert(table(slots).dom() =~= table(front).dom().insert(last.handle));
    }
}

} // verus!
