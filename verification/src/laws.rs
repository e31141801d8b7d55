//! Laws of the ring that span several calls.
//!
//! Each law is stated over the views and the transition functions that the
//! contracts of the operations use, so it holds of every run of the
//! operations themselves.

use crate::entry::{
    open_entry, read_entry, stat_entry, tags_of, terminable, write_entry, MemoryRegion,
    SubmissionEntry,
};
use crate::platform::STAT_BUFFER_SIZE;
use crate::error::Error;
use crate::ring::{create_refusal, RingView};
use crate::tracker::Stage;
use vstd::prelude::*;
use vstd::seq_lib::{to_multiset_build, to_multiset_contains};

verus! {

/// Making a ring and destroying it at once: whenever the depth is positive
/// and the kernel grants it, the ring is made, and it holds no entry and no
/// allocation, so nothing is left behind when it is destroyed.
pub proof fn lemma_create_then_destroy(depth: u32, granted: u32)
    requires
        depth > 0,
        granted >= depth,
    ensures
        create_refusal(depth, Some(granted)) is None,
        RingView::empty(depth as nat).wf(),
        RingView::empty(depth as nat).gate.pending.len() == 0,
        RingView::empty(depth as nat).gate.handed == 0,
        RingView::empty(depth as nat).tracker.live.len() == 0,
{
}

/// A full ring takes no entry, whatever the operation. Every operation on it
/// is refused; where its entry can be encoded at all the refusal is
/// `QueueFull`; and the refusal leaves the ring as it was, since a refused
/// call changes nothing. Once the waiting entries were submitted and the
/// kernel accepted all that it was handed, the ring takes entries again.
pub proof fn lemma_full_ring_refuses_every_operation(
    ring: RingView,
    buffer: MemoryRegion,
    blocks: nat,
    path: Seq<u8>,
    accepted: u32,
)
    requires
        ring.wf(),
        ring.gate.is_full(),
    ensures
        ring.gate.push_result() == Err::<(), Error>(Error::QueueFull),
        ring.transfer_refusal(buffer) is Some,
        buffer.length <= u32::MAX ==> ring.transfer_refusal(buffer) == Some(Error::QueueFull),
        ring.vectored_refusal(blocks) is Some,
        blocks <= u32::MAX ==> ring.vectored_refusal(blocks) == Some(Error::QueueFull),
        ring.stat_refusal(path, buffer) is Some,
        terminable(path) && buffer.length >= STAT_BUFFER_SIZE ==> ring.stat_refusal(path, buffer)
            == Some(Error::QueueFull),
        ring.open_refusal(path) is Some,
        terminable(path) ==> ring.open_refusal(path) == Some(Error::QueueFull),
        ring.submit().wf(),
        ring.submit().gate.is_full(),
        accepted >= ring.gate.depth ==> ring.submit().acknowledge(Ok(accepted)).gate.room()
            == ring.gate.depth,
        ring.submit().acknowledge(Ok(accepted)).wf(),
{
    let flushed = ring.submit();
    assert(flushed.gate.pending.len() == 0);
}

/// A read and the entry queued directly after it, here a write: with room
/// for both they wait side by side behind whatever waited before, the read
/// first, and nothing that waited before is moved or changed. The read is
/// marked as linked exactly when the caller said so. A submit hands them
/// over in that order.
pub proof fn lemma_linked_pair_keeps_order(
    ring: RingView,
    read_tag: u64,
    write_tag: u64,
    read_fd: i32,
    write_fd: i32,
    read_offset: u64,
    write_offset: u64,
    read_buffer: MemoryRegion,
    write_buffer: MemoryRegion,
    read_linked: bool,
    write_linked: bool,
)
    requires
        ring.wf(),
        ring.gate.room() >= 2,
        read_buffer.length <= u32::MAX,
        write_buffer.length <= u32::MAX,
    ensures
        ({
            let read = read_entry(read_tag, read_fd, read_offset, read_buffer, read_linked);
            let write = write_entry(write_tag, write_fd, write_offset, write_buffer, write_linked);
            let after_read = ring.enqueue(read);
            let after_both = after_read.enqueue(write);
            &&& ring.transfer_refusal(read_buffer) is None
            &&& after_read.transfer_refusal(write_buffer) is None
            &&& read.linked == read_linked
            &&& write.linked == write_linked
            &&& after_both.gate.pending == ring.gate.pending.push(read).push(write)
            &&& after_both.gate.pending.take(ring.gate.pending.len() as int) == ring.gate.pending
            &&& after_both.tracker == ring.tracker
        }),
{
    let read = read_entry(read_tag, read_fd, read_offset, read_buffer, read_linked);
    let write = write_entry(write_tag, write_fd, write_offset, write_buffer, write_linked);
    assert(ring.gate.pending.push(read).push(write).take(ring.gate.pending.len() as int)
        =~= ring.gate.pending);
}

/// The tags of a series of entries, counted: one more entry adds its tag
/// once, and a tag that no entry carries is not among them.
pub proof fn lemma_tags_are_counted(
    entries: Seq<SubmissionEntry>,
    next: SubmissionEntry,
    tag: u64,
)
    ensures
        tags_of(entries.push(next)).to_multiset() == tags_of(entries).to_multiset().insert(
            next.tag,
        ),
        (forall|i: int| 0 <= i < entries.len() ==> (#[trigger] entries[i]).tag != tag)
            ==> tags_of(entries).to_multiset().count(tag) == 0,
{
    assert(tags_of(entries.push(next)) =~= tags_of(entries).push(next.tag));
    to_multiset_build(tags_of(entries), next.tag);
    to_multiset_contains(tags_of(entries), tag);
    if forall|i: int| 0 <= i < entries.len() ==> (#[trigger] entries[i]).tag != tag {
        if tags_of(entries).contains(tag) {
            let i = choose|i: int| 0 <= i < tags_of(entries).len() && tags_of(entries)[i] == tag;
            assert(entries[i].tag == tag);
        }
    }
}

/// The life of the text of a stat whose tag no other entry carries. From the
/// moment the stat is accepted until a completion with its tag is harvested,
/// freeing the text is refused with `StillInFlight`: while the entry waits,
/// after it was submitted, whether the kernel accepted or refused the flush,
/// and whatever completions with other tags come in. After the completion
/// the text can be freed, once: a second free finds nothing under the handle.
pub proof fn lemma_text_outlives_its_stat(
    ring: RingView,
    tag: u64,
    path: Seq<u8>,
    buffer: MemoryRegion,
    other: u64,
    answer: Result<u32, i32>,
)
    requires
        ring.wf(),
        ring.stat_refusal(path, buffer) is None,
        ring.tracker.flying.count(tag) == 0,
        forall|i: int|
            0 <= i < ring.gate.pending.len() ==> (#[trigger] ring.gate.pending[i]).tag != tag,
        other != tag,
    ensures
        ({
            let text = ring.tracker.next_handle();
            let queued = ring.stat(tag, path, buffer);
            let flying = queued.submit();
            let done = flying.complete(tag);
            &&& queued.wf()
            &&& queued.holds(text, tag, Stage::Staged)
            &&& queued.tracker.text_refusal(text) == Some(Error::StillInFlight)
            &&& queued.complete(tag).tracker.text_refusal(text) == Some(Error::StillInFlight)
            &&& flying.holds(text, tag, Stage::InFlight)
            &&& flying.tracker.flying.count(tag) == 1
            &&& flying.tracker.text_refusal(text) == Some(Error::StillInFlight)
            &&& flying.acknowledge(answer).tracker.text_refusal(text) == Some(
                Error::StillInFlight,
            )
            &&& flying.complete(other).tracker.text_refusal(text) == Some(Error::StillInFlight)
            &&& done.holds(text, tag, Stage::Released)
            &&& done.tracker.text_refusal(text) is None
            &&& done.release(text).tracker.text_refusal(text) == Some(Error::UnknownAllocation)
        }),
{
    let text = ring.tracker.next_handle();
    let entry = stat_entry(tag, text, buffer.address);
    let queued = ring.stat(tag, path, buffer);
    assert(!ring.tracker.live.contains_key(text));
    assert(queued.tracker.live.contains_key(text));
    assert forall|i: int| 0 <= i < queued.gate.pending.len() implies queued.carries(
        #[trigger] queued.gate.pending[i],
        Stage::Staged,
    ) by {
        if i < ring.gate.pending.len() {
            assert(ring.carries(ring.gate.pending[i], Stage::Staged));
        }
    }
    lemma_tags_are_counted(ring.gate.pending, entry, tag);
    assert(queued.gate.pending == ring.gate.pending.push(entry));
}

/// Two stats under one tag, which no other entry carries, submitted
/// together. The first completion with the tag releases neither text: it
/// cannot tell which of the two stats has completed. The second releases
/// both.
pub proof fn lemma_shared_tag_is_released_last(
    ring: RingView,
    tag: u64,
    first_path: Seq<u8>,
    second_path: Seq<u8>,
    first_buffer: MemoryRegion,
    second_buffer: MemoryRegion,
)
    requires
        ring.wf(),
        ring.stat_refusal(first_path, first_buffer) is None,
        ring.stat(tag, first_path, first_buffer).stat_refusal(second_path, second_buffer)
            is None,
        ring.tracker.flying.count(tag) == 0,
        forall|i: int|
            0 <= i < ring.gate.pending.len() ==> (#[trigger] ring.gate.pending[i]).tag != tag,
    ensures
        ({
            let first = ring.tracker.next_handle();
            let second = (first + 1) as u64;
            let flying = ring.stat(tag, first_path, first_buffer).stat(
                tag,
                second_path,
                second_buffer,
            ).submit();
            let once = flying.complete(tag);
            let twice = once.complete(tag);
            &&& flying.tracker.flying.count(tag) == 2
            &&& once.tracker.text_refusal(first) == Some(Error::StillInFlight)
            &&& once.tracker.text_refusal(second) == Some(Error::StillInFlight)
            &&& twice.tracker.text_refusal(first) is None
            &&& twice.tracker.text_refusal(second) is None
        }),
{
    let first = ring.tracker.next_handle();
    let second = (first + 1) as u64;
    let one = ring.stat(tag, first_path, first_buffer);
    let two = one.stat(tag, second_path, second_buffer);
    let first_entry = stat_entry(tag, first, first_buffer.address);
    let second_entry = stat_entry(tag, second, second_buffer.address);
    assert(!ring.tracker.live.contains_key(first));
    assert(!ring.tracker.live.contains_key(second));
    assert(one.tracker.next_handle() == second);
    assert(one.gate.pending == ring.gate.pending.push(first_entry));
    assert(two.gate.pending == one.gate.pending.push(second_entry));
    lemma_tags_are_counted(ring.gate.pending, first_entry, tag);
    lemma_tags_are_counted(one.gate.pending, second_entry, tag);
    assert(two.tracker.live.contains_key(first));
    assert(two.tracker.live.contains_key(second));
}

/// The life of the text and the parameter block of an open whose tag no
/// other entry carries. The open is flushed as soon as it is queued, so both
/// are in flight at once. Until a completion with its tag is harvested,
/// freeing either is refused with `StillInFlight`, whatever completions with
/// other tags come in. After the completion each can be freed, once, the
/// block only with its true length.
pub proof fn lemma_open_storage_outlives_its_open(
    ring: RingView,
    tag: u64,
    path: Seq<u8>,
    flags: u64,
    other: u64,
    length: u64,
)
    requires
        ring.wf(),
        ring.open_refusal(path) is None,
        ring.tracker.flying.count(tag) == 0,
        forall|i: int|
            0 <= i < ring.gate.pending.len() ==> (#[trigger] ring.gate.pending[i]).tag != tag,
        other != tag,
    ensures
        ({
            let text = ring.tracker.next_handle();
            let block = (text + 1) as u64;
            let flying = ring.open(tag, path, flags).submit();
            let done = flying.complete(tag);
            let size = crate::platform::OPEN_BLOCK_SIZE;
            &&& flying.wf()
            &&& flying.holds(text, tag, Stage::InFlight)
            &&& flying.holds(block, tag, Stage::InFlight)
            &&& flying.tracker.text_refusal(text) == Some(Error::StillInFlight)
            &&& flying.tracker.block_refusal(block, size) == Some(Error::StillInFlight)
            &&& flying.complete(other).tracker.text_refusal(text) == Some(Error::StillInFlight)
            &&& flying.complete(other).tracker.block_refusal(block, size) == Some(
                Error::StillInFlight,
            )
            &&& done.tracker.text_refusal(text) is None
            &&& done.tracker.block_refusal(block, size) is None
            &&& length != size ==> done.tracker.block_refusal(block, length) == Some(
                Error::LengthMismatch,
            )
            &&& done.release(text).tracker.text_refusal(text) == Some(Error::UnknownAllocation)
            &&& done.release(block).tracker.block_refusal(block, size) == Some(
                Error::UnknownAllocation,
            )
        }),
{
    let text = ring.tracker.next_handle();
    let block = (text + 1) as u64;
    assert(!ring.tracker.live.contains_key(text));
    assert(!ring.tracker.live.contains_key(block));
    let with_text = ring.tracker.track(tag, crate::tracker::Payload::Text(path.push(0)));
    assert(with_text.next_handle() == block);
    let queued = ring.open(tag, path, flags);
    assert(queued.tracker.live.contains_key(text));
    assert(queued.tracker.live.contains_key(block));
    lemma_tags_are_counted(ring.gate.pending, open_entry(tag, text, block), tag);
    assert(queued.gate.pending == ring.gate.pending.push(open_entry(tag, text, block)));
}

} // verus!
