use zio_uring::entry::{MemoryRegion, Operation, SubmissionEntry};
use zio_uring::error::Error;
use zio_uring::harvest::{Directive, Harvest};
use zio_uring::ring::{Leftover, Ring};
use zio_uring::wire::CompletionRecord;

fn region(address: u64, length: u64) -> MemoryRegion {
    MemoryRegion { address, length }
}

fn completion(tag: u64, result: i32) -> CompletionRecord {
    CompletionRecord { tag, result, flags: 0 }
}

/// Submits and has the kernel accept all that it is handed.
fn flush(ring: &mut Ring) -> Vec<SubmissionEntry> {
    let batch = ring.submit();
    let handed = ring.unaccepted();
    assert!(handed as usize >= batch.len());
    assert_eq!(ring.acknowledge(Ok(handed)), Ok(handed));
    assert_eq!(ring.unaccepted(), 0);
    batch
}

#[test]
fn ring_of_depth_zero_is_invalid() {
    assert_eq!(Ring::create(0, Some(8)).err(), Some(Error::InvalidDepth));
    assert_eq!(Ring::create(0, None).err(), Some(Error::InvalidDepth));
}

#[test]
fn refused_ring_is_resource_exhausted() {
    assert_eq!(Ring::create(8, None).err(), Some(Error::ResourceExhausted));
    assert_eq!(Ring::create(8, Some(7)).err(), Some(Error::ResourceExhausted));
    assert_eq!(Ring::create(8, Some(0)).err(), Some(Error::ResourceExhausted));
    assert_eq!(Ring::create(u32::MAX, Some(u32::MAX - 1)).err(), Some(Error::ResourceExhausted));
}

#[test]
fn granted_ring_is_created_empty() {
    let ring = Ring::create(8, Some(8)).unwrap();
    assert_eq!(ring.depth(), 8);
    assert_eq!(ring.pending(), 0);
    let larger = Ring::create(5, Some(8)).unwrap();
    assert_eq!(larger.depth(), 5);
    let widest = Ring::create(u32::MAX, Some(u32::MAX)).unwrap();
    assert_eq!(widest.depth(), u32::MAX);
}

#[test]
fn create_then_destroy_leaves_nothing() {
    for depth in [1u32, 2, 8, 4096, u32::MAX] {
        for _ in 0..3 {
            let ring = Ring::create(depth, Some(depth)).unwrap();
            assert_eq!(ring.destroy(), Leftover { entries: 0, unaccepted: 0, allocations: 0 });
        }
    }
}

#[test]
fn destroy_reports_what_was_left() {
    let mut ring = Ring::create(8, Some(8)).unwrap();
    ring.read(1, 3, 0, region(0x1000, 16), false).unwrap();
    ring.stat_extended(2, b"/etc/hostname", region(0x2000, 256)).unwrap();
    ring.open_extended(3, b"/etc/hostname", 2).unwrap();
    ring.cancel(4, 1).unwrap();
    assert_eq!(ring.destroy(), Leftover { entries: 1, unaccepted: 3, allocations: 3 });
}

#[test]
fn pushing_beyond_the_depth_yields_queue_full() {
    let mut ring = Ring::create(4, Some(4)).unwrap();
    assert_eq!(ring.read(1, 3, 0, region(0x1000, 16), false), Ok(()));
    assert_eq!(ring.write(2, 3, 0, region(0x1000, 16), false), Ok(()));
    assert_eq!(ring.cancel(3, 1), Ok(()));
    assert_eq!(ring.read_vectored(4, 3, vec![0x1000, 0x2000], 8, false), Ok(()));
    assert_eq!(ring.pending(), 4);

    assert_eq!(ring.read(5, 3, 0, region(0x1000, 16), false), Err(Error::QueueFull));
    assert_eq!(ring.write(6, 3, 0, region(0x1000, 16), false), Err(Error::QueueFull));
    assert_eq!(ring.cancel(7, 1), Err(Error::QueueFull));
    assert_eq!(ring.read_vectored(8, 3, vec![0x1000], 8, false), Err(Error::QueueFull));
    assert_eq!(ring.stat_extended(9, b"/a", region(0x1000, 256)), Err(Error::QueueFull));
    assert_eq!(ring.open_extended(10, b"/a", 2).err(), Some(Error::QueueFull));
    assert_eq!(ring.pending(), 4);

    let batch = flush(&mut ring);
    let tags: Vec<u64> = batch.iter().map(|entry| entry.tag).collect();
    assert_eq!(tags, vec![1, 2, 3, 4]);
    assert_eq!(ring.destroy(), Leftover { entries: 0, unaccepted: 0, allocations: 0 });
}

#[test]
fn refused_push_tracks_no_allocation() {
    let mut ring = Ring::create(1, Some(1)).unwrap();
    ring.cancel(1, 2).unwrap();
    assert_eq!(ring.stat_extended(9, b"/a", region(0x1000, 256)), Err(Error::QueueFull));
    assert_eq!(ring.open_extended(10, b"/a", 2).err(), Some(Error::QueueFull));
    assert_eq!(ring.text(1), None);
    assert_eq!(ring.destroy(), Leftover { entries: 1, unaccepted: 0, allocations: 0 });
}

#[test]
fn submit_makes_room_again() {
    let mut ring = Ring::create(1, Some(1)).unwrap();
    assert_eq!(ring.cancel(1, 2), Ok(()));
    assert_eq!(ring.cancel(3, 4), Err(Error::QueueFull));
    assert_eq!(flush(&mut ring), vec![SubmissionEntry::cancel(1, 2)]);
    assert_eq!(ring.cancel(3, 4), Ok(()));
    assert_eq!(flush(&mut ring), vec![SubmissionEntry::cancel(3, 4)]);
    assert_eq!(flush(&mut ring), Vec::new());
}

#[test]
fn linked_read_is_handed_over_before_its_write() {
    let mut ring = Ring::create(8, Some(8)).unwrap();
    ring.cancel(1, 99).unwrap();
    ring.read(10, 3, 0, region(0x1000, 64), true).unwrap();
    ring.write(11, 4, 0, region(0x1000, 64), false).unwrap();
    let batch = flush(&mut ring);
    assert_eq!(
        batch,
        vec![
            SubmissionEntry::cancel(1, 99),
            SubmissionEntry {
                tag: 10,
                linked: true,
                operation: Operation::Read { fd: 3, offset: 0, address: 0x1000, length: 64 },
            },
            SubmissionEntry {
                tag: 11,
                linked: false,
                operation: Operation::Write { fd: 4, offset: 0, address: 0x1000, length: 64 },
            },
        ]
    );
}

#[test]
fn transfer_of_too_long_a_buffer_is_refused_before_the_queue_is_asked() {
    let mut ring = Ring::create(1, Some(1)).unwrap();
    let too_long = region(0x1000, 1 << 32);
    assert_eq!(ring.read(1, 3, 0, too_long, false), Err(Error::RegionTooLarge));
    assert_eq!(ring.write(1, 3, 0, too_long, false), Err(Error::RegionTooLarge));
    assert_eq!(ring.pending(), 0);
    ring.cancel(1, 2).unwrap();
    assert_eq!(ring.read(1, 3, 0, too_long, false), Err(Error::RegionTooLarge));
    assert_eq!(ring.read(1, 3, 0, region(0x1000, 4), false), Err(Error::QueueFull));
}

#[test]
fn vectored_read_is_queued_with_its_blocks() {
    let mut ring = Ring::create(2, Some(2)).unwrap();
    assert_eq!(ring.read_vectored(5, 7, vec![0x9000, 0x8000], 512, true), Ok(()));
    assert_eq!(
        flush(&mut ring),
        vec![SubmissionEntry {
            tag: 5,
            linked: true,
            operation: Operation::ReadVectored {
                fd: 7,
                blocks: vec![0x9000, 0x8000],
                block_size: 512
            },
        }]
    );
}

#[test]
fn stat_stages_the_terminated_path() {
    let mut ring = Ring::create(4, Some(4)).unwrap();
    let text = ring.stat_extended(21, b"/etc/hostname", region(0x4000, 256)).unwrap();
    assert_eq!(text, 1);
    assert_eq!(ring.pending(), 1);
    assert_eq!(ring.text(text), Some(&b"/etc/hostname\0".to_vec()));
    let batch = flush(&mut ring);
    assert_eq!(
        batch,
        vec![SubmissionEntry {
            tag: 21,
            linked: false,
            operation: Operation::Stat { dir_fd: -100, path: 1, mask: 0x0fff, address: 0x4000 },
        }]
    );
    assert_eq!(ring.text(text), Some(&b"/etc/hostname\0".to_vec()));
}

#[test]
fn stat_refusals_come_in_a_fixed_order() {
    let mut ring = Ring::create(1, Some(1)).unwrap();
    ring.cancel(1, 2).unwrap();
    assert_eq!(ring.stat_extended(1, b"a\0b", region(0, 0)), Err(Error::InvalidPath));
    assert_eq!(ring.stat_extended(1, b"ab", region(0, 255)), Err(Error::RegionTooSmall));
    assert_eq!(ring.stat_extended(1, b"ab", region(0, 256)), Err(Error::QueueFull));
    assert_eq!(ring.destroy(), Leftover { entries: 1, unaccepted: 0, allocations: 0 });
}

#[test]
fn text_cannot_be_freed_before_its_completion_is_harvested() {
    let mut ring = Ring::create(4, Some(4)).unwrap();
    let text = ring.stat_extended(21, b"/etc/hostname", region(0x4000, 256)).unwrap();
    assert_eq!(ring.free_text(text), Err(Error::StillInFlight));
    let _ = flush(&mut ring);
    assert_eq!(ring.free_text(text), Err(Error::StillInFlight));

    let mut out = vec![0u8; 32];
    let mut harvest = Harvest::await_exactly(2, out.len()).unwrap();
    assert_eq!(harvest.offer(&mut ring, Some(completion(99, 0)), &mut out), Ok(Directive::Poll));
    assert_eq!(ring.free_text(text), Err(Error::StillInFlight));
    assert_eq!(ring.text(text), Some(&b"/etc/hostname\0".to_vec()));
    assert_eq!(harvest.offer(&mut ring, Some(completion(21, 0)), &mut out), Ok(Directive::Finish));

    assert_eq!(ring.free_text(text), Ok(()));
    assert_eq!(ring.text(text), None);
    assert_eq!(ring.free_text(text), Err(Error::UnknownAllocation));
    assert_eq!(ring.destroy(), Leftover { entries: 0, unaccepted: 0, allocations: 0 });
}

#[test]
fn failed_stat_releases_its_text_too() {
    let mut ring = Ring::create(4, Some(4)).unwrap();
    let text = ring.stat_extended(21, b"/no/such/file", region(0x4000, 256)).unwrap();
    let _ = flush(&mut ring);
    let mut out = vec![0u8; 16];
    let mut harvest = Harvest::peek(1, out.len()).unwrap();
    assert_eq!(harvest.offer(&mut ring, Some(completion(21, -2)), &mut out), Ok(Directive::Finish));
    assert_eq!(CompletionRecord::decode(&out).unwrap().outcome(), Err(2));
    assert_eq!(ring.free_text(text), Ok(()));
}

#[test]
fn open_is_flushed_at_once_with_all_that_waited() {
    let mut ring = Ring::create(4, Some(4)).unwrap();
    ring.read(1, 3, 0, region(0x1000, 16), false).unwrap();
    let ticket = ring.open_extended(30, b"/tmp/data.bin", 2).unwrap();
    assert_eq!(ticket.text, 1);
    assert_eq!(ticket.block, 2);
    assert_eq!(ticket.block_size, 24);
    assert_eq!(
        ticket.batch,
        vec![
            SubmissionEntry {
                tag: 1,
                linked: false,
                operation: Operation::Read { fd: 3, offset: 0, address: 0x1000, length: 16 },
            },
            SubmissionEntry {
                tag: 30,
                linked: false,
                operation: Operation::Open { dir_fd: -100, path: 1, block: 2 },
            },
        ]
    );
    assert_eq!(ring.pending(), 0);
    assert_eq!(ring.text(ticket.text), Some(&b"/tmp/data.bin\0".to_vec()));
    assert!(ring.block(ticket.block).is_some());
    assert!(ring.block(ticket.text).is_none());
    assert_eq!(ring.text(ticket.block), None);
    assert_eq!(flush(&mut ring), Vec::new());
}

#[test]
fn open_storage_cannot_be_freed_before_its_completion_is_harvested() {
    let mut ring = Ring::create(4, Some(4)).unwrap();
    let ticket = ring.open_extended(30, b"/tmp/data.bin", 2).unwrap();
    assert_eq!(ring.unaccepted(), 1);
    assert_eq!(ring.acknowledge(Ok(1)), Ok(1));
    assert_eq!(ring.free_text(ticket.text), Err(Error::StillInFlight));
    assert_eq!(ring.free_block(ticket.block, ticket.block_size), Err(Error::StillInFlight));

    let mut out = vec![0u8; 16];
    let mut harvest = Harvest::await_exactly(1, out.len()).unwrap();
    assert_eq!(harvest.offer(&mut ring, None, &mut out), Ok(Directive::Pause));
    assert_eq!(ring.free_text(ticket.text), Err(Error::StillInFlight));
    assert_eq!(harvest.offer(&mut ring, Some(completion(30, 5)), &mut out), Ok(Directive::Finish));

    assert_eq!(ring.free_block(ticket.text, ticket.block_size), Err(Error::WrongKind));
    assert_eq!(ring.free_text(ticket.block), Err(Error::WrongKind));
    assert_eq!(ring.free_block(ticket.block, 8), Err(Error::LengthMismatch));
    assert_eq!(ring.free_block(ticket.block, ticket.block_size), Ok(()));
    assert_eq!(ring.free_block(ticket.block, ticket.block_size), Err(Error::UnknownAllocation));
    assert_eq!(ring.free_text(ticket.text), Ok(()));
    assert_eq!(ring.free_text(ticket.text), Err(Error::UnknownAllocation));
    assert!(ring.block(ticket.block).is_none());
    assert_eq!(ring.destroy(), Leftover { entries: 0, unaccepted: 0, allocations: 0 });
}

#[test]
fn open_refusals_come_in_a_fixed_order() {
    let mut ring = Ring::create(1, Some(1)).unwrap();
    ring.cancel(1, 2).unwrap();
    assert_eq!(ring.open_extended(1, b"a\0b", 0).err(), Some(Error::InvalidPath));
    assert_eq!(ring.open_extended(1, b"ab", 0).err(), Some(Error::QueueFull));
    assert_eq!(ring.destroy(), Leftover { entries: 1, unaccepted: 0, allocations: 0 });
}

#[test]
fn handles_are_never_issued_twice() {
    let mut ring = Ring::create(4, Some(4)).unwrap();
    let first = ring.stat_extended(1, b"/a", region(0x4000, 256)).unwrap();
    let _ = flush(&mut ring);
    ring.complete(1);
    assert_eq!(ring.free_text(first), Ok(()));
    let second = ring.stat_extended(1, b"/b", region(0x4000, 256)).unwrap();
    let ticket = ring.open_extended(2, b"/c", 0).unwrap();
    assert_eq!((first, second, ticket.text, ticket.block), (1, 2, 3, 4));
    assert_eq!(ring.free_text(first), Err(Error::UnknownAllocation));
}

#[test]
fn cancel_and_its_target_complete_in_either_order() {
    for cancel_first in [false, true] {
        let mut ring = Ring::create(4, Some(4)).unwrap();
        ring.read(0x71, 3, 0, region(0x1000, 4096), false).unwrap();
        ring.cancel(0x72, 0x71).unwrap();
        let batch = flush(&mut ring);
        assert_eq!(batch.len(), 2);
        assert_eq!(batch[1], SubmissionEntry::cancel(0x72, 0x71));
        assert_eq!(batch[1].operation, Operation::Cancel { target: batch[0].tag });
        assert_ne!(batch[1].tag, batch[0].tag);

        let cancelled = completion(0x71, -125);
        let accepted = completion(0x72, 0);
        let events =
            if cancel_first { [accepted, cancelled] } else { [cancelled, accepted] };
        let mut out = vec![0u8; 32];
        let mut harvest = Harvest::await_exactly(2, out.len()).unwrap();
        assert_eq!(harvest.offer(&mut ring, Some(events[0]), &mut out), Ok(Directive::Poll));
        assert_eq!(harvest.offer(&mut ring, Some(events[1]), &mut out), Ok(Directive::Finish));

        let mut seen = vec![
            CompletionRecord::decode(&out[..16]).unwrap(),
            CompletionRecord::decode(&out[16..]).unwrap(),
        ];
        assert_eq!(seen, events.to_vec());
        seen.sort_by_key(|record| record.tag);
        assert_eq!(seen[0].tag, 0x71);
        assert!(seen[0].result < 0);
        assert_eq!(seen[0].outcome(), Err(125));
        assert_eq!(seen[1].tag, 0x72);
        assert!(seen[1].result >= 0);
    }
}

#[test]
fn accepted_flush_returns_the_count_and_frees_the_queue() {
    let mut ring = Ring::create(3, Some(4)).unwrap();
    ring.cancel(1, 9).unwrap();
    ring.cancel(2, 9).unwrap();
    ring.cancel(3, 9).unwrap();
    let batch = ring.submit();
    assert_eq!(batch.len(), 3);
    assert_eq!(ring.pending(), 0);
    assert_eq!(ring.unaccepted(), 3);
    assert_eq!(ring.cancel(4, 9), Err(Error::QueueFull));
    assert_eq!(ring.acknowledge(Ok(3)), Ok(3));
    assert_eq!(ring.unaccepted(), 0);
    assert_eq!(ring.cancel(4, 9), Ok(()));
    assert_eq!(ring.destroy(), Leftover { entries: 1, unaccepted: 0, allocations: 0 });
}

#[test]
fn refused_flush_returns_the_code_and_changes_nothing() {
    let mut ring = Ring::create(2, Some(2)).unwrap();
    let text = ring.stat_extended(5, b"/etc/hostname", region(0x4000, 256)).unwrap();
    ring.cancel(6, 5).unwrap();
    let batch = ring.submit();
    assert_eq!(batch.len(), 2);
    assert_eq!(ring.acknowledge(Err(16)), Err(Error::SubmitFailed { code: 16 }));
    assert_eq!(ring.acknowledge(Err(-11)), Err(Error::SubmitFailed { code: -11 }));
    assert_eq!(ring.unaccepted(), 2);
    assert_eq!(ring.pending(), 0);
    assert_eq!(ring.in_flight(5), 1);
    assert_eq!(ring.cancel(7, 5), Err(Error::QueueFull));
    assert_eq!(ring.free_text(text), Err(Error::StillInFlight));
    assert_eq!(ring.text(text), Some(&b"/etc/hostname\0".to_vec()));

    assert_eq!(ring.submit(), Vec::new());
    assert_eq!(ring.acknowledge(Ok(2)), Ok(2));
    assert_eq!(ring.unaccepted(), 0);
    assert_eq!(ring.cancel(7, 5), Ok(()));
    ring.complete(5);
    assert_eq!(ring.free_text(text), Ok(()));
}

#[test]
fn partly_accepted_flush_keeps_the_rest_in_the_queue() {
    let mut ring = Ring::create(4, Some(4)).unwrap();
    for tag in 0..4u64 {
        ring.cancel(tag, 99).unwrap();
    }
    assert_eq!(ring.submit().len(), 4);
    assert_eq!(ring.acknowledge(Ok(1)), Ok(1));
    assert_eq!(ring.unaccepted(), 3);
    assert_eq!(ring.cancel(10, 99), Ok(()));
    assert_eq!(ring.cancel(11, 99), Err(Error::QueueFull));
    assert_eq!(ring.acknowledge(Ok(0)), Ok(0));
    assert_eq!(ring.unaccepted(), 3);
    assert_eq!(ring.submit(), vec![SubmissionEntry::cancel(10, 99)]);
    assert_eq!(ring.unaccepted(), 4);
    assert_eq!(ring.acknowledge(Ok(9)), Ok(9));
    assert_eq!(ring.unaccepted(), 0);
    assert_eq!(ring.destroy(), Leftover { entries: 0, unaccepted: 0, allocations: 0 });
}

#[test]
fn two_stats_under_one_tag_are_released_by_the_second_completion() {
    let mut ring = Ring::create(4, Some(4)).unwrap();
    let first = ring.stat_extended(7, b"/a", region(0x4000, 256)).unwrap();
    let second = ring.stat_extended(7, b"/b", region(0x5000, 256)).unwrap();
    let _ = flush(&mut ring);
    assert_eq!(ring.in_flight(7), 2);
    ring.complete(7);
    assert_eq!(ring.in_flight(7), 1);
    assert_eq!(ring.free_text(first), Err(Error::StillInFlight));
    assert_eq!(ring.free_text(second), Err(Error::StillInFlight));
    ring.complete(7);
    assert_eq!(ring.in_flight(7), 0);
    assert_eq!(ring.free_text(first), Ok(()));
    assert_eq!(ring.free_text(second), Ok(()));
}

#[test]
fn read_under_the_tag_of_a_stat_does_not_release_its_text() {
    let mut ring = Ring::create(4, Some(4)).unwrap();
    ring.read(7, 3, 0, region(0x1000, 16), false).unwrap();
    let text = ring.stat_extended(7, b"/a", region(0x4000, 256)).unwrap();
    let _ = flush(&mut ring);
    let mut out = vec![0u8; 32];
    let mut harvest = Harvest::await_exactly(2, out.len()).unwrap();
    assert_eq!(harvest.offer(&mut ring, Some(completion(7, 16)), &mut out), Ok(Directive::Poll));
    assert_eq!(ring.free_text(text), Err(Error::StillInFlight));
    assert_eq!(harvest.offer(&mut ring, Some(completion(7, 0)), &mut out), Ok(Directive::Finish));
    assert_eq!(ring.free_text(text), Ok(()));
}
