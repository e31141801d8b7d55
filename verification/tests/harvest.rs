use zio_uring::error::Error;
use zio_uring::harvest::{Directive, Harvest, PAUSE_MICROS};
use zio_uring::ring::Ring;
use zio_uring::wire::CompletionRecord;

fn ring() -> Ring {
    Ring::create(8, Some(8)).unwrap()
}

fn completion(tag: u64, result: i32, flags: u32) -> CompletionRecord {
    CompletionRecord { tag, result, flags }
}

fn drive(
    harvest: &mut Harvest,
    ring: &mut Ring,
    events: &[Option<CompletionRecord>],
    out: &mut [u8],
) -> (usize, usize) {
    let mut polls = 0;
    let mut pauses = 0;
    let mut directive = harvest.directive();
    loop {
        match directive {
            Directive::Finish => return (polls, pauses),
            Directive::Pause => {
                pauses += 1;
                directive = Directive::Poll;
            }
            Directive::Poll => {
                if polls == events.len() {
                    return (polls, pauses);
                }
                directive = harvest.offer(ring, events[polls], out).unwrap();
                polls += 1;
            }
        }
    }
}

#[test]
fn peek_of_an_empty_queue_takes_nothing_and_does_not_wait() {
    let mut ring = ring();
    let mut out = vec![0x5au8; 64];
    let mut harvest = Harvest::peek(4, out.len()).unwrap();
    assert_eq!(harvest.directive(), Directive::Poll);
    assert_eq!(harvest.offer(&mut ring, None, &mut out), Ok(Directive::Finish));
    assert_eq!(harvest.harvested(), 0);
    assert!(harvest.is_finished());
    assert_eq!(harvest.directive(), Directive::Finish);
    assert_eq!(out, vec![0x5au8; 64]);
}

#[test]
fn peek_for_nothing_is_over_before_the_first_poll() {
    let mut ring = ring();
    let mut out: Vec<u8> = Vec::new();
    let mut harvest = Harvest::peek(0, 0).unwrap();
    assert!(harvest.is_finished());
    assert_eq!(harvest.directive(), Directive::Finish);
    assert_eq!(
        harvest.offer(&mut ring, Some(completion(1, 1, 1)), &mut out),
        Ok(Directive::Finish)
    );
    assert_eq!(harvest.harvested(), 0);
}

#[test]
fn peek_takes_what_is_there() {
    let mut ring = ring();
    let mut out = vec![0xeeu8; 64];
    let mut harvest = Harvest::peek(4, out.len()).unwrap();
    let first = completion(1, 100, 0);
    let second = completion(2, -5, 7);
    assert_eq!(harvest.offer(&mut ring, Some(first), &mut out), Ok(Directive::Poll));
    assert_eq!(harvest.offer(&mut ring, Some(second), &mut out), Ok(Directive::Poll));
    assert_eq!(harvest.offer(&mut ring, None, &mut out), Ok(Directive::Finish));
    assert_eq!(harvest.harvested(), 2);
    assert_eq!(&out[..16], &first.encode()[..]);
    assert_eq!(&out[16..32], &second.encode()[..]);
    assert_eq!(&out[32..], &[0xeeu8; 32][..]);
}

#[test]
fn peek_stops_at_its_maximum() {
    let mut ring = ring();
    let mut out = vec![0u8; 40];
    let mut harvest = Harvest::peek(2, out.len()).unwrap();
    let events = [
        Some(completion(1, 1, 0)),
        Some(completion(2, 2, 0)),
        Some(completion(3, 3, 0)),
        None,
    ];
    assert_eq!(drive(&mut harvest, &mut ring, &events, &mut out), (2, 0));
    assert_eq!(harvest.harvested(), 2);
    assert_eq!(CompletionRecord::decode(&out[..16]), Some(completion(1, 1, 0)));
    assert_eq!(CompletionRecord::decode(&out[16..32]), Some(completion(2, 2, 0)));
    assert_eq!(&out[32..], &[0u8; 8][..]);
}

#[test]
fn peek_never_pauses() {
    let mut ring = ring();
    let mut out = vec![0u8; 48];
    let mut harvest = Harvest::peek(3, out.len()).unwrap();
    let events = [Some(completion(1, 1, 0)), None, Some(completion(2, 2, 0)), None];
    assert_eq!(drive(&mut harvest, &mut ring, &events, &mut out), (2, 0));
    assert_eq!(harvest.harvested(), 1);
    assert_eq!(&out[16..], &[0u8; 32][..]);
}

#[test]
fn event_offered_to_a_finished_harvest_changes_nothing() {
    let mut ring = ring();
    let mut out = vec![0u8; 16];
    let mut harvest = Harvest::peek(1, out.len()).unwrap();
    assert_eq!(
        harvest.offer(&mut ring, Some(completion(1, 1, 0)), &mut out),
        Ok(Directive::Finish)
    );
    let before = out.clone();
    assert_eq!(
        harvest.offer(&mut ring, Some(completion(2, 2, 0)), &mut out),
        Ok(Directive::Finish)
    );
    assert_eq!(harvest.offer(&mut ring, None, &mut out), Ok(Directive::Finish));
    assert_eq!(harvest.harvested(), 1);
    assert_eq!(out, before);
}

#[test]
fn await_pauses_while_the_queue_is_empty() {
    let mut ring = ring();
    let mut out = vec![0u8; 32];
    let mut harvest = Harvest::await_exactly(2, out.len()).unwrap();
    assert_eq!(harvest.directive(), Directive::Poll);
    assert_eq!(harvest.offer(&mut ring, None, &mut out), Ok(Directive::Pause));
    assert_eq!(harvest.offer(&mut ring, None, &mut out), Ok(Directive::Pause));
    assert!(!harvest.is_finished());
    assert_eq!(harvest.harvested(), 0);
    assert_eq!(out, vec![0u8; 32]);
    assert_eq!(harvest.offer(&mut ring, Some(completion(5, 1, 0)), &mut out), Ok(Directive::Poll));
    assert_eq!(harvest.offer(&mut ring, None, &mut out), Ok(Directive::Pause));
    assert_eq!(harvest.directive(), Directive::Poll);
    assert_eq!(
        harvest.offer(&mut ring, Some(completion(6, 2, 0)), &mut out),
        Ok(Directive::Finish)
    );
    assert!(harvest.is_finished());
    assert_eq!(harvest.harvested(), 2);
}

#[test]
fn await_returns_after_exactly_the_count_wanted() {
    let mut ring = ring();
    let mut out = vec![0x11u8; 64];
    let mut harvest = Harvest::await_exactly(3, out.len()).unwrap();
    let events = [
        None,
        Some(completion(30, 3, 0)),
        None,
        None,
        Some(completion(10, 1, 0)),
        Some(completion(20, 2, 0)),
        Some(completion(40, 4, 0)),
    ];
    assert_eq!(drive(&mut harvest, &mut ring, &events, &mut out), (6, 3));
    assert_eq!(harvest.harvested(), 3);
    assert_eq!(CompletionRecord::decode(&out[..16]), Some(completion(30, 3, 0)));
    assert_eq!(CompletionRecord::decode(&out[16..32]), Some(completion(10, 1, 0)));
    assert_eq!(CompletionRecord::decode(&out[32..48]), Some(completion(20, 2, 0)));
    assert_eq!(&out[48..], &[0x11u8; 16][..]);
}

#[test]
fn await_of_writes_yields_a_permutation_of_the_tags() {
    let mut ring = ring();
    let submitted: Vec<u64> = vec![101, 102, 103, 104, 105];
    for (index, tag) in submitted.iter().enumerate() {
        let buffer = zio_uring::entry::MemoryRegion { address: 0x1000, length: 8 };
        ring.write(*tag, 10 + index as i32, 0, buffer, false).unwrap();
    }
    assert_eq!(ring.submit().len(), 5);
    assert_eq!(ring.acknowledge(Ok(5)), Ok(5));

    let order = [104u64, 101, 105, 103, 102];
    let events: Vec<Option<CompletionRecord>> =
        order.iter().map(|tag| Some(completion(*tag, 8, 0))).collect();
    let mut out = vec![0u8; 5 * 16];
    let mut harvest = Harvest::await_exactly(5, out.len()).unwrap();
    assert_eq!(drive(&mut harvest, &mut ring, &events, &mut out), (5, 0));

    let mut tags: Vec<u64> =
        out.chunks(16).map(|slot| CompletionRecord::decode(slot).unwrap().tag).collect();
    assert_eq!(tags, order.to_vec());
    tags.sort();
    assert_eq!(tags, submitted);
}

#[test]
fn await_for_nothing_is_over_before_the_first_poll() {
    let harvest = Harvest::await_exactly(0, 0).unwrap();
    assert!(harvest.is_finished());
    assert_eq!(harvest.directive(), Directive::Finish);
    assert_eq!(harvest.harvested(), 0);
}

#[test]
fn await_region_must_hold_all_records_wanted() {
    assert_eq!(Harvest::await_exactly(1, 15).err(), Some(Error::RegionTooSmall));
    assert_eq!(Harvest::await_exactly(1, 0).err(), Some(Error::RegionTooSmall));
    assert_eq!(Harvest::await_exactly(2, 31).err(), Some(Error::RegionTooSmall));
    assert!(Harvest::await_exactly(2, 32).is_ok());
    assert_eq!(Harvest::await_exactly(usize::MAX, usize::MAX).err(), Some(Error::RegionTooSmall));
    assert_eq!(
        Harvest::await_exactly(usize::MAX / 16 + 1, usize::MAX).err(),
        Some(Error::RegionTooSmall)
    );
    assert!(Harvest::await_exactly(usize::MAX / 16, usize::MAX).is_ok());
}

#[test]
fn peek_accepts_every_region() {
    for (max_count, length) in
        [(0, 0), (1, 0), (1, 15), (4, 16), (10, 16), (4, 63), (4, 64), (usize::MAX, usize::MAX)]
    {
        assert!(Harvest::peek(max_count, length).is_ok());
    }
    assert!(Harvest::peek(1, 0).unwrap().is_finished());
    assert!(Harvest::peek(3, 15).unwrap().is_finished());
    assert!(!Harvest::peek(3, 16).unwrap().is_finished());
}

#[test]
fn peek_of_an_empty_queue_takes_nothing_whatever_the_region() {
    for length in [0usize, 1, 15, 16, 17, 31, 64] {
        let mut ring = ring();
        let mut out = vec![0x5au8; length];
        let mut harvest = Harvest::peek(10, out.len()).unwrap();
        assert_eq!(drive(&mut harvest, &mut ring, &[None, None], &mut out).1, 0);
        assert_eq!(harvest.harvested(), 0);
        assert!(harvest.is_finished());
        assert_eq!(out, vec![0x5au8; length]);
    }
}

#[test]
fn peek_for_more_than_is_there_needs_room_only_for_what_is_there() {
    let mut ring = ring();
    let mut out = vec![0u8; 16];
    let mut harvest = Harvest::peek(10, out.len()).unwrap();
    let only = completion(1, 5, 0);
    assert_eq!(harvest.offer(&mut ring, Some(only), &mut out), Ok(Directive::Finish));
    assert_eq!(harvest.harvested(), 1);
    assert_eq!(CompletionRecord::decode(&out), Some(only));
}

#[test]
fn peek_leaves_in_the_queue_what_its_region_cannot_hold() {
    let mut ring = ring();
    let mut out = vec![0x99u8; 40];
    let mut harvest = Harvest::peek(10, out.len()).unwrap();
    let events = [
        Some(completion(1, 1, 0)),
        Some(completion(2, 2, 0)),
        Some(completion(3, 3, 0)),
        None,
    ];
    assert_eq!(drive(&mut harvest, &mut ring, &events, &mut out), (2, 0));
    assert_eq!(harvest.harvested(), 2);
    assert_eq!(CompletionRecord::decode(&out[..16]), Some(completion(1, 1, 0)));
    assert_eq!(CompletionRecord::decode(&out[16..32]), Some(completion(2, 2, 0)));
    assert_eq!(&out[32..], &[0x99u8; 8][..]);
}

#[test]
fn harvested_completion_releases_what_its_operation_referred_to() {
    let mut ring = ring();
    let buffer = zio_uring::entry::MemoryRegion { address: 0x4000, length: 256 };
    let text = ring.stat_extended(9, b"/proc/self", buffer).unwrap();
    let _ = ring.submit();
    let mut out = vec![0u8; 16];
    let mut harvest = Harvest::peek(1, out.len()).unwrap();
    assert_eq!(ring.free_text(text), Err(Error::StillInFlight));
    assert_eq!(
        harvest.offer(&mut ring, Some(completion(9, 0, 0)), &mut out),
        Ok(Directive::Finish)
    );
    assert_eq!(ring.free_text(text), Ok(()));
}

#[test]
fn ignored_event_releases_nothing() {
    let mut ring = ring();
    let buffer = zio_uring::entry::MemoryRegion { address: 0x4000, length: 256 };
    let text = ring.stat_extended(9, b"/proc/self", buffer).unwrap();
    let _ = ring.submit();
    let mut out: Vec<u8> = Vec::new();
    let mut harvest = Harvest::peek(0, 0).unwrap();
    assert_eq!(
        harvest.offer(&mut ring, Some(completion(9, 0, 0)), &mut out),
        Ok(Directive::Finish)
    );
    assert_eq!(ring.free_text(text), Err(Error::StillInFlight));
}

#[test]
fn offer_into_a_shorter_region_is_refused_and_changes_nothing() {
    let mut ring = ring();
    let buffer = zio_uring::entry::MemoryRegion { address: 0x4000, length: 256 };
    let text = ring.stat_extended(9, b"/proc/self", buffer).unwrap();
    let _ = ring.submit();
    let mut harvest = Harvest::await_exactly(2, 32).unwrap();
    let mut short = vec![0x77u8; 31];
    assert_eq!(
        harvest.offer(&mut ring, Some(completion(1, 0, 0)), &mut short),
        Ok(Directive::Poll)
    );
    assert_eq!(&short[16..], &[0x77u8; 15][..]);
    let before = short.clone();
    assert_eq!(
        harvest.offer(&mut ring, Some(completion(9, 0, 0)), &mut short),
        Err(Error::RegionTooSmall)
    );
    assert_eq!(short, before);
    assert_eq!(harvest.harvested(), 1);
    assert!(!harvest.is_finished());
    assert_eq!(ring.free_text(text), Err(Error::StillInFlight));
    assert_eq!(harvest.offer(&mut ring, None, &mut short), Ok(Directive::Pause));

    let mut full = vec![0u8; 32];
    assert_eq!(
        harvest.offer(&mut ring, Some(completion(9, 0, 0)), &mut full),
        Ok(Directive::Finish)
    );
    assert_eq!(CompletionRecord::decode(&full[16..]), Some(completion(9, 0, 0)));
    assert_eq!(ring.free_text(text), Ok(()));
}

#[test]
fn pause_lasts_tens_of_microseconds() {
    assert_eq!(PAUSE_MICROS, 50);
}
