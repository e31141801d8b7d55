//! The completion harvester.
//!
//! A harvest moves completion records from the kernel's completion queue
//! into an output region of the caller, one record per sixteen-byte slot, in
//! the order in which the kernel reports them. It comes in two modes. A peek
//! takes up to a given number of records and ends as soon as the queue is
//! empty or its region is full; it accepts every region and never waits. An
//! await takes exactly a given number and pauses whenever the queue is
//! empty; it has no timeout.
//!
//! The harvest itself neither polls nor sleeps. It is driven: the driver
//! polls the queue when told to, offers what it found, and is told what to
//! do next. When the harvest is finished the driver advances the queue's
//! read position, so that no record is seen twice.

use crate::error::Error;
use crate::ring::Ring;
use crate::wire::{lemma_wire_length, place, CompletionRecord, RECORD_SIZE};
use vstd::prelude::*;

verus! {

/// The two ways to harvest.
#[derive(Clone, Copy, Debug, PartialEq, Eq, Structural)]
pub enum HarvestMode {
    /// Take what is there, up to a maximum; never wait.
    Peek,
    /// Take an exact number; wait for what is not there yet.
    Await,
}

/// What the driver of a harvest must do next.
#[derive(Clone, Copy, Debug, PartialEq, Eq, Structural)]
pub enum Directive {
    /// Poll the completion queue and offer the outcome.
    Poll,
    /// The queue was empty: sleep for a short, fixed time, look for new
    /// completions, then poll and offer the outcome.
    Pause,
    /// The harvest is over: advance the read position of the queue.
    Finish,
}

/// Microseconds that the driver of a harvest sleeps when it is told to
/// pause.
pub const PAUSE_MICROS: u64 = 50;

/// A harvest as its mode, its goal, the number of records taken so far, and
/// whether it is over. The goal of an await is the number of records asked
/// for; the goal of a peek is the greatest number it may take, which is the
/// number asked for or the number of slots of its region, whichever is less.
pub struct HarvestView {
    pub mode: HarvestMode,
    pub goal: nat,
    pub taken: nat,
    pub finished: bool,
}

impl HarvestView {
    /// No more records are taken than wanted; a harvest that took all it
    /// wanted is over, and an await is over only then.
    pub open spec fn wf(self) -> bool {
        &&& self.taken <= self.goal
        &&& self.taken == self.goal ==> self.finished
        &&& self.mode == HarvestMode::Await && self.finished ==> self.taken == self.goal
    }

    /// A harvest that has taken nothing yet.
    pub open spec fn start(mode: HarvestMode, goal: nat) -> HarvestView {
        HarvestView { mode, goal, taken: 0, finished: goal == 0 }
    }

    /// Whether the harvest takes the record that `event` holds.
    pub open spec fn takes(self, event: Option<CompletionRecord>) -> bool {
        !self.finished && event is Some
    }

    /// The harvest after `event`, the outcome of one poll, was offered.
    pub open spec fn step(self, event: Option<CompletionRecord>) -> HarvestView {
        if self.finished {
            self
        } else if event is Some {
            HarvestView {
                mode: self.mode,
                goal: self.goal,
                taken: self.taken + 1,
                finished: self.taken + 1 == self.goal,
            }
        } else if self.mode == HarvestMode::Peek {
            HarvestView { mode: self.mode, goal: self.goal, taken: self.taken, finished: true }
        } else {
            self
        }
    }

    /// What the driver is told after `event` was offered.
    pub open spec fn answer(self, event: Option<CompletionRecord>) -> Directive {
        if self.step(event).finished {
            Directive::Finish
        } else if event is Some {
            Directive::Poll
        } else {
            Directive::Pause
        }
    }

    /// Whether a region of `length` bytes has the slot for the record that
    /// `event` holds, if the harvest takes it.
    pub open spec fn fits(self, length: nat, event: Option<CompletionRecord>) -> bool {
        self.takes(event) ==> (self.taken + 1) * RECORD_SIZE <= length
    }

    /// The output region after `event` was offered: a record that is taken
    /// goes into the next free slot, and nothing else changes.
    pub open spec fn written(self, region: Seq<u8>, event: Option<CompletionRecord>) -> Seq<u8> {
        if self.takes(event) {
            place(region, self.taken, event->Some_0)
        } else {
            region
        }
    }

    /// The harvest after the outcomes of a series of polls were offered.
    pub open spec fn run(self, events: Seq<Option<CompletionRecord>>) -> HarvestView
        decreases events.len(),
    {
        if events.len() == 0 {
            self
        } else {
            self.run(events.drop_last()).step(events.last())
        }
    }

    /// The output region after the outcomes of a series of polls were
    /// offered.
    pub open spec fn run_region(
        self,
        region: Seq<u8>,
        events: Seq<Option<CompletionRecord>>,
    ) -> Seq<u8>
        decreases events.len(),
    {
        if events.len() == 0 {
            region
        } else {
            self.run(events.drop_last()).written(
                self.run_region(region, events.drop_last()),
                events.last(),
            )
        }
    }
}

/// A harvest in progress.
pub struct Harvest {
    mode: HarvestMode,
    goal: usize,
    taken: usize,
    finished: bool,
}

impl View for Harvest {
    type V = HarvestView;

    closed spec fn view(&self) -> HarvestView {
        HarvestView {
            mode: self.mode,
            goal: self.goal as nat,
            taken: self.taken as nat,
            finished: self.finished,
        }
    }
}

impl Harvest {
    /// The representation invariant.
    pub open spec fn wf(&self) -> bool {
        self@.wf()
    }

    /// Begins a peek for at most `max_count` records into an output region of
    /// `region_length` bytes. A peek never takes more records than the
    /// region has slots for: what does not fit stays in the completion queue
    /// for a later harvest. So every region is accepted, the empty one too.
    pub fn peek(max_count: usize, region_length: usize) -> (result: Result<Harvest, Error>)
        ensures
            result is Ok,
            result->Ok_0.wf(),
            result->Ok_0@ == HarvestView::start(
                HarvestMode::Peek,
                at_most(region_length as nat / 16, max_count as nat),
            ),
    {
        let slots: usize = region_length / RECORD_SIZE;
        let goal: usize = if max_count <= slots {
            max_count
        } else {
            slots
        };
        Ok(Harvest { mode: HarvestMode::Peek, goal, taken: 0, finished: goal == 0 })
    }

    /// Begins an await of exactly `exact_count` records into an output region
    /// of `region_length` bytes. A region that cannot hold `exact_count`
    /// records is refused: the await could never end.
    pub fn await_exactly(exact_count: usize, region_length: usize) -> (result: Result<
        Harvest,
        Error,
    >)
        ensures
            exact_count * RECORD_SIZE > region_length ==> result is Err && result->Err_0
                == Error::RegionTooSmall,
            exact_count * RECORD_SIZE <= region_length ==> result is Ok && result->Ok_0.wf()
                && result->Ok_0@ == HarvestView::start(HarvestMode::Await, exact_count as nat),
    {
        if exact_count > region_length / RECORD_SIZE {
            return Err(Error::RegionTooSmall);
        }
        Ok(
            Harvest {
                mode: HarvestMode::Await,
                goal: exact_count,
                taken: 0,
                finished: exact_count == 0,
            },
        )
    }

    /// Number of records taken so far.
    pub fn harvested(&self) -> (count: usize)
        ensures
            count == self@.taken,
    {
        self.taken
    }

    /// Whether the harvest is over.
    pub fn is_finished(&self) -> (finished: bool)
        ensures
            finished == self@.finished,
    {
        self.finished
    }

    /// What the driver must do before the first offer, and after a pause.
    pub fn directive(&self) -> (directive: Directive)
        ensures
            directive == (if self@.finished {
                Directive::Finish
            } else {
                Directive::Poll
            }),
    {
        if self.finished {
            Directive::Finish
        } else {
            Directive::Poll
        }
    }

    /// Offers the outcome of one poll of the completion queue: a record, or
    /// `None` if the queue was empty. A record is written into the next free
    /// slot of `out`, and `ring` learns that the operation with its tag has
    /// completed. An empty queue ends a peek and pauses an await. Offered to
    /// a harvest that is over, an event changes nothing.
    ///
    /// `out` is the region that the harvest was begun for. Should it be too
    /// short for the record, the offer is refused and nothing changes.
    pub fn offer(
        &mut self,
        ring: &mut Ring,
        event: Option<CompletionRecord>,
        out: &mut [u8],
    ) -> (result: Result<Directive, Error>)
        requires
            old(self).wf(),
            old(ring).wf(),
        ensures
            final(self).wf(),
            final(ring).wf(),
            !old(self)@.fits(old(out)@.len(), event) ==> {
                &&& result == Err::<Directive, Error>(Error::RegionTooSmall)
                &&& final(self)@ == old(self)@
                &&& final(out)@ == old(out)@
                &&& final(ring)@ == old(ring)@
            },
            old(self)@.fits(old(out)@.len(), event) ==> {
                &&& result == Ok::<Directive, Error>(old(self)@.answer(event))
                &&& final(self)@ == old(self)@.step(event)
                &&& final(out)@ == old(self)@.written(old(out)@, event)
                &&& final(ring)@ == (if old(self)@.takes(event) {
                    old(ring)@.complete(event->Some_0.tag)
                } else {
                    old(ring)@
                })
            },
    {
        if self.finished {
            return Ok(Directive::Finish);
        }
        match event {
            Some(record) => {
                match record.write_to(out, self.taken) {
                    Ok(()) => {},
                    Err(error) => {
                        return Err(error);
                    },
                }
                ring.complete(record.tag);
                self.taken = self.taken + 1;
                self.finished = self.taken == self.goal;
                if self.finished {
                    Ok(Directive::Finish)
                } else {
                    Ok(Directive::Poll)
                }
            },
            None => {
                match self.mode {
                    HarvestMode::Peek => {
                        self.finished = true;
                        Ok(Directive::Finish)
                    },
                    HarvestMode::Await => Ok(Directive::Pause),
                }
            },
        }
    }
}

/// The records among the outcomes of a series of polls, in order.
pub open spec fn completions(events: Seq<Option<CompletionRecord>>) -> Seq<CompletionRecord>
    decreases events.len(),
{
    if events.len() == 0 {
        Seq::empty()
    } else if events.last() is Some {
        completions(events.drop_last()).push(events.last()->Some_0)
    } else {
        completions(events.drop_last())
    }
}

/// Whether one of the polls found the queue empty.
pub open spec fn found_empty(events: Seq<Option<CompletionRecord>>) -> bool {
    exists|i: int| 0 <= i < events.len() && #[trigger] events[i] is None
}

/// The records that were found before the queue was first found empty.
pub open spec fn leading(events: Seq<Option<CompletionRecord>>) -> Seq<CompletionRecord>
    decreases events.len(),
{
    if events.len() == 0 {
        Seq::empty()
    } else if events.last() is Some && !found_empty(events.drop_last()) {
        leading(events.drop_last()).push(events.last()->Some_0)
    } else {
        leading(events.drop_last())
    }
}

/// The wire form of a series of records: one after the other.
pub open spec fn wire_all(records: Seq<CompletionRecord>) -> Seq<u8>
    decreases records.len(),
{
    if records.len() == 0 {
        Seq::empty()
    } else {
        wire_all(records.drop_last()) + records.last().wire()
    }
}

/// A region whose first slots hold `records` in order; the bytes behind them
/// are as in `region`.
pub open spec fn fill(region: Seq<u8>, records: Seq<CompletionRecord>) -> Seq<u8> {
    wire_all(records) + region.subrange(records.len() as int * 16, region.len() as int)
}

/// The smaller of two numbers.
pub open spec fn at_most(limit: nat, count: nat) -> nat {
    if count <= limit {
        count
    } else {
        limit
    }
}

/// The wire form of `records` is sixteen bytes per record.
pub proof fn lemma_wire_all_length(records: Seq<CompletionRecord>)
    ensures
        wire_all(records).len() == records.len() * 16,
    decreases records.len(),
{
    if records.len() > 0 {
        lemma_wire_all_length(records.drop_last());
        lemma_wire_length(records.last());
    }
}

proof fn lemma_fill_next(region: Seq<u8>, records: Seq<CompletionRecord>, next: CompletionRecord)
    requires
        (records.len() + 1) * 16 <= region.len(),
    ensures
        place(fill(region, records), records.len(), next) == fill(region, records.push(next)),
{
    let more = records.push(next);
    assert(more.drop_last() =~= records);
    lemma_wire_all_length(records);
    lemma_wire_length(next);
    let filled = fill(region, records);
    let cut = records.len() as int * 16;
    assert(filled.subrange(0, cut) =~= wire_all(records));
    assert(filled.subrange(cut + 16, filled.len() as int) =~= region.subrange(
        cut + 16,
        region.len() as int,
    ));
    assert(place(filled, records.len(), next) =~= fill(region, more));
}

/// A region that holds as many records as a harvest wants has the slot for
/// every record that the harvest takes.
pub proof fn lemma_region_suffices(
    harvest: HarvestView,
    length: nat,
    event: Option<CompletionRecord>,
)
    requires
        harvest.wf(),
        harvest.goal * 16 <= length,
    ensures
        harvest.fits(length, event),
        harvest.step(event).wf(),
        harvest.step(event).goal == harvest.goal,
{
}

/// A peek of an empty completion queue, whatever the number asked for and
/// whatever the region: it takes nothing, leaves the region as it was and
/// ends at once. No peek ever pauses.
pub proof fn lemma_peek_of_empty_queue(max_count: nat, region: Seq<u8>)
    ensures
        ({
            let harvest = HarvestView::start(
                HarvestMode::Peek,
                at_most(region.len() / 16, max_count),
            );
            &&& harvest.step(None).taken == 0
            &&& harvest.step(None).finished
            &&& harvest.answer(None) == Directive::Finish
            &&& harvest.fits(region.len(), None)
            &&& harvest.written(region, None) == region
        }),
        forall|harvest: HarvestView, event: Option<CompletionRecord>|
            harvest.mode == HarvestMode::Peek ==> #[trigger] harvest.answer(event)
                != Directive::Pause,
{
}

/// An await of `exact_count` records, whatever the polls find and however
/// often the queue is empty in between: it takes the records in the order
/// in which they are found, it is over exactly when `exact_count` records
/// were found, and then the output region starts with exactly these records
/// and is unchanged behind them.
pub proof fn lemma_await_takes_exactly(
    exact_count: nat,
    region: Seq<u8>,
    events: Seq<Option<CompletionRecord>>,
)
    requires
        exact_count * 16 <= region.len(),
    ensures
        ({
            let harvest = HarvestView::start(HarvestMode::Await, exact_count);
            let found = completions(events);
            let taken = at_most(exact_count, found.len());
            &&& harvest.run(events) == HarvestView {
                mode: HarvestMode::Await,
                goal: exact_count,
                taken,
                finished: found.len() >= exact_count,
            }
            &&& harvest.run_region(region, events) == fill(region, found.take(taken as int))
        }),
    decreases events.len(),
{
    let found = completions(events);
    let taken = at_most(exact_count, found.len());
    if events.len() == 0 {
        assert(found.take(0) =~= Seq::<CompletionRecord>::empty());
        assert(fill(region, Seq::empty()) =~= region);
    } else {
        let front = events.drop_last();
        lemma_await_takes_exactly(exact_count, region, front);
        let before = completions(front);
        let had = at_most(exact_count, before.len());
        if events.last() is Some {
            let record = events.last()->Some_0;
            if before.len() < exact_count {
                assert(before.take(had as int) =~= before);
                assert(found.take(taken as int) =~= before.push(record));
                lemma_fill_next(region, before, record);
            } else {
                assert(found.take(taken as int) =~= before.take(had as int));
            }
        }
    }
}

/// A peek for at most `max_count` records into any region, whatever the
/// polls find. It takes the records that are found before the queue is first
/// found empty, in order, and no more than `max_count` nor more than the
/// region has slots for. It is over as soon as it took that many or found
/// the queue empty. The region then starts with exactly the records taken
/// and is unchanged behind them. Where the region has room for all that is
/// there, up to `max_count`, that is what the peek takes.
pub proof fn lemma_peek_takes_leading(
    max_count: nat,
    region: Seq<u8>,
    events: Seq<Option<CompletionRecord>>,
)
    ensures
        ({
            let goal = at_most(region.len() / 16, max_count);
            let harvest = HarvestView::start(HarvestMode::Peek, goal);
            let found = leading(events);
            let taken = at_most(goal, found.len());
            &&& harvest.run(events) == HarvestView {
                mode: HarvestMode::Peek,
                goal,
                taken,
                finished: found.len() >= goal || found_empty(events),
            }
            &&& harvest.run_region(region, events) == fill(region, found.take(taken as int))
            &&& region.len() >= 16 * at_most(max_count, found.len()) ==> taken == at_most(
                max_count,
                found.len(),
            )
        }),
{
    let goal = at_most(region.len() / 16, max_count);
    lemma_peek_run(goal, region, events);
}

proof fn lemma_peek_run(goal: nat, region: Seq<u8>, events: Seq<Option<CompletionRecord>>)
    requires
        goal * 16 <= region.len(),
    ensures
        ({
            let harvest = HarvestView::start(HarvestMode::Peek, goal);
            let found = leading(events);
            let taken = at_most(goal, found.len());
            &&& harvest.run(events) == HarvestView {
                mode: HarvestMode::Peek,
                goal,
                taken,
                finished: found.len() >= goal || found_empty(events),
            }
            &&& harvest.run_region(region, events) == fill(region, found.take(taken as int))
        }),
    decreases events.len(),
{
    let found = leading(events);
    let taken = at_most(goal, found.len());
    if events.len() == 0 {
        assert(found.take(0) =~= Seq::<CompletionRecord>::empty());
        assert(fill(region, Seq::empty()) =~= region);
    } else {
        let front = events.drop_last();
        lemma_peek_run(goal, region, front);
        let before = leading(front);
        let had = at_most(goal, before.len());
        assert(found_empty(events) <==> (found_empty(front) || events.last() is None)) by {
            if found_empty(front) {
                let i = choose|i: int| 0 <= i < front.len() && #[trigger] front[i] is None;
                assert(events[i] is None);
            }
            if events.last() is None {
                assert(events[events.len() - 1] is None);
            }
            if found_empty(events) {
                let i = choose|i: int| 0 <= i < events.len() && #[trigger] events[i] is None;
                if i < front.len() {
                    assert(front[i] is None);
                }
            }
        }
        if events.last() is Some && !found_empty(front) {
            let record = events.last()->Some_0;
            if before.len() < goal {
                assert(before.take(had as int) =~= before);
                assert(found.take(taken as int) =~= before.push(record));
                lemma_fill_next(region, before, record);
            } else {
                assert(found.take(taken as int) =~= before.take(had as int));
            }
        }
    }
}

} // verus!
