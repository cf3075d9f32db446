//! Backfill batch sizing for resumable subscriptions.
//!
//! A scan walks past checkpoints in batches until it is within `transition_threshold` of the
//! network tip. The remaining gap is left for the caller to bridge by consuming the live
//! broadcast.
//!
//! ```text
//!   start_after        last_scanned        tip - threshold      network_tip
//!        |                  |                     |                  |
//!        v                  v                     v                  v
//!   -----[batch][batch][batch][batch][batch]------[------ gap -------]
//!         (yielded, each up to max_batch_size)     (caller bridges
//!                                                   via live broadcast)
//! ```

use std::ops::RangeInclusive;

use vstd::prelude::*;
use vstd::std_specs::range::*;

verus! {

pub open spec fn min(a: int, b: int) -> int {
    if a <= b {
        a
    } else {
        b
    }
}

pub open spec fn max(a: int, b: int) -> int {
    if a >= b {
        a
    } else {
        b
    }
}

/// The scan is close enough to the tip for the live broadcast to take over.
pub open spec fn is_near_tip(last_scanned: u64, tip: u64, threshold: u64) -> bool {
    tip - last_scanned <= threshold
}

/// The last checkpoint of the batch behind `last_scanned`: the batch is full, or ends at the
/// tip. Its end never passes the number before the largest one.
pub open spec fn batch_end(last_scanned: u64, tip: u64, max_batch_size: usize) -> int {
    min(min(last_scanned + 1 + max_batch_size, u64::MAX as int) - 1, tip as int)
}

/// Pick the next batch of checkpoints to scan, or signal that the scan is close enough to the
/// tip to hand off to the live broadcast.
///
/// The batch grows up to `max_batch_size` but never exceeds `tip_checkpoint`, so the trailing
/// batch shrinks as the scan approaches the tip.
///
/// Once the remaining gap (`tip_checkpoint - last_scanned_checkpoint`) is at or below
/// `transition_threshold`, there is none.
pub fn next_backfill_batch(
    last_scanned_checkpoint: u64,
    tip_checkpoint: u64,
    max_batch_size: usize,
    transition_threshold: u64,
) -> (res: Option<RangeInclusive<u64>>)
    ensures
        res is None <==> is_near_tip(last_scanned_checkpoint, tip_checkpoint, transition_threshold),
        res is None <==> tip_checkpoint - last_scanned_checkpoint <= transition_threshold,
        res matches Some(batch) ==> {
            &&& batch@.start == last_scanned_checkpoint + 1
            &&& batch@.end == batch_end(last_scanned_checkpoint, tip_checkpoint, max_batch_size)
            &&& !batch@.exhausted
            // As far as the tip, as a full batch, or as the number before the largest one goes.
            &&& batch@.end <= tip_checkpoint
            &&& batch@.end <= last_scanned_checkpoint + max_batch_size
            &&& batch@.end <= u64::MAX - 1
            &&& batch@.end == tip_checkpoint || batch@.end == last_scanned_checkpoint
                + max_batch_size || batch@.end == u64::MAX - 1
        },
{
    let gap = tip_checkpoint.saturating_sub(last_scanned_checkpoint);
    if gap <= transition_threshold {
        return None;
    }
    let lo = last_scanned_checkpoint + 1;
    let full = lo.saturating_add(max_batch_size as u64).saturating_sub(1);
    let hi = if full <= tip_checkpoint {
        full
    } else {
        tip_checkpoint
    };
    Some(RangeInclusive::new(lo, hi))
}

/// Where a scan stands.
#[derive(Clone, Copy, Debug, PartialEq, Eq, Structural)]
pub enum ScanPhase {
    /// The network tip is to be read.
    ReadTip,
    /// A batch has been asked for, and its checkpoints come in.
    Batch,
    Ended,
}

/// What a scan is told.
#[derive(Clone, Copy, Debug, PartialEq, Eq, Structural)]
pub enum ScanEvent {
    /// The network tip.
    Tip(u64),
    /// The next checkpoint of the batch, by its sequence number.
    Processed(u64),
    /// The batch holds no more checkpoints.
    BatchDone,
    /// The batch could not be fetched.
    FetchFailed,
}

/// What a scan asks for.
#[derive(Debug, PartialEq, Eq)]
pub enum ScanAction {
    /// Read the network tip.
    ReadTip,
    /// Fetch and process a batch of checkpoints.
    Fetch(RangeInclusive<u64>),
    /// Hand out the checkpoint, then go on with the batch.
    Yield(u64),
    /// Hand out the error of the fetch, and end.
    Fail,
    /// End: the live broadcast takes over.
    HandOff,
}

/// What a scan asks for, with the batch as its bounds.
pub enum ScanActionView {
    ReadTip,
    Fetch(RangeInclusiveView<u64>),
    Yield(u64),
    Fail,
    HandOff,
}

impl View for ScanAction {
    type V = ScanActionView;

    open spec fn view(&self) -> ScanActionView {
        match *self {
            ScanAction::ReadTip => ScanActionView::ReadTip,
            ScanAction::Fetch(batch) => ScanActionView::Fetch(batch@),
            ScanAction::Yield(sequence_number) => ScanActionView::Yield(sequence_number),
            ScanAction::Fail => ScanActionView::Fail,
            ScanAction::HandOff => ScanActionView::HandOff,
        }
    }
}

/// A scan of past checkpoints.
#[derive(Clone, Copy, Debug, PartialEq, Eq, Structural)]
pub struct BackfillScan {
    pub last_scanned: u64,
    pub max_batch_size: usize,
    pub transition_threshold: u64,
    pub phase: ScanPhase,
}

/// A scan at its start.
pub open spec fn started(
    start_after: u64,
    max_batch_size: usize,
    transition_threshold: u64,
) -> BackfillScan {
    BackfillScan {
        last_scanned: start_after,
        max_batch_size,
        transition_threshold,
        phase: ScanPhase::ReadTip,
    }
}

/// A scan that yields the checkpoints from `start_after + 1` onward, in batches. It ends once
/// it is within `transition_threshold` of the network tip; the caller then takes over by
/// consuming the live broadcast, to which it subscribed before the scan started.
pub fn scan_checkpoints(
    start_after: u64,
    max_batch_size: usize,
    transition_threshold: u64,
) -> (res: BackfillScan)
    ensures
        res == started(start_after, max_batch_size, transition_threshold),
{
    BackfillScan {
        last_scanned: start_after,
        max_batch_size,
        transition_threshold,
        phase: ScanPhase::ReadTip,
    }
}

impl BackfillScan {
    /// The tip is told when it has been asked for, the rest while a batch comes in.
    pub open spec fn accepts(self, event: ScanEvent) -> bool {
        match event {
            ScanEvent::Tip(_) => self.phase == ScanPhase::ReadTip,
            _ => self.phase == ScanPhase::Batch,
        }
    }

    /// What the scan asks for on an event.
    pub open spec fn action(self, event: ScanEvent) -> ScanActionView {
        match event {
            ScanEvent::Tip(tip) => if is_near_tip(
                self.last_scanned,
                tip,
                self.transition_threshold,
            ) {
                ScanActionView::HandOff
            } else {
                ScanActionView::Fetch(
                    RangeInclusiveView {
                        start: (self.last_scanned + 1) as u64,
                        end: batch_end(self.last_scanned, tip, self.max_batch_size) as u64,
                        exhausted: false,
                    },
                )
            },
            ScanEvent::Processed(sequence_number) => ScanActionView::Yield(sequence_number),
            ScanEvent::BatchDone => ScanActionView::ReadTip,
            ScanEvent::FetchFailed => ScanActionView::Fail,
        }
    }

    /// The scan after an event.
    pub open spec fn after(self, event: ScanEvent) -> BackfillScan {
        match event {
            ScanEvent::Tip(tip) => BackfillScan {
                phase: if is_near_tip(self.last_scanned, tip, self.transition_threshold) {
                    ScanPhase::Ended
                } else {
                    ScanPhase::Batch
                },
                ..self
            },
            ScanEvent::Processed(sequence_number) => BackfillScan {
                last_scanned: sequence_number,
                ..self
            },
            ScanEvent::BatchDone => BackfillScan { phase: ScanPhase::ReadTip, ..self },
            ScanEvent::FetchFailed => BackfillScan { phase: ScanPhase::Ended, ..self },
        }
    }

    /// Takes in an event and says what to do next.
    pub fn step(&mut self, event: ScanEvent) -> (res: ScanAction)
        requires
            old(self).accepts(event),
        ensures
            *final(self) == old(self).after(event),
            res@ == old(self).action(event),
    {
        match event {
            ScanEvent::Tip(tip) => {
                match next_backfill_batch(
                    self.last_scanned,
                    tip,
                    self.max_batch_size,
                    self.transition_threshold,
                ) {
                    Some(batch) => {
                        self.phase = ScanPhase::Batch;
                        ScanAction::Fetch(batch)
                    },
                    None => {
                        self.phase = ScanPhase::Ended;
                        ScanAction::HandOff
                    },
                }
            },
            ScanEvent::Processed(sequence_number) => {
                self.last_scanned = sequence_number;
                ScanAction::Yield(sequence_number)
            },
            ScanEvent::BatchDone => {
                self.phase = ScanPhase::ReadTip;
                ScanAction::ReadTip
            },
            ScanEvent::FetchFailed => {
                self.phase = ScanPhase::Ended;
                ScanAction::Fail
            },
        }
    }
}

/// What is still to come of the batch that a scan has asked for.
pub ghost struct Pending {
    pub next: int,
    pub end: int,
}

/// A batch that is owed after an action.
pub open spec fn pending_after(pending: Pending, event: ScanEvent, action: ScanActionView) -> Pending {
    match (event, action) {
        (_, ScanActionView::Fetch(batch)) => Pending {
            next: batch.start as int,
            end: batch.end as int,
        },
        (ScanEvent::Processed(_), _) => Pending { next: pending.next + 1, ..pending },
        _ => pending,
    }
}

/// The events tell a scan what it asked for: each batch comes in whole and in order, unless its
/// fetch fails.
pub open spec fn faithful(scan: BackfillScan, pending: Pending, events: Seq<ScanEvent>) -> bool
    decreases events.len(),
{
    events.len() > 0 ==> {
        let event = events[0];
        &&& scan.accepts(event)
        &&& match event {
            ScanEvent::Processed(sequence_number) => sequence_number == pending.next
                && pending.next <= pending.end,
            ScanEvent::BatchDone => pending.next > pending.end,
            _ => true,
        }
        &&& faithful(
            scan.after(event),
            pending_after(pending, event, scan.action(event)),
            events.drop_first(),
        )
    }
}

/// The checkpoints that a scan hands out.
pub open spec fn yields(scan: BackfillScan, events: Seq<ScanEvent>) -> Seq<u64>
    decreases events.len(),
{
    if events.len() == 0 {
        seq![]
    } else {
        let rest = yields(scan.after(events[0]), events.drop_first());
        match scan.action(events[0]) {
            ScanActionView::Yield(sequence_number) => seq![sequence_number] + rest,
            _ => rest,
        }
    }
}

/// The scan after a list of events.
pub open spec fn after_all(scan: BackfillScan, events: Seq<ScanEvent>) -> BackfillScan
    decreases events.len(),
{
    if events.len() == 0 {
        scan
    } else {
        after_all(scan.after(events[0]), events.drop_first())
    }
}

/// A batch starts right behind what has been scanned, holds no more than the batch size, and
/// does not pass the tip.
pub proof fn law_batch_is_in_the_gap(
    last_scanned: u64,
    tip: u64,
    max_batch_size: usize,
    threshold: u64,
)
    requires
        !is_near_tip(last_scanned, tip, threshold),
    ensures
        batch_end(last_scanned, tip, max_batch_size) <= tip,
        batch_end(last_scanned, tip, max_batch_size) - last_scanned <= max_batch_size,
        batch_end(last_scanned, tip, max_batch_size) >= last_scanned,
{
}

/// A batch holds a checkpoint, unless batches are empty or the tip is the largest number.
pub proof fn law_batch_is_not_empty(
    last_scanned: u64,
    tip: u64,
    max_batch_size: usize,
    threshold: u64,
)
    requires
        !is_near_tip(last_scanned, tip, threshold),
        max_batch_size > 0,
        tip < u64::MAX,
    ensures
        last_scanned + 1 <= batch_end(last_scanned, tip, max_batch_size),
{
}

/// A scan hands out the checkpoints from `start_after + 1` onward, each once and in order,
/// across all of its batches.
pub proof fn law_scan_is_consecutive(
    start_after: u64,
    max_batch_size: usize,
    threshold: u64,
    pending: Pending,
    events: Seq<ScanEvent>,
)
    requires
        faithful(started(start_after, max_batch_size, threshold), pending, events),
    ensures
        ({
            let scan = started(start_after, max_batch_size, threshold);
            &&& forall|i: int|
                0 <= i < yields(scan, events).len() ==> #[trigger] yields(scan, events)[i]
                    == start_after + 1 + i
            &&& after_all(scan, events).last_scanned == start_after + yields(scan, events).len()
        }),
{
    lemma_scan_is_consecutive(
        started(start_after, max_batch_size, threshold),
        pending,
        events,
    );
}

proof fn lemma_scan_is_consecutive(scan: BackfillScan, pending: Pending, events: Seq<ScanEvent>)
    requires
        faithful(scan, pending, events),
        scan.phase == ScanPhase::Batch ==> pending.next == scan.last_scanned + 1,
    ensures
        forall|i: int|
            0 <= i < yields(scan, events).len() ==> #[trigger] yields(scan, events)[i]
                == scan.last_scanned + 1 + i,
        after_all(scan, events).last_scanned == scan.last_scanned + yields(scan, events).len(),
    decreases events.len(),
{
    if events.len() > 0 {
        let event = events[0];
        lemma_scan_is_consecutive(
            scan.after(event),
            pending_after(pending, event, scan.action(event)),
            events.drop_first(),
        );
        let rest = yields(scan.after(event), events.drop_first());
        if let ScanEvent::Processed(sequence_number) = event {
            assert(yields(scan, events) == seq![sequence_number] + rest);
            assert forall|i: int| 0 <= i < yields(scan, events).len() implies #[trigger] yields(
                scan,
                events,
            )[i] == scan.last_scanned + 1 + i by {
                if i > 0 {
                    assert(yields(scan, events)[i] == rest[i - 1]);
                }
            }
        }
    }
}

/// How often the tip is read.
pub open spec fn readings(events: Seq<ScanEvent>) -> nat
    decreases events.len(),
{
    if events.len() == 0 {
        0
    } else {
        readings(events.drop_first()) + (if events[0] is Tip {
            1nat
        } else {
            0nat
        })
    }
}

/// Every reading of the tip gives `tip`.
pub open spec fn tip_stands(tip: u64, events: Seq<ScanEvent>) -> bool {
    forall|i: int|
        0 <= i < events.len() ==> (#[trigger] events[i] matches ScanEvent::Tip(t) ==> t == tip)
}

/// A scan with batches that are not empty comes to its end while the tip stands still: it reads
/// the tip no more often than once for each checkpoint behind it and once more, and does
/// not pass the tip.
pub proof fn law_scan_reaches_the_tip(
    start_after: u64,
    max_batch_size: usize,
    threshold: u64,
    tip: u64,
    pending: Pending,
    events: Seq<ScanEvent>,
)
    requires
        max_batch_size > 0,
        tip < u64::MAX,
        tip_stands(tip, events),
        faithful(started(start_after, max_batch_size, threshold), pending, events),
    ensures
        readings(events) <= max(tip - start_after, 0) + 1,
        after_all(started(start_after, max_batch_size, threshold), events).last_scanned <= max(
            start_after as int,
            tip as int,
        ),
{
    lemma_scan_reaches_the_tip(
        started(start_after, max_batch_size, threshold),
        tip,
        pending,
        events,
    );
}

proof fn lemma_scan_reaches_the_tip(
    scan: BackfillScan,
    tip: u64,
    pending: Pending,
    events: Seq<ScanEvent>,
)
    requires
        scan.max_batch_size > 0,
        tip < u64::MAX,
        tip_stands(tip, events),
        faithful(scan, pending, events),
        scan.phase == ScanPhase::Batch ==> pending.next == scan.last_scanned + 1 && pending.next
            <= pending.end + 1 && pending.end <= tip,
    ensures
        scan.phase == ScanPhase::ReadTip ==> readings(events) <= max(tip - scan.last_scanned, 0) + 1,
        scan.phase == ScanPhase::Batch ==> readings(events) <= tip - pending.end + 1,
        scan.phase == ScanPhase::Ended ==> readings(events) == 0,
        after_all(scan, events).last_scanned <= max(scan.last_scanned as int, tip as int),
    decreases events.len(),
{
    if events.len() > 0 {
        let event = events[0];
        assert forall|i: int| 0 <= i < events.drop_first().len() implies (
        #[trigger] events.drop_first()[i] matches ScanEvent::Tip(t) ==> t == tip) by {
            assert(events.drop_first()[i] == events[i + 1]);
        }
        lemma_scan_reaches_the_tip(
            scan.after(event),
            tip,
            pending_after(pending, event, scan.action(event)),
            events.drop_first(),
        );
    }
}

/// A scan hands off only near the tip, and always there: the gap that is left is at or below
/// the threshold.
pub proof fn law_hand_off_is_near_the_tip(scan: BackfillScan, tip: u64)
    ensures
        scan.action(ScanEvent::Tip(tip)) is HandOff <==> tip - scan.last_scanned
            <= scan.transition_threshold,
        scan.after(ScanEvent::Tip(tip)).phase is Ended <==> tip - scan.last_scanned
            <= scan.transition_threshold,
        scan.after(ScanEvent::Tip(tip)).last_scanned == scan.last_scanned,
{
}

/// Away from the tip a scan asks for the checkpoints right behind the last one scanned: as many
/// as a batch holds, those up to the tip, or those up to the number before the largest one,
/// whichever are fewest.
pub proof fn law_scan_asks_for_the_next_checkpoints(scan: BackfillScan, tip: u64)
    requires
        tip - scan.last_scanned > scan.transition_threshold,
    ensures
        ({
            let full = scan.last_scanned + scan.max_batch_size;
            let end = if full <= tip && full < u64::MAX {
                full
            } else if tip < u64::MAX {
                tip as int
            } else {
                u64::MAX - 1
            };
            scan.action(ScanEvent::Tip(tip)) == ScanActionView::Fetch(
                RangeInclusiveView {
                    start: (scan.last_scanned + 1) as u64,
                    end: end as u64,
                    exhausted: false,
                },
            )
        }),
        scan.after(ScanEvent::Tip(tip)) == (BackfillScan { phase: ScanPhase::Batch, ..scan }),
{
}

/// What a scan does with a batch: it hands out each checkpoint and goes on from there, reads
/// the tip behind the last one, and ends with a failed fetch.
pub proof fn law_scan_works_off_a_batch(scan: BackfillScan, sequence_number: u64)
    ensures
        scan.action(ScanEvent::Processed(sequence_number)) == ScanActionView::Yield(
            sequence_number,
        ),
        scan.after(ScanEvent::Processed(sequence_number)) == (BackfillScan {
            last_scanned: sequence_number,
            ..scan
        }),
        scan.action(ScanEvent::BatchDone) == ScanActionView::ReadTip,
        scan.after(ScanEvent::BatchDone) == (BackfillScan { phase: ScanPhase::ReadTip, ..scan }),
        scan.action(ScanEvent::FetchFailed) == ScanActionView::Fail,
        scan.after(ScanEvent::FetchFailed) == (BackfillScan { phase: ScanPhase::Ended, ..scan }),
{
}

/// The view of what a scan asks for keeps all of it.
pub proof fn law_view_of_a_scan_action(action: ScanAction)
    ensures
        match action {
            ScanAction::ReadTip => action@ == ScanActionView::ReadTip,
            ScanAction::Fetch(batch) => action@ == ScanActionView::Fetch(batch@),
            ScanAction::Yield(number) => action@ == ScanActionView::Yield(number),
            ScanAction::Fail => action@ == ScanActionView::Fail,
            ScanAction::HandOff => action@ == ScanActionView::HandOff,
        },
{
}

/// A scan accepts every tip where it waits for one, and everything about a batch while one
/// comes in.
pub proof fn law_scan_accepts(scan: BackfillScan, number: u64)
    ensures
        scan.accepts(ScanEvent::Tip(number)) <==> scan.phase is ReadTip,
        scan.accepts(ScanEvent::Processed(number)) <==> scan.phase is Batch,
        scan.accepts(ScanEvent::BatchDone) <==> scan.phase is Batch,
        scan.accepts(ScanEvent::FetchFailed) <==> scan.phase is Batch,
{
}

/// A scan starts with the tip to be read and nothing scanned behind its start.
pub proof fn law_scan_starts(start_after: u64, max_batch_size: usize, threshold: u64)
    ensures
        started(start_after, max_batch_size, threshold) == (BackfillScan {
            last_scanned: start_after,
            max_batch_size,
            transition_threshold: threshold,
            phase: ScanPhase::ReadTip,
        }),
{
}

/// A run whose last event is a reading of the tip ends in a hand-off exactly where the tip
/// minus the last checkpoint scanned is at most the threshold, and all checkpoints from the
/// start to the last one scanned have then been handed out.
pub proof fn law_run_hands_off_near_the_tip(
    start_after: u64,
    max_batch_size: usize,
    threshold: u64,
    pending: Pending,
    events: Seq<ScanEvent>,
)
    requires
        faithful(started(start_after, max_batch_size, threshold), pending, events),
        events.len() > 0,
        events.last() is Tip,
    ensures
        ({
            let scan = started(start_after, max_batch_size, threshold);
            let end = after_all(scan, events);
            let tip = events.last()->Tip_0;
            &&& end.phase is Ended <==> tip - end.last_scanned <= threshold
            &&& end.phase is Batch <==> tip - end.last_scanned > threshold
            &&& end.last_scanned == start_after + yields(scan, events).len()
            &&& forall|i: int|
                0 <= i < yields(scan, events).len() ==> #[trigger] yields(scan, events)[i]
                    == start_after + 1 + i
        }),
{
    law_scan_is_consecutive(start_after, max_batch_size, threshold, pending, events);
    lemma_last_event(started(start_after, max_batch_size, threshold), pending, events);
}

proof fn lemma_last_event(scan: BackfillScan, pending: Pending, events: Seq<ScanEvent>)
    requires
        faithful(scan, pending, events),
        events.len() > 0,
        events.last() is Tip,
    ensures
        ({
            let end = after_all(scan, events);
            let tip = events.last()->Tip_0;
            &&& end.phase is Ended <==> tip - end.last_scanned <= scan.transition_threshold
            &&& end.phase is Batch <==> tip - end.last_scanned > scan.transition_threshold
        }),
    decreases events.len(),
{
    let event = events[0];
    let next = scan.after(event);
    let rest = events.drop_first();
    if rest.len() > 0 {
        assert(rest.last() == events.last());
        lemma_last_event(next, pending_after(pending, event, scan.action(event)), rest);
    } else {
        assert(after_all(next, rest) == next);
    }
}

} // verus!
