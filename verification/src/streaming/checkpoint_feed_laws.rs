//! What a feed of checkpoints owes its subscriber.

use vstd::prelude::*;

use super::checkpoint_feed::{
    feed_from, CheckpointFeed, FeedAction, FeedActionView, FeedEvent, FeedPhase,
    SubscriptionConfig,
};
use super::checkpoint_resume::{pending_after, BackfillScan, Pending, ScanEvent, ScanPhase};
use super::messages::{decimal, RecvError};

verus! {

/// What is owed of a batch after an event of a feed.
pub open spec fn feed_pending_after(
    feed: CheckpointFeed,
    pending: Pending,
    event: FeedEvent,
) -> Pending {
    match event {
        FeedEvent::Scan(scan_event) => pending_after(
            pending,
            scan_event,
            feed.phase->Scanning_0.action(scan_event),
        ),
        _ => pending,
    }
}

/// The events tell a feed what it asked for: each batch of a scan comes in whole and in order,
/// unless its fetch fails. The live broadcast brings anything.
pub open spec fn feed_faithful(
    feed: CheckpointFeed,
    pending: Pending,
    events: Seq<FeedEvent>,
) -> bool
    decreases events.len(),
{
    events.len() > 0 ==> {
        let event = events[0];
        &&& feed.accepts(event)
        &&& match event {
            FeedEvent::Scan(ScanEvent::Processed(sequence_number)) => sequence_number
                == pending.next && pending.next <= pending.end,
            FeedEvent::Scan(ScanEvent::BatchDone) => pending.next > pending.end,
            _ => true,
        }
        &&& feed_faithful(
            feed.after(event),
            feed_pending_after(feed, pending, event),
            events.drop_first(),
        )
    }
}

/// The checkpoints that a feed hands out.
pub open spec fn feed_yields(feed: CheckpointFeed, events: Seq<FeedEvent>) -> Seq<u64>
    decreases events.len(),
{
    if events.len() == 0 {
        seq![]
    } else {
        let rest = feed_yields(feed.after(events[0]), events.drop_first());
        match feed.action(events[0]) {
            FeedActionView::Yield(sequence_number) => seq![sequence_number] + rest,
            _ => rest,
        }
    }
}

/// The first checkpoint that the live broadcast brings, by its sequence number.
pub open spec fn first_received(events: Seq<FeedEvent>) -> Option<u64>
    decreases events.len(),
{
    if events.len() == 0 {
        None
    } else {
        match events[0] {
            FeedEvent::Received(sequence_number) => Some(sequence_number),
            _ => first_received(events.drop_first()),
        }
    }
}

/// A feed after a list of events.
pub open spec fn feed_after(feed: CheckpointFeed, events: Seq<FeedEvent>) -> CheckpointFeed
    decreases events.len(),
{
    if events.len() == 0 {
        feed
    } else {
        feed_after(feed.after(events[0]), events.drop_first())
    }
}

/// An action that hands out an error.
pub open spec fn is_error(action: FeedActionView) -> bool {
    action is Fail || action is FetchFailed
}

/// How often a feed goes back to covering the gap.
pub open spec fn recoveries(feed: CheckpointFeed, events: Seq<FeedEvent>) -> nat
    decreases events.len(),
{
    if events.len() == 0 {
        0
    } else {
        recoveries(feed.after(events[0]), events.drop_first()) + (if feed.recovers(events[0]) {
            1nat
        } else {
            0nat
        })
    }
}

/// A feed hands out no live checkpoint.
pub open spec fn never_live(feed: CheckpointFeed, events: Seq<FeedEvent>) -> bool
    decreases events.len(),
{
    events.len() > 0 ==> {
        &&& feed.accepts(events[0])
        &&& !feed.goes_live(events[0])
        &&& never_live(feed.after(events[0]), events.drop_first())
    }
}

/// A feed that resumes hands out the checkpoints behind the one it resumes from, each once and
/// in order, whatever the live broadcast drops, repeats or skips. One that does not resume
/// starts with the first live checkpoint and goes on likewise.
pub proof fn law_feed_is_consecutive(
    resume_from: Option<u64>,
    config: SubscriptionConfig,
    pending: Pending,
    events: Seq<FeedEvent>,
)
    requires
        feed_faithful(feed_from(resume_from, config), pending, events),
    ensures
        ({
            let yields = feed_yields(feed_from(resume_from, config), events);
            forall|i: int|
                0 <= i < yields.len() ==> #[trigger] yields[i] == (match resume_from {
                    Some(last) => last + 1,
                    None => yields[0] as int,
                }) + i
        }),
        resume_from is None ==> match first_received(events) {
            Some(first) => {
                let yields = feed_yields(feed_from(resume_from, config), events);
                yields.len() > 0 && yields[0] == first
            },
            None => feed_yields(feed_from(resume_from, config), events).len() == 0,
        },
{
    lemma_feed_is_consecutive(feed_from(resume_from, config), pending, events);
    if resume_from is None {
        lemma_first_is_live(feed_from(resume_from, config), pending, events);
    }
}

/// A feed that has handed out nothing waits for the live broadcast, and hands out the first
/// checkpoint that it brings.
proof fn lemma_first_is_live(feed: CheckpointFeed, pending: Pending, events: Seq<FeedEvent>)
    requires
        feed_faithful(feed, pending, events),
        feed.last_yielded is None,
        !(feed.phase is Scanning),
    ensures
        match first_received(events) {
            Some(first) => feed_yields(feed, events).len() > 0 && feed_yields(feed, events)[0]
                == first,
            None => feed_yields(feed, events).len() == 0,
        },
    decreases events.len(),
{
    if events.len() > 0 {
        let event = events[0];
        if !(event is Received) {
            lemma_first_is_live(
                feed.after(event),
                feed_pending_after(feed, pending, event),
                events.drop_first(),
            );
        }
    }
}

/// An error is the last thing that a feed hands out: no event follows the one that brought it,
/// and none is accepted after it.
pub proof fn law_error_ends_the_feed(
    feed: CheckpointFeed,
    pending: Pending,
    events: Seq<FeedEvent>,
    i: int,
)
    requires
        feed_faithful(feed, pending, events),
        0 <= i < events.len(),
        is_error(feed_after(feed, events.take(i)).action(events[i])),
    ensures
        i == events.len() - 1,
        feed_after(feed, events).phase is Ended,
        forall|event: FeedEvent| !(#[trigger] feed_after(feed, events).accepts(event)),
    decreases events.len(),
{
    let event = events[0];
    let next = feed.after(event);
    let rest = events.drop_first();
    if i == 0 {
        assert(events.take(0).len() == 0);
        assert(feed_after(feed, events.take(0)) == feed);
        assert(next.phase is Ended);
        assert(feed_faithful(next, feed_pending_after(feed, pending, event), rest));
    } else {
        assert(events.take(i).drop_first() =~= rest.take(i - 1));
        law_error_ends_the_feed(next, feed_pending_after(feed, pending, event), rest, i - 1);
    }
}

proof fn lemma_feed_is_consecutive(feed: CheckpointFeed, pending: Pending, events: Seq<FeedEvent>)
    requires
        feed_faithful(feed, pending, events),
        feed.wf(),
        feed.phase matches FeedPhase::Scanning(scan) ==> scan.phase == ScanPhase::Batch
            ==> pending.next == scan.last_scanned + 1,
    ensures
        ({
            let yields = feed_yields(feed, events);
            forall|i: int|
                0 <= i < yields.len() ==> #[trigger] yields[i] == (match feed.last_yielded {
                    Some(last) => last + 1,
                    None => yields[0] as int,
                }) + i
        }),
    decreases events.len(),
{
    if events.len() > 0 {
        let event = events[0];
        let next = feed.after(event);
        lemma_feed_is_consecutive(
            next,
            feed_pending_after(feed, pending, event),
            events.drop_first(),
        );
        let yields = feed_yields(feed, events);
        let rest = feed_yields(next, events.drop_first());
        if let FeedActionView::Yield(sequence_number) = feed.action(event) {
            assert(yields == seq![sequence_number] + rest);
            assert(next.last_yielded == Some(sequence_number));
            assert forall|i: int| 0 <= i < yields.len() implies #[trigger] yields[i] == (
            match feed.last_yielded {
                Some(last) => last + 1,
                None => yields[0] as int,
            }) + i by {
                if i > 0 {
                    assert(yields[i] == rest[i - 1]);
                }
            }
        } else {
            assert(yields == rest);
            assert(next.last_yielded == feed.last_yielded);
        }
    }
}

/// Between two live checkpoints a feed goes back to scanning less often than the limit says.
pub proof fn law_recovery_is_bounded(feed: CheckpointFeed, events: Seq<FeedEvent>)
    requires
        feed.wf(),
        never_live(feed, events),
    ensures
        recoveries(feed, events) == 0 || recoveries(feed, events) + feed.recovery_attempts
            < feed.config.resume_max_recovery_attempts,
    decreases events.len(),
{
    if events.len() > 0 {
        law_recovery_is_bounded(feed.after(events[0]), events.drop_first());
    }
}

/// A live feed hands out the checkpoint right behind the last one; it goes back to reading the
/// tip where checkpoints are missing and the limit allows it, and fails where it does not; only
/// what it has handed out before is passed over.
pub proof fn law_live_feed_goes_on(feed: CheckpointFeed, last: u64, number: u64)
    requires
        feed.phase is Live,
        feed.last_yielded == Some(last),
    ensures
        ({
            let action = feed.action(FeedEvent::Received(number));
            let after = feed.after(FeedEvent::Received(number));
            let limit = feed.config.resume_max_recovery_attempts;
            &&& number == last + 1 ==> {
                &&& action == FeedActionView::Yield(number)
                &&& after == (CheckpointFeed {
                    last_yielded: Some(number),
                    recovery_attempts: 0,
                    config: feed.config,
                    phase: FeedPhase::Live,
                })
            }
            &&& number > last + 1 && feed.recovery_attempts + 1 < limit ==> {
                &&& action == FeedActionView::ReadTip
                &&& after == (CheckpointFeed {
                    last_yielded: Some(last),
                    recovery_attempts: (feed.recovery_attempts + 1) as u32,
                    config: feed.config,
                    phase: FeedPhase::Scanning(
                        BackfillScan {
                            last_scanned: last,
                            max_batch_size: feed.config.resume_batch_size,
                            transition_threshold: feed.config.resume_transition_threshold,
                            phase: ScanPhase::ReadTip,
                        },
                    ),
                })
            }
            &&& number > last + 1 && feed.recovery_attempts + 1 >= limit ==> {
                &&& action == FeedActionView::Fail(
                    "Failed to catch up to the live tip after "@ + decimal(limit as nat)
                        + " recovery attempts; please reconnect."@,
                )
                &&& after == (CheckpointFeed {
                    last_yielded: Some(last),
                    recovery_attempts: feed.recovery_attempts,
                    config: feed.config,
                    phase: FeedPhase::Ended,
                })
            }
            &&& number <= last ==> action == FeedActionView::Receive && after == feed
        }),
{
}

/// A feed that has handed out nothing hands out the first live checkpoint, whichever it is.
pub proof fn law_fresh_feed_takes_the_first(feed: CheckpointFeed, number: u64)
    requires
        feed.phase is Live,
        feed.last_yielded is None,
    ensures
        feed.action(FeedEvent::Received(number)) == FeedActionView::Yield(number),
        feed.after(FeedEvent::Received(number)) == (CheckpointFeed {
            last_yielded: Some(number),
            recovery_attempts: 0,
            config: feed.config,
            phase: FeedPhase::Live,
        }),
{
}

/// A lag within the limit is recovered from: by a scan from the last checkpoint handed out, or,
/// where there is none, by waiting for the broadcast again. Any other failure of the broadcast
/// ends the feed with its message.
pub proof fn law_lag_is_recovered_from(feed: CheckpointFeed, missed: u64)
    requires
        feed.phase is Live,
    ensures
        ({
            let lagged = FeedEvent::ReceiveFailed(RecvError::Lagged(missed));
            let closed = FeedEvent::ReceiveFailed(RecvError::Closed);
            let within = feed.recovery_attempts + 1 < feed.config.resume_max_recovery_attempts;
            &&& within ==> {
                &&& feed.after(lagged).recovery_attempts == feed.recovery_attempts + 1
                &&& feed.after(lagged).last_yielded == feed.last_yielded
                &&& feed.after(lagged).config == feed.config
                &&& feed.last_yielded is None ==> feed.action(lagged) == FeedActionView::Receive
                    && feed.after(lagged).phase is Live
                &&& feed.last_yielded matches Some(last) ==> {
                    &&& feed.action(lagged) == FeedActionView::ReadTip
                    &&& feed.after(lagged).phase == FeedPhase::Scanning(
                        BackfillScan {
                            last_scanned: last,
                            max_batch_size: feed.config.resume_batch_size,
                            transition_threshold: feed.config.resume_transition_threshold,
                            phase: ScanPhase::ReadTip,
                        },
                    )
                }
            }
            &&& !within ==> feed.after(lagged) == (CheckpointFeed {
                phase: FeedPhase::Ended,
                ..feed
            }) && feed.action(lagged) == FeedActionView::Fail(
                "Subscription too slow: missed "@ + decimal(missed as nat)
                    + " checkpoints. Please reconnect and use the query API to backfill from your last seen sequenceNumber."@,
            )
            &&& feed.after(closed) == (CheckpointFeed { phase: FeedPhase::Ended, ..feed })
            &&& feed.action(closed) == FeedActionView::Fail(
                "Checkpoint stream has been shut down. Please reconnect."@,
            )
        }),
{
}

/// A feed that scans hands out what the scan brings and nothing else, asks for what the scan
/// needs, and goes live once the scan is within the threshold of the tip.
pub proof fn law_feed_follows_its_scan(feed: CheckpointFeed, scan: BackfillScan, number: u64)
    requires
        feed.phase == FeedPhase::Scanning(scan),
    ensures
        ({
            let tip = FeedEvent::Scan(ScanEvent::Tip(number));
            let processed = FeedEvent::Scan(ScanEvent::Processed(number));
            let done = FeedEvent::Scan(ScanEvent::BatchDone);
            let failed = FeedEvent::Scan(ScanEvent::FetchFailed);
            &&& number - scan.last_scanned <= scan.transition_threshold ==> {
                &&& feed.action(tip) == FeedActionView::Receive
                &&& feed.after(tip) == (CheckpointFeed { phase: FeedPhase::Live, ..feed })
            }
            &&& number - scan.last_scanned > scan.transition_threshold ==> {
                &&& feed.action(tip) matches FeedActionView::Fetch(batch) && batch.start
                    == scan.last_scanned + 1 && !batch.exhausted && batch.end <= number
                    && batch.end <= scan.last_scanned + scan.max_batch_size && batch.end < u64::MAX
                    && (batch.end == number || batch.end == scan.last_scanned
                    + scan.max_batch_size || batch.end == u64::MAX - 1)
                &&& feed.after(tip) == (CheckpointFeed {
                    phase: FeedPhase::Scanning(BackfillScan { phase: ScanPhase::Batch, ..scan }),
                    ..feed
                })
            }
            &&& feed.action(processed) == FeedActionView::Yield(number)
            &&& feed.after(processed) == (CheckpointFeed {
                last_yielded: Some(number),
                phase: FeedPhase::Scanning(BackfillScan { last_scanned: number, ..scan }),
                ..feed
            })
            &&& feed.action(done) == FeedActionView::ReadTip
            &&& feed.after(done) == (CheckpointFeed {
                phase: FeedPhase::Scanning(BackfillScan { phase: ScanPhase::ReadTip, ..scan }),
                ..feed
            })
            &&& feed.action(failed) == FeedActionView::FetchFailed
            &&& feed.after(failed) == (CheckpointFeed { phase: FeedPhase::Ended, ..feed })
        }),
{
}

/// A live feed accepts whatever the broadcast brings, a scanning one what its scan waits for,
/// and one that has ended nothing.
pub proof fn law_feed_accepts(feed: CheckpointFeed, number: u64, e: RecvError, event: ScanEvent)
    ensures
        feed.accepts(FeedEvent::Received(number)) <==> feed.phase is Live,
        feed.accepts(FeedEvent::ReceiveFailed(e)) <==> feed.phase is Live,
        feed.accepts(FeedEvent::Scan(event)) <==> match feed.phase {
            FeedPhase::Scanning(scan) => if event is Tip {
                scan.phase is ReadTip
            } else {
                scan.phase is Batch
            },
            _ => false,
        },
{
}

/// A feed starts with a scan from the point that it resumes from, or, without one, live.
pub proof fn law_feed_starts(resume_from: Option<u64>, config: SubscriptionConfig)
    ensures
        ({
            let feed = feed_from(resume_from, config);
            &&& feed.last_yielded == resume_from
            &&& feed.recovery_attempts == 0
            &&& feed.config == config
            &&& resume_from is None ==> feed.phase is Live && feed.cover_action()
                == FeedActionView::Receive
            &&& resume_from matches Some(last) ==> {
                &&& feed.cover_action() == FeedActionView::ReadTip
                &&& feed.phase == FeedPhase::Scanning(
                    BackfillScan {
                        last_scanned: last,
                        max_batch_size: config.resume_batch_size,
                        transition_threshold: config.resume_transition_threshold,
                        phase: ScanPhase::ReadTip,
                    },
                )
            }
        }),
{
}

/// A feed that has handed out a checkpoint begins with the tip, one that has not with the live
/// broadcast.
pub proof fn law_feed_begins(feed: CheckpointFeed)
    ensures
        feed.last_yielded is Some ==> feed.cover_action() == FeedActionView::ReadTip,
        feed.last_yielded is None ==> feed.cover_action() == FeedActionView::Receive,
{
}

/// The view of what a feed asks for keeps all of it.
pub proof fn law_view_of_a_feed_action(action: FeedAction)
    ensures
        match action {
            FeedAction::ReadTip => action@ == FeedActionView::ReadTip,
            FeedAction::Fetch(batch) => action@ == FeedActionView::Fetch(batch@),
            FeedAction::Yield(number) => action@ == FeedActionView::Yield(number),
            FeedAction::FetchFailed => action@ == FeedActionView::FetchFailed,
            FeedAction::Receive => action@ == FeedActionView::Receive,
            FeedAction::Fail(message) => action@ == FeedActionView::Fail(message@),
        },
{
}

/// What a well-formed feed is: one that has not gone back to scanning more often than the limit
/// allows, and whose scan goes on from the last checkpoint handed out, with the feed's settings.
pub proof fn law_feed_is_well_formed(feed: CheckpointFeed)
    ensures
        feed.wf() <==> {
            &&& feed.recovery_attempts > 0 ==> feed.recovery_attempts
                < feed.config.resume_max_recovery_attempts
            &&& match feed.phase {
                FeedPhase::Scanning(scan) => {
                    &&& feed.last_yielded == Some(scan.last_scanned)
                    &&& scan.max_batch_size == feed.config.resume_batch_size
                    &&& scan.transition_threshold == feed.config.resume_transition_threshold
                    &&& scan.phase is ReadTip || scan.phase is Batch
                },
                _ => true,
            }
        },
        forall|event: FeedEvent| #[trigger]
            feed.wf() && feed.accepts(event) ==> feed.after(event).wf(),
{
}

/// A live feed that gets the checkpoints behind its last one, one by one, hands out every one
/// of them.
pub proof fn law_live_run_is_handed_out(feed: CheckpointFeed, last: u64, events: Seq<FeedEvent>)
    requires
        feed.phase is Live,
        feed.last_yielded == Some(last),
        last + events.len() <= u64::MAX,
        forall|i: int|
            0 <= i < events.len() ==> #[trigger] events[i] == FeedEvent::Received(
                (last + 1 + i) as u64,
            ),
    ensures
        feed_yields(feed, events).len() == events.len(),
        forall|i: int|
            0 <= i < events.len() ==> #[trigger] feed_yields(feed, events)[i] == last + 1 + i,
        feed_after(feed, events).last_yielded == Some((last + events.len()) as u64),
        feed_after(feed, events).phase is Live,
    decreases events.len(),
{
    if events.len() > 0 {
        let event = events[0];
        let rest = events.drop_first();
        let next = feed.after(event);
        assert(event == FeedEvent::Received((last + 1) as u64));
        law_live_feed_goes_on(feed, last, (last + 1) as u64);
        assert forall|i: int| 0 <= i < rest.len() implies #[trigger] rest[i]
            == FeedEvent::Received((last + 1 + 1 + i) as u64) by {
            assert(rest[i] == events[i + 1]);
        }
        law_live_run_is_handed_out(next, (last + 1) as u64, rest);
        let yields = feed_yields(feed, events);
        assert(yields == seq![(last + 1) as u64] + feed_yields(next, rest));
        assert forall|i: int| 0 <= i < events.len() implies #[trigger] yields[i] == last + 1 + i by {
            if i > 0 {
                assert(yields[i] == feed_yields(next, rest)[i - 1]);
            }
        }
    }
}

} // verus!
