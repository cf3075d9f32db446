use sui_logic::streaming::checkpoint_feed::{
    CheckpointFeed, FeedAction, FeedEvent, FeedPhase, SubscriptionConfig,
};
use sui_logic::streaming::checkpoint_resume::ScanEvent;
use sui_logic::streaming::messages::{broadcast_error, catch_up_error, push_decimal, RecvError};
use sui_logic::streaming::subscription::{
    CheckpointEvents, Error, EventRecord, StreamStep, Subscription, TransactionDigest,
    TransactionEvents,
};

fn config() -> SubscriptionConfig {
    SubscriptionConfig {
        resume_batch_size: 4,
        resume_transition_threshold: 2,
        resume_max_recovery_attempts: 3,
    }
}

fn feed(resume_from: Option<u64>) -> CheckpointFeed {
    Subscription::default().checkpoints(resume_from, None, &config()).unwrap()
}

/// Answers a feed that reads the tip, until it waits for the broadcast.
fn scan(feed: &mut CheckpointFeed, tip: u64) -> Vec<u64> {
    let mut yielded = vec![];
    loop {
        match feed.step(FeedEvent::Scan(ScanEvent::Tip(tip))) {
            FeedAction::Fetch(batch) => {
                for sequence_number in batch {
                    let event = FeedEvent::Scan(ScanEvent::Processed(sequence_number));
                    assert_eq!(feed.step(event), FeedAction::Yield(sequence_number));
                    yielded.push(sequence_number);
                }
                let done = FeedEvent::Scan(ScanEvent::BatchDone);
                assert_eq!(feed.step(done), FeedAction::ReadTip);
            }
            FeedAction::Receive => return yielded,
            other => panic!("unexpected {other:?}"),
        }
    }
}

#[test]
fn both_resume_arguments_are_refused() {
    let error = Subscription.checkpoints(Some(1), Some(1), &config()).unwrap_err();
    assert_eq!(error, Error::OneResumeArg);
    assert_eq!(
        error.message(),
        "At most one of `afterCursor` or `afterCheckpoint` can be specified"
    );
}

#[test]
fn either_resume_argument_is_taken() {
    assert_eq!(
        Subscription.checkpoints(Some(5), None, &config()).unwrap(),
        Subscription.checkpoints(None, Some(5), &config()).unwrap()
    );
    assert_eq!(Subscription.resume_from(Some(5), None), Ok(Some(5)));
    assert_eq!(Subscription.resume_from(None, Some(6)), Ok(Some(6)));
    assert_eq!(Subscription.resume_from(None, None), Ok(None));
    assert_eq!(Subscription.resume_from(Some(5), Some(6)), Err(Error::OneResumeArg));
    assert_eq!(feed(Some(5)).last_yielded, Some(5));
    assert_eq!(feed(Some(5)).begin(), FeedAction::ReadTip);
    assert_eq!(feed(None).last_yielded, None);
    assert_eq!(feed(None).begin(), FeedAction::Receive);
    assert_eq!(feed(None).phase, FeedPhase::Live);
}

#[test]
fn resumed_feed_bridges_to_the_live_broadcast() {
    let mut feed = feed(Some(10));
    assert_eq!(scan(&mut feed, 20), (11..=18).collect::<Vec<u64>>());
    // The receiver still holds what the scan has covered.
    assert_eq!(feed.step(FeedEvent::Received(15)), FeedAction::Receive);
    assert_eq!(feed.step(FeedEvent::Received(18)), FeedAction::Receive);
    assert_eq!(feed.step(FeedEvent::Received(19)), FeedAction::Yield(19));
    assert_eq!(feed.step(FeedEvent::Received(20)), FeedAction::Yield(20));
    assert_eq!(feed.last_yielded, Some(20));
}

#[test]
fn fresh_feed_starts_with_the_first_live_checkpoint() {
    let mut feed = feed(None);
    assert_eq!(feed.step(FeedEvent::Received(77)), FeedAction::Yield(77));
    assert_eq!(feed.step(FeedEvent::Received(77)), FeedAction::Receive);
    assert_eq!(feed.step(FeedEvent::Received(78)), FeedAction::Yield(78));
}

#[test]
fn gap_in_the_broadcast_is_scanned() {
    let mut feed = feed(None);
    assert_eq!(feed.step(FeedEvent::Received(10)), FeedAction::Yield(10));
    assert_eq!(feed.step(FeedEvent::Received(15)), FeedAction::ReadTip);
    assert_eq!(feed.recovery_attempts, 1);
    assert_eq!(scan(&mut feed, 15), vec![11, 12, 13, 14]);
    assert_eq!(feed.recovery_attempts, 1);
    assert_eq!(feed.step(FeedEvent::Received(15)), FeedAction::Yield(15));
    assert_eq!(feed.recovery_attempts, 0);
}

#[test]
fn recoveries_are_limited() {
    let mut feed = feed(Some(10));
    assert!(scan(&mut feed, 10).is_empty());
    assert_eq!(feed.step(FeedEvent::Received(15)), FeedAction::ReadTip);
    assert!(scan(&mut feed, 10).is_empty());
    assert_eq!(feed.step(FeedEvent::Received(16)), FeedAction::ReadTip);
    assert!(scan(&mut feed, 10).is_empty());
    assert_eq!(
        feed.step(FeedEvent::Received(17)),
        FeedAction::Fail(
            "Failed to catch up to the live tip after 3 recovery attempts; please reconnect."
                .to_string()
        )
    );
    assert_eq!(feed.phase, FeedPhase::Ended);
}

#[test]
fn lagging_is_recovered_from_until_the_limit() {
    let mut feed = feed(None);
    assert_eq!(
        feed.step(FeedEvent::ReceiveFailed(RecvError::Lagged(4))),
        FeedAction::Receive
    );
    assert_eq!(feed.step(FeedEvent::Received(10)), FeedAction::Yield(10));
    for _ in 0..2 {
        let lagged = FeedEvent::ReceiveFailed(RecvError::Lagged(4));
        assert_eq!(feed.step(lagged), FeedAction::ReadTip);
        assert!(scan(&mut feed, 10).is_empty());
    }
    assert_eq!(
        feed.step(FeedEvent::ReceiveFailed(RecvError::Lagged(4))),
        FeedAction::Fail(broadcast_error(RecvError::Lagged(4)))
    );
    assert_eq!(feed.phase, FeedPhase::Ended);
}

#[test]
fn closed_broadcast_ends_the_feed() {
    let mut feed = feed(None);
    assert_eq!(
        feed.step(FeedEvent::ReceiveFailed(RecvError::Closed)),
        FeedAction::Fail("Checkpoint stream has been shut down. Please reconnect.".to_string())
    );
    assert_eq!(feed.phase, FeedPhase::Ended);
}

#[test]
fn failed_fetch_ends_the_feed() {
    let mut feed = feed(Some(10));
    assert_eq!(
        feed.step(FeedEvent::Scan(ScanEvent::Tip(20))),
        FeedAction::Fetch(11..=14)
    );
    assert_eq!(
        feed.step(FeedEvent::Scan(ScanEvent::FetchFailed)),
        FeedAction::FetchFailed
    );
    assert_eq!(feed.phase, FeedPhase::Ended);
}

#[test]
fn no_recovery_without_attempts() {
    for max in [0, 1] {
        let config = SubscriptionConfig { resume_max_recovery_attempts: max, ..config() };
        let mut feed = Subscription.checkpoints(None, None, &config).unwrap();
        assert_eq!(feed.step(FeedEvent::Received(1)), FeedAction::Yield(1));
        assert_eq!(
            feed.step(FeedEvent::Received(3)),
            FeedAction::Fail(catch_up_error(max))
        );
    }
}

#[test]
fn messages_are_exact() {
    assert_eq!(
        broadcast_error(RecvError::Lagged(1205)),
        "Subscription too slow: missed 1205 checkpoints. Please reconnect and use the query API \
         to backfill from your last seen sequenceNumber."
    );
    assert_eq!(
        broadcast_error(RecvError::Closed),
        "Checkpoint stream has been shut down. Please reconnect."
    );
    assert_eq!(
        catch_up_error(0),
        "Failed to catch up to the live tip after 0 recovery attempts; please reconnect."
    );
}

#[test]
fn numbers_are_written_in_decimal() {
    for n in [0, 7, 10, 99, 100, 1234567890, u64::MAX] {
        let mut text = "n = ".to_string();
        push_decimal(&mut text, n);
        assert_eq!(text, format!("n = {n}"));
    }
}

#[test]
fn matching_transactions_come_in_order() {
    assert_eq!(
        Subscription.transactions(&Ok(vec![false, true, true, false, true])),
        StreamStep::Yield(vec![1, 2, 4])
    );
    assert_eq!(Subscription.transactions(&Ok(vec![])), StreamStep::Yield(vec![]));
}

#[test]
fn failed_broadcast_ends_the_transactions() {
    assert_eq!(
        Subscription.transactions(&Err(RecvError::Closed)),
        StreamStep::Fail(broadcast_error(RecvError::Closed))
    );
}

#[test]
fn matching_events_come_in_order() {
    let digest = |n: u8| TransactionDigest([n; 32]);
    let checkpoint = CheckpointEvents {
        timestamp_ms: 99,
        transactions: vec![
            TransactionEvents { digest: digest(1), verdicts: Some(vec![true, false, true]) },
            TransactionEvents { digest: digest(2), verdicts: None },
            TransactionEvents { digest: digest(3), verdicts: Some(vec![false, true]) },
        ],
    };
    let event = |transaction: usize, n: u8, sequence_number: u64| EventRecord {
        transaction,
        transaction_digest: digest(n),
        sequence_number,
        timestamp_ms: Some(99),
    };
    assert_eq!(
        Subscription.events(&Ok(checkpoint)),
        StreamStep::Yield(vec![event(0, 1, 0), event(0, 1, 2), event(2, 3, 1)])
    );
}

#[test]
fn failed_broadcast_ends_the_events() {
    assert_eq!(
        Subscription.events(&Err(RecvError::Lagged(2))),
        StreamStep::Fail(broadcast_error(RecvError::Lagged(2)))
    );
}
