use sui_logic::streaming::checkpoint_resume::{
    next_backfill_batch, scan_checkpoints, BackfillScan, ScanAction, ScanEvent, ScanPhase,
};

#[test]
fn within_threshold_returns_none() {
    // gap = 5, threshold = 10: already close enough.
    assert!(
        next_backfill_batch(
            /* last_scanned_checkpoint = */ 100, /* tip_checkpoint = */ 105,
            /* max_batch_size = */ 50, /* transition_threshold = */ 10,
        )
        .is_none()
    );
}

#[test]
fn full_batch_when_far_behind() {
    assert_eq!(
        next_backfill_batch(
            /* last_scanned_checkpoint = */ 100, /* tip_checkpoint = */ 1000,
            /* max_batch_size = */ 50, /* transition_threshold = */ 10,
        ),
        Some(101..=150),
    );
}

#[test]
fn trailing_batch_clamps_to_tip() {
    // Gap (30) > threshold (10), but only 30 checkpoints left to fetch.
    assert_eq!(
        next_backfill_batch(
            /* last_scanned_checkpoint = */ 100, /* tip_checkpoint = */ 130,
            /* max_batch_size = */ 50, /* transition_threshold = */ 10,
        ),
        Some(101..=130),
    );
}

#[test]
fn threshold_boundary_inclusive() {
    // gap = 10, threshold = 10: at threshold, no more backfill.
    assert!(
        next_backfill_batch(
            /* last_scanned_checkpoint = */ 100, /* tip_checkpoint = */ 110,
            /* max_batch_size = */ 50, /* transition_threshold = */ 10,
        )
        .is_none()
    );
}

#[test]
fn gap_one_above_threshold_is_scanned() {
    assert_eq!(next_backfill_batch(100, 111, 5, 10), Some(101..=105));
}

#[test]
fn tip_behind_the_scan_returns_none() {
    assert_eq!(next_backfill_batch(100, 40, 5, 0), None);
}

#[test]
fn empty_batches_are_empty_ranges() {
    let batch = next_backfill_batch(100, 200, 0, 10).unwrap();
    assert_eq!(batch, 101..=100);
    assert_eq!(batch.count(), 0);
}

#[test]
fn batch_at_the_largest_number_is_empty() {
    let batch = next_backfill_batch(u64::MAX - 1, u64::MAX, 5, 0).unwrap();
    assert_eq!(batch, u64::MAX..=u64::MAX - 1);
}

#[test]
fn batch_near_the_largest_number_saturates() {
    assert_eq!(
        next_backfill_batch(u64::MAX - 10, u64::MAX, 50, 0),
        Some(u64::MAX - 9..=u64::MAX - 1)
    );
}

/// Runs a scan with a tip that moves on by `growth` each time it is read.
fn run(mut scan: BackfillScan, mut tip: u64, growth: u64) -> (Vec<u64>, BackfillScan) {
    let mut yielded = vec![];
    loop {
        let action = scan.step(ScanEvent::Tip(tip));
        tip += growth;
        match action {
            ScanAction::Fetch(batch) => {
                for sequence_number in batch {
                    assert_eq!(
                        scan.step(ScanEvent::Processed(sequence_number)),
                        ScanAction::Yield(sequence_number)
                    );
                    yielded.push(sequence_number);
                }
                assert_eq!(scan.step(ScanEvent::BatchDone), ScanAction::ReadTip);
            }
            ScanAction::HandOff => return (yielded, scan),
            other => panic!("unexpected {other:?}"),
        }
    }
}

#[test]
fn scan_yields_consecutive_checkpoints() {
    let (yielded, scan) = run(scan_checkpoints(100, 7, 10), 150, 2);
    let expected: Vec<u64> = (101..101 + yielded.len() as u64).collect();
    assert_eq!(yielded, expected);
    assert_eq!(scan.last_scanned, 100 + yielded.len() as u64);
    assert_eq!(scan.phase, ScanPhase::Ended);
    assert!(!yielded.is_empty());
}

#[test]
fn scan_stops_within_the_threshold_of_the_tip() {
    let (yielded, scan) = run(scan_checkpoints(100, 7, 10), 150, 0);
    assert_eq!(yielded, (101..=142).collect::<Vec<u64>>());
    assert_eq!(scan.last_scanned, 142);
}

#[test]
fn scan_near_the_tip_hands_off_at_once() {
    let mut scan = scan_checkpoints(100, 7, 10);
    assert_eq!(scan.step(ScanEvent::Tip(110)), ScanAction::HandOff);
    assert_eq!(scan.phase, ScanPhase::Ended);
}

#[test]
fn failed_fetch_ends_the_scan() {
    let mut scan = scan_checkpoints(100, 7, 10);
    assert_eq!(scan.step(ScanEvent::Tip(150)), ScanAction::Fetch(101..=107));
    assert_eq!(scan.step(ScanEvent::FetchFailed), ScanAction::Fail);
    assert_eq!(scan.phase, ScanPhase::Ended);
}
