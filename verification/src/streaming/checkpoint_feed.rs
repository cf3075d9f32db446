//! The stream of checkpoints that a subscriber gets: past ones by scans, then the live ones.

use std::ops::RangeInclusive;

use vstd::prelude::*;
use vstd::std_specs::range::*;

use super::checkpoint_resume::{
    scan_checkpoints, started, BackfillScan, ScanAction, ScanActionView, ScanEvent, ScanPhase,
};
use super::messages::{
    broadcast_error, broadcast_error_text, catch_up_error, catch_up_error_text, RecvError,
};

verus! {

/// How subscriptions resume.
#[derive(Clone, Copy, Debug, PartialEq, Eq, Structural)]
pub struct SubscriptionConfig {
    pub resume_batch_size: usize,
    pub resume_transition_threshold: u64,
    pub resume_max_recovery_attempts: u32,
}

/// Where a feed stands.
#[derive(Clone, Copy, Debug, PartialEq, Eq, Structural)]
pub enum FeedPhase {
    /// A scan covers the gap to the live tip.
    Scanning(BackfillScan),
    /// The live broadcast is consumed.
    Live,
    Ended,
}

/// What a feed is told.
#[derive(Clone, Copy, Debug, PartialEq, Eq, Structural)]
pub enum FeedEvent {
    /// An event of the scan.
    Scan(ScanEvent),
    /// The next checkpoint of the live broadcast, by its sequence number.
    Received(u64),
    /// The live broadcast gave no checkpoint.
    ReceiveFailed(RecvError),
}

/// What a feed asks for.
#[derive(Debug, PartialEq, Eq)]
pub enum FeedAction {
    /// Read the network tip.
    ReadTip,
    /// Fetch and process a batch of checkpoints.
    Fetch(RangeInclusive<u64>),
    /// Hand out the checkpoint, then go on with what it came from.
    Yield(u64),
    /// Hand out the error of the fetch, and end.
    FetchFailed,
    /// Wait for the live broadcast.
    Receive,
    /// Hand out an error with this message, and end.
    Fail(String),
}

/// What a feed asks for, with the batch as its bounds and the message as its characters.
pub enum FeedActionView {
    ReadTip,
    Fetch(RangeInclusiveView<u64>),
    Yield(u64),
    FetchFailed,
    Receive,
    Fail(Seq<char>),
}

impl View for FeedAction {
    type V = FeedActionView;

    open spec fn view(&self) -> FeedActionView {
        match *self {
            FeedAction::ReadTip => FeedActionView::ReadTip,
            FeedAction::Fetch(batch) => FeedActionView::Fetch(batch@),
            FeedAction::Yield(sequence_number) => FeedActionView::Yield(sequence_number),
            FeedAction::FetchFailed => FeedActionView::FetchFailed,
            FeedAction::Receive => FeedActionView::Receive,
            FeedAction::Fail(message) => FeedActionView::Fail(message@),
        }
    }
}

/// The stream of checkpoints of one subscriber.
#[derive(Clone, Copy, Debug, PartialEq, Eq, Structural)]
pub struct CheckpointFeed {
    pub last_yielded: Option<u64>,
    /// How often the feed has gone back to scanning since it last handed out a live checkpoint.
    pub recovery_attempts: u32,
    pub config: SubscriptionConfig,
    pub phase: FeedPhase,
}

/// What the live broadcast brings to a feed.
pub enum LiveItem {
    /// It has been handed out before.
    Old,
    /// Checkpoints before it are missing.
    Ahead,
    /// It is the next one.
    Next,
}

/// How a live checkpoint stands to what has been handed out.
pub open spec fn classify(last_yielded: Option<u64>, sequence_number: u64) -> LiveItem {
    match last_yielded {
        Some(last) => if sequence_number <= last {
            LiveItem::Old
        } else if sequence_number > last + 1 {
            LiveItem::Ahead
        } else {
            LiveItem::Next
        },
        None => LiveItem::Next,
    }
}

/// A feed that resumes behind `resume_from`.
pub open spec fn feed_from(resume_from: Option<u64>, config: SubscriptionConfig) -> CheckpointFeed {
    CheckpointFeed {
        last_yielded: resume_from,
        recovery_attempts: 0,
        config,
        phase: covering(resume_from, config),
    }
}

/// A feed that has handed out a checkpoint scans from there; one that has not starts live.
pub open spec fn covering(last_yielded: Option<u64>, config: SubscriptionConfig) -> FeedPhase {
    match last_yielded {
        Some(last) => FeedPhase::Scanning(
            started(last, config.resume_batch_size, config.resume_transition_threshold),
        ),
        None => FeedPhase::Live,
    }
}

impl CheckpointFeed {
    /// Recoveries are within the limit, and a scan goes on from the last checkpoint that was
    /// handed out.
    pub open spec fn wf(self) -> bool {
        &&& self.recovery_attempts == 0 || self.recovery_attempts
            < self.config.resume_max_recovery_attempts
        &&& self.phase matches FeedPhase::Scanning(scan) ==> {
            &&& self.last_yielded == Some(scan.last_scanned)
            &&& scan.phase != ScanPhase::Ended
            &&& scan.max_batch_size == self.config.resume_batch_size
            &&& scan.transition_threshold == self.config.resume_transition_threshold
        }
    }

    /// A scan is told what it waits for, a live feed what the broadcast brings.
    pub open spec fn accepts(self, event: FeedEvent) -> bool {
        match event {
            FeedEvent::Scan(scan_event) => self.phase matches FeedPhase::Scanning(scan)
                && scan.accepts(scan_event),
            _ => self.phase == FeedPhase::Live,
        }
    }

    /// What the feed asks for where it covers the gap to the live tip.
    pub open spec fn cover_action(self) -> FeedActionView {
        if self.last_yielded is Some {
            FeedActionView::ReadTip
        } else {
            FeedActionView::Receive
        }
    }

    /// One more recovery is within the limit.
    pub open spec fn may_recover(self) -> bool {
        self.recovery_attempts + 1 < self.config.resume_max_recovery_attempts
    }

    /// The feed goes back to covering the gap because of an event.
    pub open spec fn recovers(self, event: FeedEvent) -> bool {
        &&& self.may_recover()
        &&& match event {
            FeedEvent::Scan(_) => false,
            FeedEvent::Received(sequence_number) => classify(self.last_yielded, sequence_number)
                is Ahead,
            FeedEvent::ReceiveFailed(e) => e is Lagged,
        }
    }

    /// The feed hands out a live checkpoint because of an event.
    pub open spec fn goes_live(self, event: FeedEvent) -> bool {
        event matches FeedEvent::Received(sequence_number) && classify(
            self.last_yielded,
            sequence_number,
        ) is Next
    }

    /// What the feed asks for on an event.
    pub open spec fn action(self, event: FeedEvent) -> FeedActionView {
        match event {
            FeedEvent::Scan(scan_event) => match self.phase->Scanning_0.action(scan_event) {
                ScanActionView::ReadTip => FeedActionView::ReadTip,
                ScanActionView::Fetch(batch) => FeedActionView::Fetch(batch),
                ScanActionView::Yield(sequence_number) => FeedActionView::Yield(sequence_number),
                ScanActionView::Fail => FeedActionView::FetchFailed,
                ScanActionView::HandOff => FeedActionView::Receive,
            },
            FeedEvent::Received(sequence_number) => match classify(
                self.last_yielded,
                sequence_number,
            ) {
                LiveItem::Old => FeedActionView::Receive,
                LiveItem::Ahead => if self.may_recover() {
                    self.cover_action()
                } else {
                    FeedActionView::Fail(
                        catch_up_error_text(self.config.resume_max_recovery_attempts),
                    )
                },
                LiveItem::Next => FeedActionView::Yield(sequence_number),
            },
            FeedEvent::ReceiveFailed(e) => if e is Lagged && self.may_recover() {
                self.cover_action()
            } else {
                FeedActionView::Fail(broadcast_error_text(e))
            },
        }
    }

    /// The feed after it went back to covering the gap.
    pub open spec fn recovered(self) -> CheckpointFeed {
        CheckpointFeed {
            recovery_attempts: (self.recovery_attempts + 1) as u32,
            phase: covering(self.last_yielded, self.config),
            ..self
        }
    }

    /// The feed after an event.
    pub open spec fn after(self, event: FeedEvent) -> CheckpointFeed {
        match event {
            FeedEvent::Scan(scan_event) => {
                let scan = self.phase->Scanning_0;
                match scan.action(scan_event) {
                    ScanActionView::Yield(sequence_number) => CheckpointFeed {
                        last_yielded: Some(sequence_number),
                        phase: FeedPhase::Scanning(scan.after(scan_event)),
                        ..self
                    },
                    ScanActionView::Fail => CheckpointFeed { phase: FeedPhase::Ended, ..self },
                    ScanActionView::HandOff => CheckpointFeed { phase: FeedPhase::Live, ..self },
                    _ => CheckpointFeed {
                        phase: FeedPhase::Scanning(scan.after(scan_event)),
                        ..self
                    },
                }
            },
            FeedEvent::Received(sequence_number) => match classify(
                self.last_yielded,
                sequence_number,
            ) {
                LiveItem::Old => self,
                LiveItem::Ahead => if self.may_recover() {
                    self.recovered()
                } else {
                    CheckpointFeed { phase: FeedPhase::Ended, ..self }
                },
                LiveItem::Next => CheckpointFeed {
                    last_yielded: Some(sequence_number),
                    recovery_attempts: 0,
                    ..self
                },
            },
            FeedEvent::ReceiveFailed(e) => if e is Lagged && self.may_recover() {
                self.recovered()
            } else {
                CheckpointFeed { phase: FeedPhase::Ended, ..self }
            },
        }
    }

    /// A feed that resumes behind `resume_from`, or starts with the next live checkpoint.
    pub fn new(resume_from: Option<u64>, config: SubscriptionConfig) -> (res: Self)
        ensures
            res == feed_from(resume_from, config),
            res.wf(),
    {
        let mut feed = CheckpointFeed {
            last_yielded: resume_from,
            recovery_attempts: 0,
            config,
            phase: FeedPhase::Live,
        };
        feed.cover();
        feed
    }

    /// What to do first.
    pub fn begin(&self) -> (res: FeedAction)
        ensures
            res@ == self.cover_action(),
    {
        match self.last_yielded {
            Some(_) => FeedAction::ReadTip,
            None => FeedAction::Receive,
        }
    }

    /// Sets out to cover the gap to the live tip.
    fn cover(&mut self)
        ensures
            *final(self) == (CheckpointFeed {
                phase: covering(old(self).last_yielded, old(self).config),
                ..*old(self)
            }),
    {
        match self.last_yielded {
            Some(last) => {
                self.phase = FeedPhase::Scanning(
                    scan_checkpoints(
                        last,
                        self.config.resume_batch_size,
                        self.config.resume_transition_threshold,
                    ),
                );
            },
            None => {
                self.phase = FeedPhase::Live;
            },
        }
    }

    /// Takes in an event and says what to do next.
    pub fn step(&mut self, event: FeedEvent) -> (res: FeedAction)
        requires
            old(self).wf(),
            old(self).accepts(event),
        ensures
            final(self).wf(),
            *final(self) == old(self).after(event),
            res@ == old(self).action(event),
    {
        match event {
            FeedEvent::Scan(scan_event) => {
                match self.phase {
                    FeedPhase::Scanning(scan) => self.scan_step(scan, scan_event),
                    _ => FeedAction::Receive,
                }
            },
            FeedEvent::Received(sequence_number) => self.receive(sequence_number),
            FeedEvent::ReceiveFailed(e) => {
                match e {
                    RecvError::Lagged(_) => {
                        if self.recovery_attempts + 1 < self.config.resume_max_recovery_attempts {
                            self.recovery_attempts = self.recovery_attempts + 1;
                            self.cover();
                            return self.begin();
                        }
                    },
                    RecvError::Closed => {},
                }
                self.phase = FeedPhase::Ended;
                FeedAction::Fail(broadcast_error(e))
            },
        }
    }

    fn scan_step(&mut self, scan: BackfillScan, event: ScanEvent) -> (res: FeedAction)
        requires
            old(self).wf(),
            old(self).phase == FeedPhase::Scanning(scan),
            scan.accepts(event),
        ensures
            final(self).wf(),
            *final(self) == old(self).after(FeedEvent::Scan(event)),
            res@ == old(self).action(FeedEvent::Scan(event)),
    {
        let mut scan = scan;
        let action = scan.step(event);
        match action {
            ScanAction::ReadTip => {
                self.phase = FeedPhase::Scanning(scan);
                FeedAction::ReadTip
            },
            ScanAction::Fetch(batch) => {
                self.phase = FeedPhase::Scanning(scan);
                FeedAction::Fetch(batch)
            },
            ScanAction::Yield(sequence_number) => {
                self.last_yielded = Some(sequence_number);
                self.phase = FeedPhase::Scanning(scan);
                FeedAction::Yield(sequence_number)
            },
            ScanAction::Fail => {
                self.phase = FeedPhase::Ended;
                FeedAction::FetchFailed
            },
            ScanAction::HandOff => {
                self.phase = FeedPhase::Live;
                FeedAction::Receive
            },
        }
    }

    fn receive(&mut self, sequence_number: u64) -> (res: FeedAction)
        requires
            old(self).wf(),
            old(self).phase == FeedPhase::Live,
        ensures
            final(self).wf(),
            *final(self) == old(self).after(FeedEvent::Received(sequence_number)),
            res@ == old(self).action(FeedEvent::Received(sequence_number)),
    {
        if let Some(last) = self.last_yielded {
            if sequence_number <= last {
                // The receiver still holds items older than the position of the scan.
                return FeedAction::Receive;
            }
            if sequence_number > last + 1 {
                // The broadcast went past where the scan ended.
                if self.recovery_attempts + 1 >= self.config.resume_max_recovery_attempts {
                    self.phase = FeedPhase::Ended;
                    return FeedAction::Fail(
                        catch_up_error(self.config.resume_max_recovery_attempts),
                    );
                }
                self.recovery_attempts = self.recovery_attempts + 1;
                self.cover();
                return self.begin();
            }
        }
        self.recovery_attempts = 0;
        self.last_yielded = Some(sequence_number);
        FeedAction::Yield(sequence_number)
    }
}

} // verus!
