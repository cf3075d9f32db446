//! The streams that a subscriber can ask for.

use vstd::prelude::*;
use vstd::string::*;

use super::checkpoint_feed::{feed_from, CheckpointFeed, SubscriptionConfig};
use super::messages::{broadcast_error, broadcast_error_text, RecvError};

verus! {

/// A request that cannot be served.
#[derive(Clone, Copy, Debug, PartialEq, Eq, Structural)]
pub enum Error {
    OneResumeArg,
}

impl Error {
    /// The error in words.
    pub open spec fn text(self) -> Seq<char> {
        match self {
            Error::OneResumeArg =>
                "At most one of `afterCursor` or `afterCheckpoint` can be specified"@,
        }
    }

    /// The error in words.
    pub fn message(&self) -> (res: String)
        ensures
            res@ == self.text(),
            res@ == "At most one of `afterCursor` or `afterCheckpoint` can be specified"@,
    {
        match self {
            Error::OneResumeArg =>
                "At most one of `afterCursor` or `afterCheckpoint` can be specified".to_owned(),
        }
    }
}

/// What one reception of the live broadcast brings a subscriber.
#[derive(Debug, PartialEq, Eq)]
pub enum StreamStep<T> {
    /// Hand out the items in order, then wait for the broadcast.
    Yield(Vec<T>),
    /// Hand out an error with this message, and end.
    Fail(String),
}

/// The digest of a transaction.
#[derive(Clone, Copy, Debug, PartialEq, Eq)]
pub struct TransactionDigest(pub [u8; 32]);

/// Of one transaction: by event, whether the filter takes it.
pub struct TransactionEvents {
    pub digest: TransactionDigest,
    /// `None` where the transaction has no list of events.
    pub verdicts: Option<Vec<bool>>,
}

impl TransactionEvents {
    /// By event, whether the filter takes it.
    pub open spec fn taken(self) -> Seq<bool> {
        match self.verdicts {
            Some(verdicts) => verdicts@,
            None => seq![],
        }
    }
}

/// Of one checkpoint: its time, and its transactions with what the filter says of their events.
pub struct CheckpointEvents {
    pub timestamp_ms: u64,
    pub transactions: Vec<TransactionEvents>,
}

/// An event that is handed out.
#[derive(Clone, Copy, Debug, PartialEq, Eq)]
pub struct EventRecord {
    /// The position of the transaction in the checkpoint.
    pub transaction: usize,
    pub transaction_digest: TransactionDigest,
    /// The position of the event in the transaction.
    pub sequence_number: u64,
    pub timestamp_ms: Option<u64>,
}

/// The positions of what the filter takes, in ascending order.
pub open spec fn matching(verdicts: Seq<bool>) -> Seq<usize>
    decreases verdicts.len(),
{
    if verdicts.len() == 0 {
        seq![]
    } else if verdicts.last() {
        matching(verdicts.drop_last()).push((verdicts.len() - 1) as usize)
    } else {
        matching(verdicts.drop_last())
    }
}

/// The event at a position of a transaction.
pub open spec fn record(
    tx: TransactionEvents,
    transaction: int,
    sequence_number: int,
    timestamp_ms: u64,
) -> EventRecord {
    EventRecord {
        transaction: transaction as usize,
        transaction_digest: tx.digest,
        sequence_number: sequence_number as u64,
        timestamp_ms: Some(timestamp_ms),
    }
}

/// The events of one transaction that the filter takes, in order.
pub open spec fn records_in(tx: TransactionEvents, transaction: int, timestamp_ms: u64) -> Seq<
    EventRecord,
> {
    matching(tx.taken()).map_values(|at: usize| record(tx, transaction, at as int, timestamp_ms))
}

/// The events of a list of transactions that the filter takes, in order.
pub open spec fn records(txs: Seq<TransactionEvents>, timestamp_ms: u64) -> Seq<EventRecord>
    decreases txs.len(),
{
    if txs.len() == 0 {
        seq![]
    } else {
        records(txs.drop_last(), timestamp_ms) + records_in(
            txs.last(),
            txs.len() - 1,
            timestamp_ms,
        )
    }
}

/// The positions of what the filter takes.
fn matching_positions(verdicts: &Vec<bool>) -> (res: Vec<usize>)
    ensures
        res@ == matching(verdicts@),
{
    let mut res: Vec<usize> = Vec::new();
    let mut i: usize = 0;
    while i < verdicts.len()
        invariant
            i <= verdicts@.len(),
            res@ == matching(verdicts@.take(i as int)),
        decreases verdicts.len() - i,
    {
        assert(verdicts@.take(i + 1).drop_last() =~= verdicts@.take(i as int));
        if verdicts[i] {
            res.push(i);
        }
        i += 1;
    }
    assert(verdicts@.take(i as int) =~= verdicts@);
    res
}

/// The subscriptions.
pub struct Subscription;

impl Default for Subscription {
    fn default() -> (res: Self)
        ensures
            res == Subscription,
    {
        Subscription
    }
}

impl Subscription {
    /// Subscribe to checkpoints as they are finalized.
    ///
    /// Pass `after_cursor` or `after_checkpoint` (sequence number) to resume from a known
    /// point. The two arguments are mutually exclusive.
    pub fn checkpoints(
        &self,
        after_cursor: Option<u64>,
        after_checkpoint: Option<u64>,
        config: &SubscriptionConfig,
    ) -> (res: Result<CheckpointFeed, Error>)
        ensures
            res is Err <==> after_cursor is Some && after_checkpoint is Some,
            res matches Err(e) ==> e == Error::OneResumeArg,
            res matches Ok(feed) ==> feed.wf() && feed == feed_from(
                if after_cursor is Some {
                    after_cursor
                } else {
                    after_checkpoint
                },
                *config,
            ),
    {
        match self.resume_from(after_cursor, after_checkpoint) {
            Ok(resume_from) => Ok(CheckpointFeed::new(resume_from, *config)),
            Err(e) => Err(e),
        }
    }

    /// The point that a subscription to checkpoints resumes from, if it resumes.
    pub fn resume_from(
        &self,
        after_cursor: Option<u64>,
        after_checkpoint: Option<u64>,
    ) -> (res: Result<Option<u64>, Error>)
        ensures
            res == if after_cursor is Some && after_checkpoint is Some {
                Err::<Option<u64>, Error>(Error::OneResumeArg)
            } else if after_cursor is Some {
                Ok(after_cursor)
            } else {
                Ok(after_checkpoint)
            },
    {
        if after_cursor.is_some() && after_checkpoint.is_some() {
            return Err(Error::OneResumeArg);
        }
        match after_cursor {
            Some(cursor) => Ok(Some(cursor)),
            None => Ok(after_checkpoint),
        }
    }

    /// Subscribe to transactions as they are finalized. `received` is what the broadcast
    /// brought: by transaction of a checkpoint, whether the filter takes it.
    ///
    /// Each matching transaction is handed out by its position in the checkpoint. Transactions
    /// are ordered by checkpoint, then by position within the checkpoint.
    pub fn transactions(&self, received: &Result<Vec<bool>, RecvError>) -> (res: StreamStep<usize>)
        ensures
            match (*received, res) {
                (Ok(verdicts), StreamStep::Yield(positions)) => positions@ == matching(verdicts@),
                (Err(e), StreamStep::Fail(message)) => message@ == broadcast_error_text(e),
                _ => false,
            },
    {
        match received {
            Ok(verdicts) => StreamStep::Yield(matching_positions(verdicts)),
            Err(e) => StreamStep::Fail(broadcast_error(*e)),
        }
    }

    /// Subscribe to events as they are emitted. `received` is what the broadcast brought: the
    /// transactions of a checkpoint, with what the filter says of their events.
    ///
    /// Events are ordered by checkpoint, then by transaction position within the checkpoint,
    /// then by position within the transaction.
    pub fn events(&self, received: &Result<CheckpointEvents, RecvError>) -> (res: StreamStep<
        EventRecord,
    >)
        ensures
            match (*received, res) {
                (Ok(checkpoint), StreamStep::Yield(events)) => events@ == records(
                    checkpoint.transactions@,
                    checkpoint.timestamp_ms,
                ),
                (Err(e), StreamStep::Fail(message)) => message@ == broadcast_error_text(e),
                _ => false,
            },
    {
        match received {
            Ok(checkpoint) => StreamStep::Yield(matching_events(checkpoint)),
            Err(e) => StreamStep::Fail(broadcast_error(*e)),
        }
    }
}

/// The events of a checkpoint that the filter takes.
fn matching_events(checkpoint: &CheckpointEvents) -> (res: Vec<EventRecord>)
    ensures
        res@ == records(checkpoint.transactions@, checkpoint.timestamp_ms),
{
    let ghost txs = checkpoint.transactions@;
    let ghost time = checkpoint.timestamp_ms;
    let mut res: Vec<EventRecord> = Vec::new();
    let mut t: usize = 0;
    while t < checkpoint.transactions.len()
        invariant
            txs == checkpoint.transactions@,
            time == checkpoint.timestamp_ms,
            t <= txs.len(),
            res@ == records(txs.take(t as int), time),
        decreases txs.len() - t,
    {
        let tx = &checkpoint.transactions[t];
        let positions: Vec<usize> = match &tx.verdicts {
            Some(verdicts) => matching_positions(verdicts),
            None => Vec::new(),
        };
        let ghost before = res@;
        let ghost wanted = records_in(*tx, t as int, time);
        let mut i: usize = 0;
        assert(res@ =~= before + wanted.take(0));
        while i < positions.len()
            invariant
                time == checkpoint.timestamp_ms,
                positions@ == matching(tx.taken()),
                wanted == records_in(*tx, t as int, time),
                i <= positions@.len(),
                res@ == before + wanted.take(i as int),
            decreases positions.len() - i,
        {
            res.push(
                EventRecord {
                    transaction: t,
                    transaction_digest: tx.digest,
                    sequence_number: positions[i] as u64,
                    timestamp_ms: Some(checkpoint.timestamp_ms),
                },
            );
            assert(wanted.take(i + 1) =~= wanted.take(i as int).push(wanted[i as int]));
            assert(res@ =~= before + wanted.take(i + 1));
            i += 1;
        }
        assert(wanted.take(i as int) =~= wanted);
        assert(txs.take(t + 1).drop_last() =~= txs.take(t as int));
        t += 1;
    }
    assert(txs.take(t as int) =~= txs);
    res
}

} // verus!
