//! The streams of transactions and events: what they hold, in what order, and how they end.

use vstd::prelude::*;

use super::messages::{broadcast_error_text, RecvError};
use super::subscription::{
    matching, record, records, records_in, CheckpointEvents, EventRecord, TransactionEvents,
};

verus! {

/// What a subscriber is handed: an item of a reception, by the number of the reception, or the
/// failure of the broadcast.
pub enum StreamItem<T> {
    Taken(int, T),
    Failed(Seq<char>),
}

/// The broadcast has failed in a list of receptions.
pub open spec fn has_failed<R>(received: Seq<Result<R, RecvError>>) -> bool {
    exists|i: int| 0 <= i < received.len() && #[trigger] received[i] is Err
}

/// What reception `k` hands out: the items that `gives` finds in it, in order, or the failure.
pub open spec fn handed_out<R, T>(
    k: int,
    reception: Result<R, RecvError>,
    gives: spec_fn(R) -> Seq<T>,
) -> Seq<StreamItem<T>> {
    match reception {
        Ok(r) => gives(r).map_values(|item: T| StreamItem::Taken(k, item)),
        Err(e) => seq![StreamItem::Failed(broadcast_error_text(e))],
    }
}

/// What a list of receptions hands out. A failure ends the stream.
pub open spec fn stream<R, T>(
    received: Seq<Result<R, RecvError>>,
    gives: spec_fn(R) -> Seq<T>,
) -> Seq<StreamItem<T>>
    decreases received.len(),
{
    if received.len() == 0 {
        seq![]
    } else if has_failed(received.drop_last()) {
        stream(received.drop_last(), gives)
    } else {
        stream(received.drop_last(), gives) + handed_out(
            received.len() - 1,
            received.last(),
            gives,
        )
    }
}

/// What [`super::subscription::Subscription::transactions`] hands out of a checkpoint.
pub open spec fn transactions_of() -> spec_fn(Vec<bool>) -> Seq<usize> {
    |verdicts: Vec<bool>| matching(verdicts@)
}

/// What [`super::subscription::Subscription::events`] hands out of a checkpoint.
pub open spec fn events_of() -> spec_fn(CheckpointEvents) -> Seq<EventRecord> {
    |checkpoint: CheckpointEvents| records(checkpoint.transactions@, checkpoint.timestamp_ms)
}

/// The stream of a subscriber to transactions.
pub open spec fn transaction_stream(received: Seq<Result<Vec<bool>, RecvError>>) -> Seq<
    StreamItem<usize>,
> {
    stream(received, transactions_of())
}

/// The stream of a subscriber to events.
pub open spec fn event_stream(received: Seq<Result<CheckpointEvents, RecvError>>) -> Seq<
    StreamItem<EventRecord>,
> {
    stream(received, events_of())
}

/// Before reception `k`, and in it, the broadcast gave checkpoints.
pub open spec fn reaches<R>(received: Seq<Result<R, RecvError>>, k: int) -> bool {
    0 <= k < received.len() && forall|j: int| 0 <= j <= k ==> #[trigger] received[j] is Ok
}

/// While the broadcast has not failed, each reception adds what it hands out.
pub proof fn law_stream_grows<R, T>(
    received: Seq<Result<R, RecvError>>,
    reception: Result<R, RecvError>,
    gives: spec_fn(R) -> Seq<T>,
)
    requires
        !has_failed(received),
    ensures
        stream(received.push(reception), gives) == stream(received, gives) + handed_out(
            received.len() as int,
            reception,
            gives,
        ),
{
    assert(received.push(reception).drop_last() =~= received);
}

/// The first failure is handed out once, behind all that came before it, and ends the stream.
pub proof fn law_failure_ends_the_stream<R, T>(
    received: Seq<Result<R, RecvError>>,
    n: int,
    gives: spec_fn(R) -> Seq<T>,
)
    requires
        0 <= n < received.len(),
        received[n] is Err,
        !has_failed(received.take(n)),
    ensures
        stream(received, gives) == stream(received.take(n), gives).push(
            StreamItem::Failed(broadcast_error_text(received[n]->Err_0)),
        ),
    decreases received.len(),
{
    let before = received.drop_last();
    if n == received.len() - 1 {
        assert(received.take(n) =~= before);
        assert(stream(received, gives) =~= stream(before, gives).push(
            StreamItem::Failed(broadcast_error_text(received[n]->Err_0)),
        ));
    } else {
        assert(before[n] is Err);
        assert(before.take(n) =~= received.take(n));
        law_failure_ends_the_stream(before, n, gives);
    }
}

/// What each reception hands out.
pub open spec fn by_reception<R, T>(
    received: Seq<Result<R, RecvError>>,
    gives: spec_fn(R) -> Seq<T>,
) -> Seq<Seq<StreamItem<T>>> {
    Seq::new(received.len(), |k: int| handed_out(k, received[k], gives))
}

/// The stream up to the first failure, and with it, is what the receptions hand out, one after
/// the other; the failure is one item, and nothing follows it.
pub proof fn law_stream_is_a_concatenation<R, T>(
    received: Seq<Result<R, RecvError>>,
    n: int,
    gives: spec_fn(R) -> Seq<T>,
)
    requires
        0 <= n <= received.len(),
        !has_failed(received.take(n)),
        n < received.len() ==> received[n] is Err,
    ensures
        stream(received, gives) == by_reception(received.take(n), gives).flatten() + (if n
            < received.len() {
            seq![StreamItem::Failed(broadcast_error_text(received[n]->Err_0))]
        } else {
            seq![]
        }),
{
    lemma_concatenation(received.take(n), gives);
    if n < received.len() {
        law_failure_ends_the_stream(received, n, gives);
    } else {
        assert(received.take(n) =~= received);
    }
    assert(stream(received, gives) =~= by_reception(received.take(n), gives).flatten() + (if n
        < received.len() {
        seq![StreamItem::Failed(broadcast_error_text(received[n]->Err_0))]
    } else {
        seq![]
    }));
}

proof fn lemma_concatenation<R, T>(
    received: Seq<Result<R, RecvError>>,
    gives: spec_fn(R) -> Seq<T>,
)
    requires
        !has_failed(received),
    ensures
        stream(received, gives) == by_reception(received, gives).flatten(),
    decreases received.len(),
{
    let parts = by_reception(received, gives);
    parts.lemma_flatten_and_flatten_alt_are_equivalent();
    if received.len() > 0 {
        let before = received.drop_last();
        assert(!has_failed(before)) by {
            if has_failed(before) {
                let i = choose|i: int| 0 <= i < before.len() && #[trigger] before[i] is Err;
                assert(received[i] is Err);
            }
        }
        lemma_concatenation(before, gives);
        assert(parts.drop_last() =~= by_reception(before, gives));
        by_reception(before, gives).lemma_flatten_and_flatten_alt_are_equivalent();
    }
}

/// Every item of every reception before the first failure is handed out, and no other.
pub proof fn law_stream_is_whole<R, T>(
    received: Seq<Result<R, RecvError>>,
    gives: spec_fn(R) -> Seq<T>,
    k: int,
    item: T,
)
    ensures
        stream(received, gives).contains(StreamItem::Taken(k, item)) <==> reaches(received, k)
            && gives(received[k]->Ok_0).contains(item),
    decreases received.len(),
{
    if received.len() > 0 {
        let before = received.drop_last();
        let last = received.len() - 1;
        let taken = StreamItem::Taken(k, item);
        law_stream_is_whole(before, gives, k, item);
        if k < last {
            assert(reaches(before, k) == reaches(received, k)) by {
                if reaches(before, k) {
                    assert forall|j: int| 0 <= j <= k implies #[trigger] received[j] is Ok by {
                        assert(before[j] is Ok);
                    }
                }
                if reaches(received, k) {
                    assert forall|j: int| 0 <= j <= k implies #[trigger] before[j] is Ok by {
                        assert(received[j] is Ok);
                    }
                }
            }
        }
        if has_failed(before) {
            let i = choose|i: int| 0 <= i < before.len() && #[trigger] before[i] is Err;
            assert(received[i] is Err);
        } else {
            let added = handed_out(last, received.last(), gives);
            lemma_contains(stream(before, gives), added, taken);
            if let Ok(r) = received.last() {
                if k == last {
                    assert forall|j: int| 0 <= j <= k implies #[trigger] received[j] is Ok by {
                        if j < last {
                            assert(before[j] is Ok);
                        }
                    }
                    if gives(r).contains(item) {
                        let items = gives(r);
                        let p = choose|p: int| 0 <= p < items.len() && items[p] == item;
                        assert(added[p] == taken);
                    }
                }
                if added.contains(taken) {
                    let p = choose|p: int| 0 <= p < added.len() && added[p] == taken;
                    assert(gives(r)[p] == item);
                }
            } else {
                assert(added[0] != taken);
            }
        }
    }
}

proof fn lemma_contains<T>(a: Seq<T>, b: Seq<T>, x: T)
    ensures
        (a + b).contains(x) <==> a.contains(x) || b.contains(x),
{
    if a.contains(x) {
        let i = choose|i: int| 0 <= i < a.len() && a[i] == x;
        assert((a + b)[i] == x);
    }
    if b.contains(x) {
        let i = choose|i: int| 0 <= i < b.len() && b[i] == x;
        assert((a + b)[a.len() + i] == x);
    }
}

/// Of two items the first comes before the second: of an earlier reception, or of the same one
/// and earlier in it by `less`.
pub open spec fn in_order<T>(
    a: StreamItem<T>,
    b: StreamItem<T>,
    less: spec_fn(T, T) -> bool,
) -> bool {
    match (a, b) {
        (StreamItem::Taken(i, x), StreamItem::Taken(j, y)) => i < j || (i == j && less(x, y)),
        (StreamItem::Taken(_, _), StreamItem::Failed(_)) => true,
        _ => false,
    }
}

/// Where each reception is in order, the stream is: by reception, then within the reception,
/// and a failure comes last.
proof fn lemma_stream_in_order<R, T>(
    received: Seq<Result<R, RecvError>>,
    gives: spec_fn(R) -> Seq<T>,
    less: spec_fn(T, T) -> bool,
)
    requires
        forall|r: R, i: int, j: int|
            0 <= i < j < gives(r).len() ==> less(#[trigger] gives(r)[i], #[trigger] gives(r)[j]),
    ensures
        forall|i: int, j: int|
            0 <= i < j < stream(received, gives).len() ==> in_order(
                #[trigger] stream(received, gives)[i],
                #[trigger] stream(received, gives)[j],
                less,
            ),
        forall|i: int|
            0 <= i < stream(received, gives).len() ==> match #[trigger] stream(received, gives)[i] {
                StreamItem::Taken(k, _) => 0 <= k < received.len(),
                StreamItem::Failed(_) => has_failed(received),
            },
    decreases received.len(),
{
    if received.len() > 0 {
        let before = received.drop_last();
        let last = received.len() - 1;
        lemma_stream_in_order(before, gives, less);
        let s = stream(before, gives);
        let all = stream(received, gives);
        if has_failed(before) {
            let i = choose|i: int| 0 <= i < before.len() && #[trigger] before[i] is Err;
            assert(received[i] is Err);
            assert(all == s);
        } else {
            let added = handed_out(last, received.last(), gives);
            assert(all == s + added);
            assert forall|i: int, j: int| 0 <= i < j < all.len() implies in_order(
                #[trigger] all[i],
                #[trigger] all[j],
                less,
            ) by {
                if j < s.len() {
                    assert(all[i] == s[i] && all[j] == s[j]);
                } else if i < s.len() {
                    assert(all[i] == s[i] && all[j] == added[j - s.len()]);
                } else {
                    assert(all[i] == added[i - s.len()] && all[j] == added[j - s.len()]);
                    let r = received.last()->Ok_0;
                    assert(less(gives(r)[i - s.len()], gives(r)[j - s.len()]));
                }
            }
            assert forall|i: int| 0 <= i < all.len() implies match #[trigger] all[i] {
                StreamItem::Taken(k, _) => 0 <= k < received.len(),
                StreamItem::Failed(_) => has_failed(received),
            } by {
                if i < s.len() {
                    assert(all[i] == s[i]);
                } else {
                    assert(all[i] == added[i - s.len()]);
                    if received.last() is Err {
                        assert(received[last] is Err);
                    }
                }
            }
        }
    }
}

/// What is handed out of a list of verdicts is what the filter takes, in order.
pub proof fn law_matching(verdicts: Seq<bool>)
    requires
        verdicts.len() <= usize::MAX,
    ensures
        forall|i: int, j: int|
            0 <= i < j < matching(verdicts).len() ==> #[trigger] matching(verdicts)[i]
                < #[trigger] matching(verdicts)[j],
        forall|at: usize| #[trigger]
            matching(verdicts).contains(at) <==> at < verdicts.len() && verdicts[at as int],
    decreases verdicts.len(),
{
    if verdicts.len() > 0 {
        let shorter = verdicts.drop_last();
        law_matching(shorter);
        let last = (verdicts.len() - 1) as usize;
        assert forall|i: int| 0 <= i < matching(shorter).len() implies #[trigger] matching(
            shorter,
        )[i] < last by {
            assert(matching(shorter).contains(matching(shorter)[i]));
        }
        assert forall|at: usize| #[trigger]
            matching(verdicts).contains(at) <==> at < verdicts.len() && verdicts[at as int] by {
            if at != last {
                if matching(verdicts).contains(at) {
                    let k = choose|k: int|
                        0 <= k < matching(verdicts).len() && matching(verdicts)[k] == at;
                    assert(matching(shorter)[k] == at);
                    assert(matching(shorter).contains(at));
                } else if at < verdicts.len() && verdicts[at as int] {
                    assert(matching(shorter).contains(at));
                    let k = choose|k: int|
                        0 <= k < matching(shorter).len() && matching(shorter)[k] == at;
                    assert(matching(verdicts)[k] == at);
                }
            } else if verdicts.last() {
                assert(matching(verdicts)[matching(shorter).len() as int] == last);
            } else if matching(shorter).contains(at) {
                let k = choose|k: int| 0 <= k < matching(shorter).len() && matching(shorter)[k] == at;
                assert(matching(shorter)[k] < last);
            }
        }
    }
}

/// Transactions are ordered by checkpoint, then by position within the checkpoint.
pub proof fn law_transactions_in_order(received: Seq<Result<Vec<bool>, RecvError>>)
    ensures
        forall|i: int, j: int|
            0 <= i < j < transaction_stream(received).len() ==> in_order(
                #[trigger] transaction_stream(received)[i],
                #[trigger] transaction_stream(received)[j],
                |x: usize, y: usize| x < y,
            ),
{
    let gives = transactions_of();
    let less = |x: usize, y: usize| x < y;
    assert forall|r: Vec<bool>, i: int, j: int| 0 <= i < j < gives(r).len() implies less(
        #[trigger] gives(r)[i],
        #[trigger] gives(r)[j],
    ) by {
        lemma_vec_len(r);
        law_matching(r@);
        assert(matching(r@)[i] < matching(r@)[j]);
    }
    lemma_stream_in_order(received, gives, less);
}

/// A vector's length fits the type of its positions.
proof fn lemma_vec_len<T>(v: Vec<T>)
    ensures
        v@.len() <= usize::MAX,
{
    assert(v.len() == v@.len());
}

/// Of two events the first stands before the second: in an earlier transaction, or before it
/// in the same one.
pub open spec fn precedes(a: EventRecord, b: EventRecord) -> bool {
    a.transaction < b.transaction || (a.transaction == b.transaction && a.sequence_number
        < b.sequence_number)
}

/// What is handed out of a checkpoint is the events that the filter takes, ordered by
/// transaction position, then by position within the transaction.
pub proof fn law_records(txs: Seq<TransactionEvents>, timestamp_ms: u64)
    requires
        txs.len() <= usize::MAX,
    ensures
        forall|i: int, j: int|
            0 <= i < j < records(txs, timestamp_ms).len() ==> precedes(
                #[trigger] records(txs, timestamp_ms)[i],
                #[trigger] records(txs, timestamp_ms)[j],
            ),
        forall|t: int, k: int|
            0 <= t < txs.len() && 0 <= k < txs[t].taken().len() && #[trigger] txs[t].taken()[k]
                ==> records(txs, timestamp_ms).contains(record(txs[t], t, k, timestamp_ms)),
        forall|i: int|
            0 <= i < records(txs, timestamp_ms).len() ==> {
                let e = #[trigger] records(txs, timestamp_ms)[i];
                &&& e.transaction < txs.len()
                &&& e.sequence_number < txs[e.transaction as int].taken().len()
                &&& txs[e.transaction as int].taken()[e.sequence_number as int]
                &&& e == record(
                    txs[e.transaction as int],
                    e.transaction as int,
                    e.sequence_number as int,
                    timestamp_ms,
                )
            },
    decreases txs.len(),
{
    if txs.len() > 0 {
        let shorter = txs.drop_last();
        law_records(shorter, timestamp_ms);
        let tx = txs.last();
        let last = txs.len() - 1;
        let positions = matching(tx.taken());
        let before = records(shorter, timestamp_ms);
        let added = records_in(tx, last, timestamp_ms);
        let all = records(txs, timestamp_ms);
        assert(all == before + added);
        match tx.verdicts {
            Some(verdicts) => {
                lemma_vec_len(verdicts);
            },
            None => {},
        }
        law_matching(tx.taken());
        assert forall|i: int| 0 <= i < added.len() implies (#[trigger] added[i]).transaction == last
            && added[i].sequence_number == positions[i] && positions[i] < tx.taken().len()
            && tx.taken()[positions[i] as int] && added[i] == record(
            tx,
            last,
            positions[i] as int,
            timestamp_ms,
        ) by {
            assert(positions.contains(positions[i]));
        }
        assert forall|i: int, j: int| 0 <= i < j < all.len() implies precedes(
            #[trigger] all[i],
            #[trigger] all[j],
        ) by {
            if j < before.len() {
                assert(all[i] == before[i] && all[j] == before[j]);
            } else if i < before.len() {
                assert(all[i] == before[i] && all[j] == added[j - before.len()]);
            } else {
                assert(all[i] == added[i - before.len()] && all[j] == added[j - before.len()]);
                assert(positions[i - before.len()] < positions[j - before.len()]);
            }
        }
        assert forall|t: int, k: int|
            0 <= t < txs.len() && 0 <= k < txs[t].taken().len() && #[trigger] txs[t].taken()[k]
            implies all.contains(record(txs[t], t, k, timestamp_ms)) by {
            if t < last {
                assert(shorter[t].taken()[k]);
                let r = record(txs[t], t, k, timestamp_ms);
                let i = choose|i: int| 0 <= i < before.len() && before[i] == r;
                assert(all[i] == r);
            } else {
                assert(positions.contains(k as usize));
                let i = choose|i: int| 0 <= i < positions.len() && positions[i] == k as usize;
                assert(all[before.len() + i] == added[i]);
            }
        }
        assert forall|i: int| 0 <= i < all.len() implies {
            let e = #[trigger] all[i];
            &&& e.transaction < txs.len()
            &&& e.sequence_number < txs[e.transaction as int].taken().len()
            &&& txs[e.transaction as int].taken()[e.sequence_number as int]
            &&& e == record(
                txs[e.transaction as int],
                e.transaction as int,
                e.sequence_number as int,
                timestamp_ms,
            )
        } by {
            if i < before.len() {
                assert(all[i] == before[i]);
                assert(shorter[before[i].transaction as int] == txs[before[i].transaction as int]);
            } else {
                assert(all[i] == added[i - before.len()]);
            }
        }
    }
}

/// Events are ordered by checkpoint, then by transaction position within the checkpoint, then
/// by position within the transaction.
pub proof fn law_events_in_order(received: Seq<Result<CheckpointEvents, RecvError>>)
    ensures
        forall|i: int, j: int|
            0 <= i < j < event_stream(received).len() ==> in_order(
                #[trigger] event_stream(received)[i],
                #[trigger] event_stream(received)[j],
                |x: EventRecord, y: EventRecord| precedes(x, y),
            ),
{
    let gives = events_of();
    let less = |x: EventRecord, y: EventRecord| precedes(x, y);
    assert forall|r: CheckpointEvents, i: int, j: int| 0 <= i < j < gives(r).len() implies less(
        #[trigger] gives(r)[i],
        #[trigger] gives(r)[j],
    ) by {
        lemma_vec_len(r.transactions);
        law_records(r.transactions@, r.timestamp_ms);
        let all = records(r.transactions@, r.timestamp_ms);
        assert(precedes(all[i], all[j]));
    }
    lemma_stream_in_order(received, gives, less);
}

/// The stream of transactions that the filter takes is that of the checkpoints up to the first
/// failure, one after the other, then this failure, and nothing more.
pub proof fn law_transaction_stream_ends(received: Seq<Result<Vec<bool>, RecvError>>, n: int)
    requires
        0 <= n < received.len(),
        !has_failed(received.take(n)),
        received[n] is Err,
    ensures
        transaction_stream(received) == by_reception(received.take(n), transactions_of()).flatten().push(
            StreamItem::Failed(broadcast_error_text(received[n]->Err_0)),
        ),
{
    law_stream_is_a_concatenation(received, n, transactions_of());
    assert(transaction_stream(received) =~= by_reception(received.take(n), transactions_of()).flatten().push(
        StreamItem::Failed(broadcast_error_text(received[n]->Err_0)),
    ));
}

/// The stream of events that the filter takes is that of the checkpoints up to the first
/// failure, one after the other, then this failure, and nothing more.
pub proof fn law_event_stream_ends(received: Seq<Result<CheckpointEvents, RecvError>>, n: int)
    requires
        0 <= n < received.len(),
        !has_failed(received.take(n)),
        received[n] is Err,
    ensures
        event_stream(received) == by_reception(received.take(n), events_of()).flatten().push(
            StreamItem::Failed(broadcast_error_text(received[n]->Err_0)),
        ),
{
    law_stream_is_a_concatenation(received, n, events_of());
    assert(event_stream(received) =~= by_reception(received.take(n), events_of()).flatten().push(
        StreamItem::Failed(broadcast_error_text(received[n]->Err_0)),
    ));
}

/// The stream of transactions holds the position of every transaction that the filter takes,
/// of every checkpoint before the broadcast fails, and no other.
pub proof fn law_transaction_stream_is_whole(
    received: Seq<Result<Vec<bool>, RecvError>>,
    k: int,
    at: usize,
)
    ensures
        transaction_stream(received).contains(StreamItem::Taken(k, at)) <==> {
            &&& reaches(received, k)
            &&& at < received[k]->Ok_0@.len()
            &&& received[k]->Ok_0@[at as int]
        },
{
    law_stream_is_whole(received, transactions_of(), k, at);
    if reaches(received, k) {
        lemma_vec_len(received[k]->Ok_0);
        law_matching(received[k]->Ok_0@);
    }
}

/// The stream of events holds every event that the filter takes, of every checkpoint before
/// the broadcast fails, and no other.
pub proof fn law_event_stream_is_whole(
    received: Seq<Result<CheckpointEvents, RecvError>>,
    k: int,
    event: EventRecord,
)
    ensures
        event_stream(received).contains(StreamItem::Taken(k, event)) <==> {
            &&& reaches(received, k)
            &&& is_taken(received[k]->Ok_0, event)
        },
{
    law_stream_is_whole(received, events_of(), k, event);
    if reaches(received, k) {
        law_events_by_verdicts(received[k]->Ok_0);
    }
}

/// The event stands in the checkpoint, in a transaction with a list of verdicts, and its own
/// verdict there is that the filter takes it.
pub open spec fn is_taken(checkpoint: CheckpointEvents, event: EventRecord) -> bool {
    let tx = checkpoint.transactions@[event.transaction as int];
    &&& event.transaction < checkpoint.transactions@.len()
    &&& tx.verdicts matches Some(verdicts) && event.sequence_number < verdicts@.len()
        && verdicts@[event.sequence_number as int]
    &&& event.transaction_digest == tx.digest
    &&& event.timestamp_ms == Some(checkpoint.timestamp_ms)
}

/// Of a checkpoint exactly the events are handed out whose verdicts are that the filter takes
/// them: each transaction with a list of verdicts gives, for every position of the list with a
/// true verdict, the event of that transaction and position.
pub proof fn law_events_by_verdicts(checkpoint: CheckpointEvents)
    ensures
        forall|event: EventRecord| #[trigger]
            records(checkpoint.transactions@, checkpoint.timestamp_ms).contains(event)
                <==> is_taken(checkpoint, event),
        forall|t: int, k: int|
            0 <= t < checkpoint.transactions@.len() && checkpoint.transactions@[t].verdicts is Some
                && 0 <= k < checkpoint.transactions@[t].verdicts->0@.len()
                && #[trigger] checkpoint.transactions@[t].verdicts->0@[k] ==> records(
                checkpoint.transactions@,
                checkpoint.timestamp_ms,
            ).contains(
                EventRecord {
                    transaction: t as usize,
                    transaction_digest: checkpoint.transactions@[t].digest,
                    sequence_number: k as u64,
                    timestamp_ms: Some(checkpoint.timestamp_ms),
                },
            ),
{
    let txs = checkpoint.transactions@;
    let time = checkpoint.timestamp_ms;
    let all = records(txs, time);
    lemma_vec_len(checkpoint.transactions);
    law_records(txs, time);
    assert forall|event: EventRecord| #[trigger] all.contains(event) <==> is_taken(
        checkpoint,
        event,
    ) by {
        if all.contains(event) {
            let i = choose|i: int| 0 <= i < all.len() && all[i] == event;
            assert(all[i].transaction < txs.len());
        }
        if is_taken(checkpoint, event) {
            let t = event.transaction as int;
            assert(txs[t].taken()[event.sequence_number as int]);
        }
    }
    assert forall|t: int, k: int|
        0 <= t < txs.len() && txs[t].verdicts is Some && 0 <= k < txs[t].verdicts->0@.len()
            && #[trigger] txs[t].verdicts->0@[k] implies all.contains(
        EventRecord {
            transaction: t as usize,
            transaction_digest: txs[t].digest,
            sequence_number: k as u64,
            timestamp_ms: Some(time),
        },
    ) by {
        lemma_vec_len(txs[t].verdicts->0);
        assert(is_taken(
            checkpoint,
            EventRecord {
                transaction: t as usize,
                transaction_digest: txs[t].digest,
                sequence_number: k as u64,
                timestamp_ms: Some(time),
            },
        ));
    }
}

} // verus!
