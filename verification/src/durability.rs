//! What a store keeps across closing and reopening: the path of a run of
//! operations through the writer's batches, the log and replay, stated for
//! any encoder and decoder that agree on those operations.

use vstd::prelude::*;

use crate::batch::{
    flushes, lemma_short_run_flushes_on_close, lemma_two_full_batches, received,
};
use crate::op::Op;
use crate::record::{
    all_fit, frame, lemma_log_of_concat, lemma_scan_tolerates_truncation, log_of, parsed,
    starts_with_record, writable, ByteOrder, MAX_PAYLOAD,
};
use crate::replay::{all_read, folded, lemma_readable_all, replayed};

verus! {

/// The payload that the encoder gives for each operation.
pub open spec fn encoded<T, U>(ops: Seq<Op<T, U>>, enc: spec_fn(Op<T, U>) -> Seq<u8>) -> Seq<
    Seq<u8>,
> {
    Seq::new(ops.len(), |i: int| enc(ops[i]))
}

/// What the writer hands to the framing of a batch when the encoder
/// succeeds on every operation.
pub open spec fn encoded_items<T, U>(
    ops: Seq<Op<T, U>>,
    enc: spec_fn(Op<T, U>) -> Seq<u8>,
) -> Seq<Option<Seq<u8>>> {
    Seq::new(ops.len(), |i: int| Some(enc(ops[i])))
}

/// The log after the batches were appended to an empty file one by one.
pub open spec fn written<T, U>(
    order: ByteOrder,
    batches: Seq<Seq<Op<T, U>>>,
    enc: spec_fn(Op<T, U>) -> Seq<u8>,
) -> Seq<u8>
    decreases batches.len(),
{
    if batches.len() == 0 {
        Seq::empty()
    } else {
        written(order, batches.drop_last(), enc) + log_of(
            order,
            writable(encoded_items(batches.last(), enc)),
        )
    }
}

/// What the decoder makes of each payload.
pub open spec fn decoded<T, U>(
    payloads: Seq<Seq<u8>>,
    dec: spec_fn(Seq<u8>) -> Option<Op<T, U>>,
) -> Seq<Option<Op<T, U>>> {
    Seq::new(payloads.len(), |i: int| dec(payloads[i]))
}

/// Whether each of the operations is encoded to a payload that a record can
/// hold and that the decoder turns back into the operation.
pub open spec fn faithful<T, U>(
    ops: Seq<Op<T, U>>,
    enc: spec_fn(Op<T, U>) -> Seq<u8>,
    dec: spec_fn(Seq<u8>) -> Option<Op<T, U>>,
) -> bool {
    forall|i: int|
        0 <= i < ops.len() ==> enc(#[trigger] ops[i]).len() <= MAX_PAYLOAD && dec(enc(ops[i]))
            == Some(ops[i])
}

/// Whether each of the operations is encoded to a payload that a record can
/// hold.
pub open spec fn framable<T, U>(ops: Seq<Op<T, U>>, enc: spec_fn(Op<T, U>) -> Seq<u8>) -> bool {
    forall|i: int| 0 <= i < ops.len() ==> enc(#[trigger] ops[i]).len() <= MAX_PAYLOAD
}

/// A batch whose operations can all be framed is written whole.
pub proof fn lemma_batch_written_whole<T, U>(ops: Seq<Op<T, U>>, enc: spec_fn(Op<T, U>) -> Seq<u8>)
    requires
        framable(ops, enc),
    ensures
        writable(encoded_items(ops, enc)) == encoded(ops, enc),
    decreases ops.len(),
{
    if ops.len() == 0 {
        assert(writable(encoded_items(ops, enc)) =~= encoded(ops, enc));
    } else {
        let before = ops.drop_last();
        assert forall|i: int| 0 <= i < before.len() implies enc(#[trigger] before[i]).len()
            <= MAX_PAYLOAD by {
            assert(before[i] == ops[i]);
        }
        lemma_batch_written_whole(before, enc);
        assert(encoded_items(ops, enc).drop_last() =~= encoded_items(before, enc));
        assert(encoded(ops, enc) =~= encoded(before, enc).push(enc(ops.last())));
    }
}

/// The log of a run of operations is the log of all but the last, followed
/// by the record of the last.
proof fn lemma_log_of_encoded_push<T, U>(
    order: ByteOrder,
    ops: Seq<Op<T, U>>,
    op: Op<T, U>,
    enc: spec_fn(Op<T, U>) -> Seq<u8>,
)
    ensures
        log_of(order, encoded(ops.push(op), enc)) == log_of(order, encoded(ops, enc))
            + frame(order, enc(op)),
{
    assert(encoded(ops.push(op), enc).drop_last() =~= encoded(ops, enc));
    assert(encoded(ops.push(op), enc).last() == enc(op));
}

/// While the writer runs, the batches written so far followed by the
/// records of what is pending are the records of everything received.
proof fn lemma_written_received<T, U>(
    order: ByteOrder,
    capacity: nat,
    ops: Seq<Op<T, U>>,
    enc: spec_fn(Op<T, U>) -> Seq<u8>,
)
    requires
        capacity > 0,
        framable(ops, enc),
    ensures
        written(order, received(capacity, ops).0, enc) + log_of(
            order,
            encoded(received(capacity, ops).1, enc),
        ) == log_of(order, encoded(ops, enc)),
        framable(received(capacity, ops).1, enc),
    decreases ops.len(),
{
    if ops.len() == 0 {
        assert(encoded(ops, enc) =~= Seq::empty());
        assert(written(order, received(capacity, ops).0, enc) + log_of(
            order,
            encoded(received(capacity, ops).1, enc),
        ) =~= log_of(order, encoded(ops, enc)));
    } else {
        let before = ops.drop_last();
        let last = ops.last();
        assert forall|i: int| 0 <= i < before.len() implies enc(#[trigger] before[i]).len()
            <= MAX_PAYLOAD by {
            assert(before[i] == ops[i]);
        }
        lemma_written_received(order, capacity, before, enc);
        let (flushed, pending) = received(capacity, before);
        let all = pending.push(last);
        assert(before.push(last) =~= ops);
        assert forall|i: int| 0 <= i < all.len() implies enc(#[trigger] all[i]).len()
            <= MAX_PAYLOAD by {
            if i < pending.len() {
                assert(all[i] == pending[i]);
            } else {
                assert(all[i] == ops[ops.len() - 1]);
            }
        }
        lemma_log_of_encoded_push(order, pending, last, enc);
        lemma_log_of_encoded_push(order, before, last, enc);
        let head = written(order, flushed, enc);
        let rec = frame(order, enc(last));
        assert(head + (log_of(order, encoded(pending, enc)) + rec) =~= (head + log_of(
            order,
            encoded(pending, enc),
        )) + rec);
        if all.len() == capacity {
            lemma_batch_written_whole(all, enc);
            assert(flushed.push(all).drop_last() =~= flushed);
            assert(encoded(Seq::<Op<T, U>>::empty(), enc) =~= Seq::empty());
            assert(written(order, flushed.push(all), enc) + Seq::<u8>::empty() =~= head + log_of(
                order,
                encoded(all, enc),
            ));
        }
    }
}

/// Once the writer has closed, the log holds the records of every operation
/// it received, in the order it received them.
pub proof fn lemma_written_flushes<T, U>(
    order: ByteOrder,
    capacity: nat,
    ops: Seq<Op<T, U>>,
    enc: spec_fn(Op<T, U>) -> Seq<u8>,
)
    requires
        capacity > 0,
        framable(ops, enc),
    ensures
        written(order, flushes(capacity, ops), enc) == log_of(order, encoded(ops, enc)),
{
    lemma_written_received(order, capacity, ops, enc);
    let (flushed, pending) = received(capacity, ops);
    if pending.len() > 0 {
        lemma_batch_written_whole(pending, enc);
        assert(flushed.push(pending).drop_last() =~= flushed);
    } else {
        assert(encoded(pending, enc) =~= Seq::empty());
        assert(written(order, flushed, enc) + Seq::<u8>::empty() =~= written(order, flushed, enc));
    }
}

/// Reopening restores the store: send any run of operations through a
/// writer of any batch size, close it, read the log back and replay it, and
/// the map is the one that the operations lead to from an empty map. Bytes
/// of a further record that was cut off before it was complete, left at the
/// end of the log, change nothing.
pub proof fn lemma_reopen_restores<T, U>(
    order: ByteOrder,
    capacity: nat,
    ops: Seq<Op<T, U>>,
    enc: spec_fn(Op<T, U>) -> Seq<u8>,
    dec: spec_fn(Seq<u8>) -> Option<Op<T, U>>,
    tail: Seq<u8>,
)
    requires
        capacity > 0,
        faithful(ops, enc, dec),
        !starts_with_record(order, tail),
    ensures
        replayed(decoded(parsed(order, written(order, flushes(capacity, ops), enc) + tail), dec))
            == folded(Map::empty(), ops),
{
    assert(framable(ops, enc));
    lemma_written_flushes(order, capacity, ops, enc);
    let payloads = encoded(ops, enc);
    lemma_scan_tolerates_truncation(order, payloads, tail);
    assert(decoded(payloads, dec) =~= all_read(ops));
    lemma_readable_all(ops);
}

/// Fewer operations than fill a batch are all persisted by the one flush on
/// closing, in the order they were received: nothing is written before the
/// writer closes, and then the log gains the record of each of them.
pub proof fn lemma_short_run_persisted<T, U>(
    order: ByteOrder,
    capacity: nat,
    ops: Seq<Op<T, U>>,
    enc: spec_fn(Op<T, U>) -> Seq<u8>,
)
    requires
        0 < ops.len() < capacity,
        framable(ops, enc),
    ensures
        received(capacity, ops).0 == Seq::<Seq<Op<T, U>>>::empty(),
        flushes(capacity, ops) == seq![ops],
        written(order, flushes(capacity, ops), enc) == log_of(order, encoded(ops, enc)),
{
    lemma_short_run_flushes_on_close(capacity, ops);
    lemma_written_flushes(order, capacity, ops, enc);
}

/// Twice as many operations as fill a batch are persisted by exactly two
/// flushes of a full batch each, and closing finds nothing left to write;
/// the log gains the record of each operation, in the order received.
pub proof fn lemma_two_full_batches_persisted<T, U>(
    order: ByteOrder,
    capacity: nat,
    ops: Seq<Op<T, U>>,
    enc: spec_fn(Op<T, U>) -> Seq<u8>,
)
    requires
        capacity > 0,
        ops.len() == 2 * capacity,
        framable(ops, enc),
    ensures
        received(capacity, ops).1 == Seq::<Op<T, U>>::empty(),
        flushes(capacity, ops) == seq![ops.take(capacity as int), ops.skip(capacity as int)],
        written(order, flushes(capacity, ops), enc) == log_of(order, encoded(ops, enc)),
{
    lemma_two_full_batches(capacity, ops);
    lemma_written_flushes(order, capacity, ops, enc);
}

/// Reopening a store that was itself opened on an earlier log: where the
/// log held the records of some payloads, and a writer of any batch size
/// then appended a run of operations and closed, reading the log gives the
/// earlier payloads followed by the payload of each operation, in order.
/// Bytes of a record cut off at the end change nothing.
pub proof fn lemma_reopen_after_append<T, U>(
    order: ByteOrder,
    capacity: nat,
    earlier: Seq<Seq<u8>>,
    ops: Seq<Op<T, U>>,
    enc: spec_fn(Op<T, U>) -> Seq<u8>,
    tail: Seq<u8>,
)
    requires
        capacity > 0,
        all_fit(earlier),
        framable(ops, enc),
        !starts_with_record(order, tail),
    ensures
        parsed(
            order,
            log_of(order, earlier) + written(order, flushes(capacity, ops), enc) + tail,
        ) == earlier + encoded(ops, enc),
{
    lemma_written_flushes(order, capacity, ops, enc);
    let appended = encoded(ops, enc);
    lemma_log_of_concat(order, earlier, appended);
    assert(all_fit(earlier + appended)) by {
        assert forall|i: int| 0 <= i < (earlier + appended).len() implies (#[trigger] (earlier
            + appended)[i]).len() <= MAX_PAYLOAD by {
            if i < earlier.len() {
                assert((earlier + appended)[i] == earlier[i]);
            } else {
                assert((earlier + appended)[i] == appended[i - earlier.len()]);
                assert(appended[i - earlier.len()] == enc(ops[i - earlier.len()]));
            }
        }
    }
    lemma_scan_tolerates_truncation(order, earlier + appended, tail);
}

} // verus!
