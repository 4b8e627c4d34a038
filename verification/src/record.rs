//! The framing of a log: every record is a four-byte length followed by that
//! many bytes of payload, and a log is records laid end to end with nothing
//! between or around them.

use vstd::prelude::*;
use vstd::slice::slice_subrange;
use vstd::slice::slice_to_vec;

use crate::op::StoreErr;

verus! {

/// The order in which the four bytes of a length are laid down.
#[derive(Debug, Clone, Copy, PartialEq, Eq, Structural)]
pub enum ByteOrder {
    /// Least significant byte first.
    Little,
    /// Most significant byte first.
    Big,
}

/// The number of bytes a length takes in front of each payload.
pub const PREFIX_LEN: usize = 4;

/// The longest payload whose length a prefix can state.
pub const MAX_PAYLOAD: usize = 0xffff_ffff;

/// The four bytes that state `n` in the given order.
#[verifier::opaque]
pub open spec fn prefix(order: ByteOrder, n: u32) -> Seq<u8> {
    let b0 = (n % 256) as u8;
    let b1 = ((n / 256) % 256) as u8;
    let b2 = ((n / 65536) % 256) as u8;
    let b3 = (n / 16777216) as u8;
    match order {
        ByteOrder::Little => seq![b0, b1, b2, b3],
        ByteOrder::Big => seq![b3, b2, b1, b0],
    }
}

/// The number that the first four bytes of `bytes` state in the given order.
#[verifier::opaque]
pub open spec fn prefix_value(order: ByteOrder, bytes: Seq<u8>) -> nat
    recommends
        bytes.len() >= 4,
{
    match order {
        ByteOrder::Little => (bytes[0] + 256 * bytes[1] + 65536 * bytes[2] + 16777216
            * bytes[3]) as nat,
        ByteOrder::Big => (bytes[3] + 256 * bytes[2] + 65536 * bytes[1] + 16777216
            * bytes[0]) as nat,
    }
}

/// One record: the payload's length, then the payload.
pub open spec fn frame(order: ByteOrder, payload: Seq<u8>) -> Seq<u8>
    recommends
        payload.len() <= MAX_PAYLOAD,
{
    prefix(order, payload.len() as u32) + payload
}

/// The log that holds exactly these payloads, in this order.
pub open spec fn log_of(order: ByteOrder, payloads: Seq<Seq<u8>>) -> Seq<u8>
    decreases payloads.len(),
{
    if payloads.len() == 0 {
        Seq::empty()
    } else {
        log_of(order, payloads.drop_last()) + frame(order, payloads.last())
    }
}

/// Whether every payload is short enough for its length to fit a prefix.
pub open spec fn all_fit(payloads: Seq<Seq<u8>>) -> bool {
    forall|i: int| 0 <= i < payloads.len() ==> (#[trigger] payloads[i]).len() <= MAX_PAYLOAD
}

/// Whether `log` begins with a complete record.
pub open spec fn starts_with_record(order: ByteOrder, log: Seq<u8>) -> bool {
    log.len() >= 4 && prefix_value(order, log) <= log.len() - 4
}

/// The payloads of the complete records at the front of `log`: reading stops
/// at the end of the log or where what is left is no complete record.
pub open spec fn parsed(order: ByteOrder, log: Seq<u8>) -> Seq<Seq<u8>>
    decreases log.len(),
{
    if starts_with_record(order, log) {
        let n = prefix_value(order, log) as int;
        seq![log.subrange(4, 4 + n)] + parsed(order, log.skip(4 + n))
    } else {
        Seq::empty()
    }
}

/// The number of bytes that the complete records at the front of `log` take.
pub open spec fn parsed_len(order: ByteOrder, log: Seq<u8>) -> nat
    decreases log.len(),
{
    if starts_with_record(order, log) {
        let n = prefix_value(order, log) as int;
        (4 + n + parsed_len(order, log.skip(4 + n))) as nat
    } else {
        0
    }
}

/// What an encoder handed back for each operation of a batch, with the
/// payloads that can be written picked out in order: an operation that could
/// not be encoded, or whose payload is too long to frame, leaves no record.
pub open spec fn writable(items: Seq<Option<Seq<u8>>>) -> Seq<Seq<u8>>
    decreases items.len(),
{
    if items.len() == 0 {
        Seq::empty()
    } else {
        let rest = writable(items.drop_last());
        match items.last() {
            Some(p) => if p.len() <= MAX_PAYLOAD {
                rest.push(p)
            } else {
                rest
            },
            None => rest,
        }
    }
}

/// A prefix states the number it was made from.
pub proof fn lemma_prefix_value(order: ByteOrder, n: u32)
    ensures
        prefix(order, n).len() == 4,
        prefix_value(order, prefix(order, n)) == n,
{
    reveal(prefix);
    reveal(prefix_value);
}

/// Only the first four bytes decide what a prefix states.
pub proof fn lemma_prefix_value_of_front(order: ByteOrder, front: Seq<u8>, rest: Seq<u8>)
    requires
        front.len() >= 4,
    ensures
        prefix_value(order, front + rest) == prefix_value(order, front),
{
    reveal(prefix_value);
}

/// Appends the four bytes of `n` to `out`.
fn push_prefix(out: &mut Vec<u8>, order: ByteOrder, n: u32)
    ensures
        final(out)@ == old(out)@ + prefix(order, n),
{
    proof {
        reveal(prefix);
    }
    let b0: u8 = (n % 256) as u8;
    let b1: u8 = ((n / 256) % 256) as u8;
    let b2: u8 = ((n / 65536) % 256) as u8;
    let b3: u8 = (n / 16777216) as u8;
    match order {
        ByteOrder::Little => {
            out.push(b0);
            out.push(b1);
            out.push(b2);
            out.push(b3);
        },
        ByteOrder::Big => {
            out.push(b3);
            out.push(b2);
            out.push(b1);
            out.push(b0);
        },
    }
    assert(out@ =~= old(out)@ + prefix(order, n));
}

/// Reads the length that the four bytes at `pos` state.
fn read_prefix(order: ByteOrder, log: &[u8], pos: usize) -> (n: u32)
    requires
        pos + 4 <= log@.len(),
    ensures
        n == prefix_value(order, log@.skip(pos as int)),
{
    proof {
        reveal(prefix_value);
    }
    let b0: u32 = log[pos] as u32;
    let b1: u32 = log[pos + 1] as u32;
    let b2: u32 = log[pos + 2] as u32;
    let b3: u32 = log[pos + 3] as u32;
    match order {
        ByteOrder::Little => b0 + 256 * b1 + 65536 * b2 + 16777216 * b3,
        ByteOrder::Big => b3 + 256 * b2 + 65536 * b1 + 16777216 * b0,
    }
}

/// Frames one payload as a record.
///
/// A payload longer than a prefix can state is refused with
/// [`StoreErr::Encode`]; every other payload is framed.
pub fn encode_record(order: ByteOrder, payload: &[u8]) -> (r: Result<Vec<u8>, StoreErr>)
    ensures
        payload@.len() <= MAX_PAYLOAD ==> r is Ok && r->Ok_0@ == frame(order, payload@),
        payload@.len() > MAX_PAYLOAD ==> r == Err::<Vec<u8>, StoreErr>(StoreErr::Encode),
{
    if payload.len() > MAX_PAYLOAD {
        return Err(StoreErr::Encode);
    }
    let mut out: Vec<u8> = Vec::new();
    push_prefix(&mut out, order, payload.len() as u32);
    out.extend_from_slice(payload);
    assert(out@ =~= frame(order, payload@));
    Ok(out)
}

/// The bytes to append to the log for one batch.
///
/// `items` holds, for each operation of the batch in the order it arrived,
/// the payload its encoder produced, or `None` where encoding failed. The
/// result is the records of the payloads that can be written, in that order;
/// the others are left out and the rest of the batch is still written.
pub fn encode_batch(order: ByteOrder, items: &Vec<Option<Vec<u8>>>) -> (bytes: Vec<u8>)
    ensures
        bytes@ == log_of(order, writable(items.deep_view())),
{
    let mut bytes: Vec<u8> = Vec::new();
    let mut i: usize = 0;
    assert(items.deep_view().take(0) =~= Seq::empty());
    while i < items.len()
        invariant
            i <= items@.len(),
            bytes@ == log_of(order, writable(items.deep_view().take(i as int))),
        decreases items@.len() - i,
    {
        let ghost seen = items.deep_view().take(i as int);
        let ghost next = items.deep_view().take(i + 1);
        assert(next.drop_last() =~= seen);
        assert(next.last() == items.deep_view()[i as int]);
        match &items[i] {
            Some(payload) => {
                if payload.len() <= MAX_PAYLOAD {
                    push_prefix(&mut bytes, order, payload.len() as u32);
                    bytes.extend_from_slice(payload.as_slice());
                    assert(writable(next).drop_last() =~= writable(seen));
                    assert(bytes@ =~= log_of(order, writable(seen)) + frame(order, payload@));
                }
            },
            None => {},
        }
        i += 1;
    }
    assert(items.deep_view().take(i as int) =~= items.deep_view());
    bytes
}

/// What reading a log found.
pub struct Scan {
    /// The payloads of the complete records, in the order they stand in the log.
    pub payloads: Vec<Vec<u8>>,
    /// The number of bytes those records take, counted from the log's start.
    pub consumed: usize,
    /// Whether bytes are left behind the last complete record.
    pub truncated: bool,
}

/// Reads a log from its first byte and cuts it into payloads.
///
/// Reading ends where the log ends. A log that ends inside a record, in the
/// length or in the payload, is read up to the last complete record, and
/// `truncated` tells that bytes were left over.
pub fn scan_log(order: ByteOrder, log: &[u8]) -> (scan: Scan)
    ensures
        scan.payloads.deep_view() == parsed(order, log@),
        scan.consumed == parsed_len(order, log@),
        scan.consumed <= log@.len(),
        scan.truncated == (scan.consumed < log@.len()),
{
    let mut payloads: Vec<Vec<u8>> = Vec::new();
    let mut pos: usize = 0;
    let mut reading = true;
    assert(log@.skip(0) =~= log@);
    assert(payloads.deep_view() =~= Seq::empty());
    while reading
        invariant
            pos <= log@.len(),
            parsed(order, log@) == payloads.deep_view() + parsed(order, log@.skip(pos as int)),
            parsed_len(order, log@) == pos + parsed_len(order, log@.skip(pos as int)),
            !reading ==> !starts_with_record(order, log@.skip(pos as int)),
        decreases log@.len() - pos + (if reading { 1int } else { 0int }),
    {
        let ghost rest = log@.skip(pos as int);
        let ghost found = payloads.deep_view();
        if log.len() - pos < PREFIX_LEN {
            reading = false;
        } else {
            let n: u32 = read_prefix(order, log, pos);
            let len: usize = n as usize;
            if len > log.len() - pos - PREFIX_LEN {
                reading = false;
            } else {
                let start: usize = pos + PREFIX_LEN;
                let payload: Vec<u8> = slice_to_vec(slice_subrange(log, start, start + len));
                assert(payload@ =~= rest.subrange(4, 4 + len));
                assert(rest.skip(4 + len) =~= log@.skip(start + len));
                assert(payload.deep_view() =~= payload@);
                payloads.push(payload);
                assert(payloads.deep_view() =~= found.push(rest.subrange(4, 4 + len)));
                assert(found.push(rest.subrange(4, 4 + len)) + parsed(order, rest.skip(4 + len))
                    =~= found + parsed(order, rest));
                pos = start + len;
            }
        }
    }
    Scan { payloads, consumed: pos, truncated: pos < log.len() }
}

/// A log that begins with a whole record is read as that record's payload,
/// followed by what the rest of the log is read as.
pub proof fn lemma_parsed_frame(order: ByteOrder, payload: Seq<u8>, tail: Seq<u8>)
    requires
        payload.len() <= MAX_PAYLOAD,
    ensures
        starts_with_record(order, frame(order, payload) + tail),
        parsed(order, frame(order, payload) + tail) == seq![payload] + parsed(order, tail),
        parsed_len(order, frame(order, payload) + tail) == 4 + payload.len() + parsed_len(
            order,
            tail,
        ),
{
    let n = payload.len() as u32;
    let log = frame(order, payload) + tail;
    lemma_prefix_value(order, n);
    lemma_prefix_value_of_front(order, prefix(order, n), payload + tail);
    assert(log =~= prefix(order, n) + (payload + tail));
    assert(prefix_value(order, log) == n);
    assert(log.subrange(4, 4 + n) =~= payload);
    assert(log.skip(4 + n) =~= tail);
}

/// Writing one run of payloads after another gives the log of both runs.
pub proof fn lemma_log_of_concat(order: ByteOrder, first: Seq<Seq<u8>>, second: Seq<Seq<u8>>)
    ensures
        log_of(order, first + second) == log_of(order, first) + log_of(order, second),
    decreases second.len(),
{
    if second.len() == 0 {
        assert(first + second =~= first);
        assert(log_of(order, first) + log_of(order, second) =~= log_of(order, first));
    } else {
        lemma_log_of_concat(order, first, second.drop_last());
        assert((first + second).drop_last() =~= first + second.drop_last());
        assert((first + second).last() == second.last());
        assert(log_of(order, first + second) =~= log_of(order, first) + log_of(order, second));
    }
}

/// Reading a written log gives back the payloads it was written from, in
/// order, and then goes on with whatever bytes follow them.
pub proof fn lemma_parsed_written(order: ByteOrder, payloads: Seq<Seq<u8>>, tail: Seq<u8>)
    requires
        all_fit(payloads),
    ensures
        parsed(order, log_of(order, payloads) + tail) == payloads + parsed(order, tail),
        parsed_len(order, log_of(order, payloads) + tail) == log_of(order, payloads).len()
            + parsed_len(order, tail),
    decreases payloads.len(),
{
    if payloads.len() == 0 {
        assert(log_of(order, payloads) + tail =~= tail);
        assert(payloads + parsed(order, tail) =~= parsed(order, tail));
    } else {
        let before = payloads.drop_last();
        let last = payloads.last();
        let rest = frame(order, last) + tail;
        assert(all_fit(before));
        lemma_parsed_written(order, before, rest);
        lemma_parsed_frame(order, last, tail);
        lemma_prefix_value(order, last.len() as u32);
        assert(log_of(order, payloads) + tail =~= log_of(order, before) + rest);
        assert(before + (seq![last] + parsed(order, tail)) =~= payloads + parsed(order, tail));
    }
}

/// Reading gives back what was written: a log that holds the records of
/// some payloads and nothing else is read as exactly those payloads, with no
/// byte left over.
pub proof fn lemma_scan_round_trip(order: ByteOrder, payloads: Seq<Seq<u8>>)
    requires
        all_fit(payloads),
    ensures
        parsed(order, log_of(order, payloads)) == payloads,
        parsed_len(order, log_of(order, payloads)) == log_of(order, payloads).len(),
{
    lemma_parsed_written(order, payloads, Seq::empty());
    assert(log_of(order, payloads) + Seq::<u8>::empty() =~= log_of(order, payloads));
    assert(payloads + Seq::<Seq<u8>>::empty() =~= payloads);
}

/// A cut-off last record costs only itself: where the bytes behind the
/// complete records are the beginning of a record and not the whole of it,
/// the log is read as exactly the complete records, up to where they end.
pub proof fn lemma_scan_tolerates_truncation(
    order: ByteOrder,
    payloads: Seq<Seq<u8>>,
    tail: Seq<u8>,
)
    requires
        all_fit(payloads),
        !starts_with_record(order, tail),
    ensures
        parsed(order, log_of(order, payloads) + tail) == payloads,
        parsed_len(order, log_of(order, payloads) + tail) == log_of(order, payloads).len(),
{
    lemma_parsed_written(order, payloads, tail);
    assert(payloads + Seq::<Seq<u8>>::empty() =~= payloads);
}

/// Every payload that a batch writes is short enough to be read back.
pub proof fn lemma_writable_fits(items: Seq<Option<Seq<u8>>>)
    ensures
        all_fit(writable(items)),
    decreases items.len(),
{
    if items.len() > 0 {
        lemma_writable_fits(items.drop_last());
    }
}

} // verus!
