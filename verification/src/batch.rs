//! The writer's pending batch: operations are taken in one by one, handed
//! out together when the batch is full, and handed out once more, however
//! few they are, when no more will come.

use vstd::prelude::*;

verus! {

/// The number of operations a store's writer gathers before it writes.
pub const BATCH_CAPACITY: usize = 1000;

/// The operations received since the last flush, with the size at which
/// they are flushed.
pub struct Batch<T> {
    items: Vec<T>,
    capacity: usize,
}

/// What taking in one more operation leads to: the operations still pending
/// afterwards, and the batch to flush where this one made it full.
pub open spec fn taken_in<T>(capacity: nat, pending: Seq<T>, op: T) -> (Seq<T>, Option<Seq<T>>) {
    let all = pending.push(op);
    if all.len() == capacity {
        (Seq::empty(), Some(all))
    } else {
        (all, None)
    }
}

/// Where a writer stands after it took in `ops` one by one, starting with
/// nothing pending: the batches flushed so far, and what is still pending.
pub open spec fn received<T>(capacity: nat, ops: Seq<T>) -> (Seq<Seq<T>>, Seq<T>)
    decreases ops.len(),
{
    if ops.len() == 0 {
        (Seq::empty(), Seq::empty())
    } else {
        let (flushed, pending) = received(capacity, ops.drop_last());
        let (left, full) = taken_in(capacity, pending, ops.last());
        match full {
            Some(batch) => (flushed.push(batch), left),
            None => (flushed, left),
        }
    }
}

/// Every batch a writer flushes for `ops`, the last one on closing included.
pub open spec fn flushes<T>(capacity: nat, ops: Seq<T>) -> Seq<Seq<T>> {
    let (flushed, pending) = received(capacity, ops);
    if pending.len() > 0 {
        flushed.push(pending)
    } else {
        flushed
    }
}

impl<T> View for Batch<T> {
    type V = Seq<T>;

    /// The pending operations, oldest first.
    closed spec fn view(&self) -> Seq<T> {
        self.items@
    }
}

impl<T> Batch<T> {
    /// The size at which the batch is flushed.
    pub closed spec fn limit(&self) -> nat {
        self.capacity as nat
    }

    /// An empty batch that is flushed when it holds `capacity` operations.
    pub fn new(capacity: usize) -> (batch: Self)
        ensures
            batch@ == Seq::<T>::empty(),
            batch.limit() == capacity,
    {
        Batch { items: Vec::with_capacity(capacity), capacity }
    }

    /// The number of pending operations.
    pub fn len(&self) -> (n: usize)
        ensures
            n == self@.len(),
    {
        self.items.len()
    }

    /// The size at which the batch is flushed.
    pub fn capacity(&self) -> (c: usize)
        ensures
            c == self.limit(),
    {
        self.capacity
    }

    /// Takes in one operation. Where that fills the batch, the whole batch
    /// is handed out, oldest operation first, and nothing stays pending.
    pub fn push(&mut self, op: T) -> (full: Option<Vec<T>>)
        ensures
            final(self).limit() == old(self).limit(),
            final(self)@ == taken_in(old(self).limit(), old(self)@, op).0,
            match full {
                Some(batch) => taken_in(old(self).limit(), old(self)@, op).1 == Some(batch@),
                None => taken_in(old(self).limit(), old(self)@, op).1 is None,
            },
    {
        self.items.push(op);
        if self.items.len() == self.capacity {
            let mut batch: Vec<T> = Vec::with_capacity(self.capacity);
            std::mem::swap(&mut self.items, &mut batch);
            Some(batch)
        } else {
            None
        }
    }

    /// Hands out what is pending when no more operations will come, or
    /// `None` where nothing is pending.
    pub fn finish(&mut self) -> (rest: Option<Vec<T>>)
        ensures
            final(self).limit() == old(self).limit(),
            final(self)@ == Seq::<T>::empty(),
            match rest {
                Some(batch) => batch@ == old(self)@ && old(self)@.len() > 0,
                None => old(self)@.len() == 0,
            },
    {
        if self.items.len() > 0 {
            let mut batch: Vec<T> = Vec::new();
            std::mem::swap(&mut self.items, &mut batch);
            Some(batch)
        } else {
            assert(self.items@ =~= Seq::empty());
            None
        }
    }
}

/// However the operations fall into batches, nothing is lost, added or
/// reordered: the flushed batches laid end to end, followed by what is
/// pending, are the operations received. Every flushed batch is full and
/// the pending one is not.
pub proof fn lemma_received_shape<T>(capacity: nat, ops: Seq<T>)
    requires
        capacity > 0,
    ensures
        received(capacity, ops).0.flatten() + received(capacity, ops).1 == ops,
        forall|i: int|
            0 <= i < received(capacity, ops).0.len() ==> (#[trigger] received(
                capacity,
                ops,
            ).0[i]).len() == capacity,
        received(capacity, ops).1.len() < capacity,
        received(capacity, ops).0.len() * capacity + received(capacity, ops).1.len() == ops.len(),
    decreases ops.len(),
{
    if ops.len() == 0 {
        assert(received(capacity, ops).0.flatten() + received(capacity, ops).1 =~= ops);
        assert(0 * capacity == 0) by (nonlinear_arith);
    } else {
        let before = ops.drop_last();
        lemma_received_shape(capacity, before);
        let (flushed, pending) = received(capacity, before);
        let all = pending.push(ops.last());
        assert(before.push(ops.last()) =~= ops);
        if all.len() == capacity {
            flushed.lemma_flatten_push(all);
            assert(flushed.push(all).flatten() + Seq::<T>::empty() =~= flushed.flatten() + pending
                + seq![ops.last()]);
            assert((flushed.len() + 1) * capacity == flushed.len() * capacity + capacity)
                by (nonlinear_arith);
        } else {
            assert(flushed.flatten() + all =~= (flushed.flatten() + pending).push(ops.last()));
        }
    }
}

/// Closing loses nothing: all the batches flushed for `ops`, the last one
/// included, laid end to end are `ops`.
pub proof fn lemma_flushes_keep_order<T>(capacity: nat, ops: Seq<T>)
    requires
        capacity > 0,
    ensures
        flushes(capacity, ops).flatten() == ops,
{
    lemma_received_shape(capacity, ops);
    let (flushed, pending) = received(capacity, ops);
    if pending.len() > 0 {
        flushed.lemma_flatten_push(pending);
    } else {
        assert(flushed.flatten() + pending =~= flushed.flatten());
    }
}

/// Fewer operations than fill a batch are flushed together on closing, and
/// not before.
pub proof fn lemma_short_run_flushes_on_close<T>(capacity: nat, ops: Seq<T>)
    requires
        0 < ops.len() < capacity,
    ensures
        received(capacity, ops).0 == Seq::<Seq<T>>::empty(),
        flushes(capacity, ops) == seq![ops],
{
    lemma_received_shape(capacity, ops);
    let (flushed, pending) = received(capacity, ops);
    assert(flushed.len() == 0) by (nonlinear_arith)
        requires
            flushed.len() * capacity + pending.len() == ops.len(),
            ops.len() < capacity,
    {
    }
    assert(flushed =~= Seq::empty());
    assert(flushed.flatten() + pending =~= pending);
    assert(flushes(capacity, ops) =~= seq![ops]);
}

/// Twice as many operations as fill a batch are flushed as two full
/// batches, and closing finds nothing left to flush.
pub proof fn lemma_two_full_batches<T>(capacity: nat, ops: Seq<T>)
    requires
        capacity > 0,
        ops.len() == 2 * capacity,
    ensures
        received(capacity, ops).1 == Seq::<T>::empty(),
        flushes(capacity, ops) == seq![ops.take(capacity as int), ops.skip(capacity as int)],
{
    lemma_received_shape(capacity, ops);
    let (flushed, pending) = received(capacity, ops);
    assert(flushed.len() == 2 && pending.len() == 0) by (nonlinear_arith)
        requires
            flushed.len() * capacity + pending.len() == 2 * capacity,
            pending.len() < capacity,
            capacity > 0,
    {
    }
    assert(pending =~= Seq::empty());
    assert(flushed[0].len() == capacity);
    assert(flushed[1].len() == capacity);
    assert(flushed.flatten() =~= flushed[0] + flushed[1]) by {
        reveal_with_fuel(Seq::flatten, 3);
        assert(flushed.drop_first().drop_first() =~= Seq::<Seq<T>>::empty());
    }
    assert(flushed.flatten() + pending =~= flushed[0] + flushed[1]);
    assert(flushed[0] =~= ops.take(capacity as int));
    assert(flushed[1] =~= ops.skip(capacity as int));
    assert(flushes(capacity, ops) =~= seq![ops.take(capacity as int), ops.skip(capacity as int)]);
}

} // verus!
