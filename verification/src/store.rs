//! The store: a map held in memory, each change of which is also queued for
//! the writer that appends it to the log.

use std::collections::HashMap;
use std::hash::Hash;
use std::sync::mpsc::Sender;
use vstd::prelude::*;
use vstd::std_specs::hash::obeys_key_model;

use crate::channel::{took_at_most, Outbox};
use crate::op::{Op, StoreErr};
use crate::replay::{readable, replay, replayed};

verus! {

/// A map from keys to values whose changes are sent on to a log writer.
#[verifier::reject_recursive_types(T)]
#[verifier::reject_recursive_types(U)]
pub struct StorageMap<T, U> {
    /// The map as it stands; every read goes here and nowhere else.
    pub data: HashMap<T, U>,
    sx: Outbox<Op<T, U>>,
}

/// Whether `after` is `before` with exactly one more operation behind it,
/// an `Add` of a clone of `key` and a clone of `val`.
pub open spec fn grown_by_add<T: Clone, U: Clone>(
    before: Seq<Op<T, U>>,
    after: Seq<Op<T, U>>,
    key: T,
    val: U,
) -> bool {
    &&& after.len() == before.len() + 1
    &&& after.drop_last() == before
    &&& (after.last() matches Op::Add(k, v) && cloned(key, k) && cloned(val, v))
}

/// Whether `ops` holds, for each of the pairs in order, one `Add` of a clone
/// of its key and a clone of its value, and nothing else.
pub open spec fn adds_of<T: Clone, U: Clone>(pairs: Seq<(T, U)>, ops: Seq<Op<T, U>>) -> bool {
    &&& ops.len() == pairs.len()
    &&& forall|i: int|
        0 <= i < pairs.len() ==> (#[trigger] ops[i] matches Op::Add(k, v) && cloned(pairs[i].0, k)
            && cloned(pairs[i].1, v))
}

/// Calls of `set` submit one `Add` each, in the order of the calls: where
/// what was submitted so far answers to the pairs set so far, it still does
/// after one more call.
pub proof fn lemma_sets_submit_in_order<T: Clone, U: Clone>(
    pairs: Seq<(T, U)>,
    before: Seq<Op<T, U>>,
    after: Seq<Op<T, U>>,
    key: T,
    val: U,
)
    requires
        adds_of(pairs, before),
        grown_by_add(before, after, key, val),
    ensures
        adds_of(pairs.push((key, val)), after),
{
    let more = pairs.push((key, val));
    assert forall|i: int| 0 <= i < more.len() implies (#[trigger] after[i] matches Op::Add(k, v)
        && cloned(more[i].0, k) && cloned(more[i].1, v)) by {
        if i < pairs.len() {
            assert(after[i] == after.drop_last()[i]);
            assert(more[i] == pairs[i]);
        } else {
            assert(after[i] == after.last());
        }
    }
}

impl<T, U> View for StorageMap<T, U> {
    type V = Map<T, U>;

    /// What the store holds: each key with the value it is set to.
    closed spec fn view(&self) -> Map<T, U> {
        self.data@
    }
}

impl<T: Hash + Eq + Clone, U: Clone> StorageMap<T, U> {
    /// The operations that this store handed to the writer's channel,
    /// oldest first, whether or not the channel took them.
    pub closed spec fn submitted(&self) -> Seq<Op<T, U>> {
        self.sx.submitted()
    }

    /// The operations that the writer's channel took from this store,
    /// oldest first.
    pub closed spec fn queued(&self) -> Seq<Op<T, U>> {
        self.sx.queued()
    }

    /// A store holds finitely many keys.
    pub proof fn lemma_finite(&self)
        ensures
            self@.dom().finite(),
    {
    }

    /// A store that holds what the records of an earlier log rebuild, and
    /// that sends its changes to `sx`.
    ///
    /// The records are replayed in order up to the first one that could not
    /// be decoded; with no records the store starts empty.
    pub fn new(records: Vec<Option<Op<T, U>>>, sx: Sender<Op<T, U>>) -> (store: Self)
        ensures
            obeys_key_model::<T>() ==> store@ == replayed(records@),
            store@.dom().finite(),
            store.submitted() == Seq::<Op<T, U>>::empty(),
            store.queued() == Seq::<Op<T, U>>::empty(),
    {
        let (store, _) = Self::recover(records, sx);
        store
    }

    /// As [`StorageMap::new`], and tells how many records were replayed.
    pub fn recover(records: Vec<Option<Op<T, U>>>, sx: Sender<Op<T, U>>) -> (r: (Self, usize))
        ensures
            obeys_key_model::<T>() ==> r.0@ == replayed(records@),
            r.0@.dom().finite(),
            r.0.submitted() == Seq::<Op<T, U>>::empty(),
            r.0.queued() == Seq::<Op<T, U>>::empty(),
            r.1 == readable(records@).len(),
    {
        let (data, count) = replay(records);
        (StorageMap { data, sx: Outbox::new(sx) }, count)
    }

    /// Sets `key` to `val`, replacing any earlier value, and hands exactly
    /// one operation to the writer's channel: the matching `Add`.
    ///
    /// The map is changed before the call returns, whether or not the
    /// channel takes the operation. Where the channel takes it, it stands
    /// behind every operation taken before; where the writer is gone,
    /// nothing is queued and the call succeeds all the same.
    pub fn set(&mut self, key: T, val: U) -> (r: Result<(), StoreErr>)
        ensures
            r is Ok,
            obeys_key_model::<T>() ==> final(self)@ == old(self)@.insert(key, val),
            final(self)@.dom().finite(),
            grown_by_add(old(self).submitted(), final(self).submitted(), key, val),
            took_at_most(
                old(self).queued(),
                final(self).queued(),
                final(self).submitted().last(),
            ),
    {
        let op = Op::Add(key.clone(), val.clone());
        self.data.insert(key, val);
        let ghost before = self.sx.submitted();
        let _ = self.sx.submit(op);
        assert(self.sx.submitted().drop_last() =~= before);
        Ok(())
    }

    /// The value that `key` is set to, if any.
    pub fn get(&self, key: &T) -> (found: Option<&U>)
        ensures
            obeys_key_model::<T>() ==> found == (if self@.contains_key(*key) {
                Some(&self@[*key])
            } else {
                None
            }),
    {
        self.data.get(key)
    }
}

} // verus!
