//! A named store in which a key stands for a set of values.

use std::collections::HashMap;
use std::collections::HashSet;
use std::hash::Hash;
use std::sync::mpsc::Sender;
use vstd::prelude::*;
use vstd::std_specs::hash::obeys_key_model;
use vstd::string::StringExecFns;

use crate::channel::{took_at_most, Outbox};
use crate::op::Op;

verus! {

/// A named map from keys to sets of values, whose changes are sent on to a
/// log writer.
#[verifier::reject_recursive_types(T)]
#[verifier::reject_recursive_types(U)]
pub struct DataSet<T, U> {
    name: String,
    data: HashMap<T, HashSet<U>>,
    sender: Outbox<Op<T, U>>,
}

/// Whether `after` is `before` with exactly one more operation behind it,
/// and that operation holds a clone of `key` together with `value` itself.
pub open spec fn grown_by<T: Clone, U>(
    before: Seq<Op<T, U>>,
    after: Seq<Op<T, U>>,
    key: T,
    value: U,
    removal: bool,
) -> bool {
    &&& after.len() == before.len() + 1
    &&& after.drop_last() == before
    &&& if removal {
        after.last() matches Op::Remove(k, v) && cloned(key, k) && v == value
    } else {
        after.last() matches Op::Add(k, v) && cloned(key, k) && v == value
    }
}

impl<T, U> View for DataSet<T, U> {
    type V = Map<T, Set<U>>;

    /// What the store holds: each known key with its set of values.
    closed spec fn view(&self) -> Map<T, Set<U>> {
        Map::new(|k: T| self.data@.contains_key(k), |k: T| self.data@[k]@)
    }
}

impl<T: Hash + Eq + Clone, U: Hash + Eq + Clone> DataSet<T, U> {
    /// The name the store was made with.
    pub closed spec fn name(&self) -> Seq<char> {
        self.name@
    }

    /// The operations that this store handed to the writer's channel,
    /// oldest first, whether or not the channel took them.
    pub closed spec fn submitted(&self) -> Seq<Op<T, U>> {
        self.sender.submitted()
    }

    /// The operations that the writer's channel took from this store,
    /// oldest first.
    pub closed spec fn queued(&self) -> Seq<Op<T, U>> {
        self.sender.queued()
    }

    /// A store knows finitely many keys.
    pub proof fn lemma_finite(&self)
        ensures
            self@.dom().finite(),
    {
        assert(self@.dom() =~= self.data@.dom());
    }

    /// An empty store called `name` that sends its changes to `sender`.
    /// The size `n` that the caller expects the store to reach has no
    /// bearing on what the store holds.
    pub fn new(name: String, n: usize, sender: Sender<Op<T, U>>) -> (set: Self)
        ensures
            set@ == Map::<T, Set<U>>::empty(),
            set@.dom().finite(),
            set.name() == name@,
            set.submitted() == Seq::<Op<T, U>>::empty(),
            set.queued() == Seq::<Op<T, U>>::empty(),
    {
        let _ = n;
        let set = DataSet { name, data: HashMap::new(), sender: Outbox::new(sender) };
        assert(set@ =~= Map::<T, Set<U>>::empty());
        set
    }

    /// The path of the file that backs the store: its name, then `.data`.
    pub fn file_path(&self) -> (path: String)
        ensures
            path@ == self.name() + ".data"@,
    {
        self.name.clone().concat(".data")
    }

    /// Makes `key` known to the store and hands exactly one operation,
    /// `Add(key, value)`, to the writer's channel. A key that is new starts with no values, and one
    /// that is known keeps the values it has: the value travels with the
    /// operation only. Where the writer is gone nothing is queued, and the
    /// result is `true` all the same.
    pub fn add(&mut self, key: T, value: U) -> (added: bool)
        ensures
            added,
            final(self).name() == old(self).name(),
            obeys_key_model::<T>() ==> final(self)@ == (if old(self)@.contains_key(key) {
                old(self)@
            } else {
                old(self)@.insert(key, Set::empty())
            }),
            final(self)@.dom().finite(),
            grown_by(old(self).submitted(), final(self).submitted(), key, value, false),
            took_at_most(
                old(self).queued(),
                final(self).queued(),
                final(self).submitted().last(),
            ),
    {
        let op = Op::Add(key.clone(), value);
        if !self.data.contains_key(&key) {
            self.data.insert(key, HashSet::new());
        }
        let ghost before = self.sender.submitted();
        let _ = self.sender.submit(op);
        proof {
            assert(self.sender.submitted().drop_last() =~= before);
            if obeys_key_model::<T>() {
                if old(self)@.contains_key(key) {
                    assert(self@ =~= old(self)@);
                } else {
                    assert(self@ =~= old(self)@.insert(key, Set::empty()));
                }
            }
            self.lemma_finite();
        }
        true
    }

    /// Takes `value` away from the values of `key`. Where the key held the
    /// value, exactly one operation, `Remove(key, value)`, is handed to the
    /// writer's channel and the result is `true`; otherwise nothing
    /// changes, nothing is handed on and the result is `false`.
    pub fn remove(&mut self, key: T, value: U) -> (removed: bool)
        ensures
            final(self).name() == old(self).name(),
            obeys_key_model::<T>() && obeys_key_model::<U>() ==> {
                &&& removed == (old(self)@.contains_key(key) && old(self)@[key].contains(value))
                &&& final(self)@ == (if removed {
                    old(self)@.insert(key, old(self)@[key].remove(value))
                } else {
                    old(self)@
                })
            },
            final(self)@.dom().finite(),
            !removed ==> final(self).submitted() == old(self).submitted() && final(self).queued()
                == old(self).queued(),
            removed ==> grown_by(old(self).submitted(), final(self).submitted(), key, value, true)
                && took_at_most(
                old(self).queued(),
                final(self).queued(),
                final(self).submitted().last(),
            ),
    {
        let sent_key = key.clone();
        match self.data.remove(&key) {
            Some(mut values) => {
                let removed = values.remove(&value);
                self.data.insert(key, values);
                proof {
                    if obeys_key_model::<T>() && obeys_key_model::<U>() {
                        if removed {
                            assert(self@ =~= old(self)@.insert(key, old(self)@[key].remove(value)));
                        } else {
                            assert(values@ =~= old(self)@[key]);
                            assert(self@ =~= old(self)@);
                        }
                    }
                    self.lemma_finite();
                }
                if removed {
                    let ghost before = self.sender.submitted();
                    let _ = self.sender.submit(Op::Remove(sent_key, value));
                    assert(self.sender.submitted().drop_last() =~= before);
                }
                removed
            },
            None => {
                proof {
                    if obeys_key_model::<T>() {
                        assert(self@ =~= old(self)@);
                    }
                    self.lemma_finite();
                }
                false
            },
        }
    }
}

} // verus!
