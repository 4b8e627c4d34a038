//! The channel that carries operations to the writer, seen from the side
//! that sends.

use std::sync::mpsc::Sender;
use vstd::prelude::*;

verus! {

/// `std::sync::mpsc::Sender`, the sending half of a channel of the standard
/// library. Nothing is stated of what lies inside it.
#[verifier::external_type_specification]
#[verifier::external_body]
#[verifier::reject_recursive_types(T)]
pub struct ExSender<T>(std::sync::mpsc::Sender<T>);

/// The sending half of a channel, together with two records: every item
/// that was handed to the channel through it, and every item that the
/// channel took. Both speak of this outbox alone, not of other senders on
/// the same channel.
#[verifier::reject_recursive_types(T)]
pub struct Outbox<T> {
    sx: Sender<T>,
    handed: Ghost<Seq<T>>,
    taken: Ghost<Seq<T>>,
}

/// Whether the channel took nothing between `before` and `after`, or took
/// `item` and nothing else.
pub open spec fn took_at_most<T>(before: Seq<T>, after: Seq<T>, item: T) -> bool {
    after == before || after == before.push(item)
}

impl<T> Outbox<T> {
    /// The items handed to the channel through this outbox, oldest first,
    /// whether or not the channel took them.
    pub closed spec fn submitted(&self) -> Seq<T> {
        self.handed@
    }

    /// The items that the channel took from this outbox, oldest first.
    pub closed spec fn queued(&self) -> Seq<T> {
        self.taken@
    }

    /// An outbox on `sx` through which nothing has been handed on yet.
    pub fn new(sx: Sender<T>) -> (out: Self)
        ensures
            out.submitted() == Seq::<T>::empty(),
            out.queued() == Seq::<T>::empty(),
    {
        Outbox { sx, handed: Ghost(Seq::empty()), taken: Ghost(Seq::empty()) }
    }

    /// Calls `Sender::send`, which hands `item` to the channel without
    /// waiting for the receiver, and tells whether it returned `Ok`. The
    /// item is recorded as handed on in either case. On `Ok` the channel
    /// took the item behind all it took before; on `Err` the receiver is
    /// gone and the channel took nothing.
    #[verifier::external_body]
    pub(crate) fn submit(&mut self, item: T) -> (sent: bool)
        ensures
            final(self).submitted() == old(self).submitted().push(item),
            final(self).queued() == (if sent {
                old(self).queued().push(item)
            } else {
                old(self).queued()
            }),
    {
        self.sx.send(item).is_ok()
    }
}

} // verus!
