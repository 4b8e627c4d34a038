//! Replay: folding the operations read back from a log into a map.

use std::collections::HashMap;
use std::hash::Hash;
use vstd::prelude::*;
use vstd::std_specs::hash::obeys_key_model;

use crate::op::Op;

verus! {

/// The map after one operation: `Add` sets the key, `Destroy` forgets it,
/// and `Remove` leaves a single-valued map as it is.
pub open spec fn applied<T, U>(m: Map<T, U>, op: Op<T, U>) -> Map<T, U> {
    match op {
        Op::Add(k, v) => m.insert(k, v),
        Op::Destroy(k) => m.remove(k),
        Op::Remove(_, _) => m,
    }
}

/// The map after a run of operations, applied to `m` from first to last.
pub open spec fn folded<T, U>(m: Map<T, U>, ops: Seq<Op<T, U>>) -> Map<T, U>
    decreases ops.len(),
{
    if ops.len() == 0 {
        m
    } else {
        applied(folded(m, ops.drop_last()), ops.last())
    }
}

/// The operations that stand before the first record that could not be
/// decoded (`None`), or all of them where every record was decoded.
pub open spec fn readable<T, U>(records: Seq<Option<Op<T, U>>>) -> Seq<Op<T, U>>
    decreases records.len(),
{
    if records.len() == 0 {
        Seq::empty()
    } else {
        let before = readable(records.drop_last());
        match records.last() {
            Some(op) => if before.len() == records.len() - 1 {
                before.push(op)
            } else {
                before
            },
            None => before,
        }
    }
}

/// The map that a log's records rebuild, starting from nothing.
pub open spec fn replayed<T, U>(records: Seq<Option<Op<T, U>>>) -> Map<T, U> {
    folded(Map::empty(), readable(records))
}

/// Applies one operation to a map.
pub fn apply<T: Hash + Eq, U>(map: &mut HashMap<T, U>, op: Op<T, U>)
    ensures
        obeys_key_model::<T>() ==> final(map)@ == applied(old(map)@, op),
{
    match op {
        Op::Add(k, v) => {
            map.insert(k, v);
        },
        Op::Destroy(k) => {
            map.remove(&k);
        },
        Op::Remove(_, _) => {},
    }
}

/// Rebuilds a map from the records of a log, in the order they were read.
///
/// Each record is the operation it decoded to, or `None` where decoding
/// failed. Replay stops at the first record that failed; the second part of
/// the result counts the operations applied before that.
pub fn replay<T: Hash + Eq, U>(records: Vec<Option<Op<T, U>>>) -> (r: (HashMap<T, U>, usize))
    ensures
        obeys_key_model::<T>() ==> r.0@ == replayed(records@),
        r.1 == readable(records@).len(),
{
    let mut map: HashMap<T, U> = HashMap::new();
    let mut count: usize = 0;
    let mut live = true;
    let ghost all = records@;
    assert(all.take(0) =~= Seq::empty());
    assert(all.len() == records.len());
    for record in it: records
        invariant
            it.seq() == all,
            all.len() <= usize::MAX,
            count == readable(all.take(it.index() as int)).len(),
            count <= it.index(),
            live == (count == it.index()),
            obeys_key_model::<T>() ==> map@ == replayed(all.take(it.index() as int)),
    {
        let ghost seen = all.take(it.index() as int);
        let ghost next = all.take(it.index() + 1);
        assert(next.drop_last() =~= seen);
        assert(next.last() == record);
        match record {
            Some(op) => {
                if live {
                    apply(&mut map, op);
                    count += 1;
                    assert(readable(next).drop_last() =~= readable(seen));
                }
            },
            None => {
                live = false;
            },
        }
    }
    assert(all.take(all.len() as int) =~= all);
    (map, count)
}

/// The records of a log in which every operation could be decoded.
pub open spec fn all_read<T, U>(ops: Seq<Op<T, U>>) -> Seq<Option<Op<T, U>>> {
    Seq::new(ops.len(), |i: int| Some(ops[i]))
}

/// Whether `op` decides what `k` stands for.
pub open spec fn touches<T, U>(op: Op<T, U>, k: T) -> bool {
    match op {
        Op::Add(key, _) => key == k,
        Op::Destroy(key) => key == k,
        Op::Remove(_, _) => false,
    }
}

/// Whether one of `ops` decides what `k` stands for.
pub open spec fn touched<T, U>(ops: Seq<Op<T, U>>, k: T) -> bool
    decreases ops.len(),
{
    ops.len() > 0 && (touches(ops.last(), k) || touched(ops.drop_last(), k))
}

/// Whether two maps say the same of `k`.
pub open spec fn same_at<T, U>(a: Map<T, U>, b: Map<T, U>, k: T) -> bool {
    a.contains_key(k) == b.contains_key(k) && (a.contains_key(k) ==> a[k] == b[k])
}

/// Where every record was decoded, every operation is replayed.
pub proof fn lemma_readable_all<T, U>(ops: Seq<Op<T, U>>)
    ensures
        readable(all_read(ops)) == ops,
        replayed(all_read(ops)) == folded(Map::empty(), ops),
    decreases ops.len(),
{
    if ops.len() == 0 {
        assert(readable(all_read(ops)) =~= ops);
    } else {
        lemma_readable_all(ops.drop_last());
        assert(all_read(ops).drop_last() =~= all_read(ops.drop_last()));
        assert(readable(all_read(ops)) =~= ops);
    }
}

/// Replaying one run of operations and then another is replaying both.
pub proof fn lemma_folded_concat<T, U>(m: Map<T, U>, first: Seq<Op<T, U>>, second: Seq<Op<T, U>>)
    ensures
        folded(m, first + second) == folded(folded(m, first), second),
    decreases second.len(),
{
    if second.len() == 0 {
        assert(first + second =~= first);
    } else {
        lemma_folded_concat(m, first, second.drop_last());
        assert((first + second).drop_last() =~= first + second.drop_last());
    }
}

/// A key that no operation decides stands after replay for what it stood
/// for before.
pub proof fn lemma_untouched_key_stays<T, U>(m: Map<T, U>, ops: Seq<Op<T, U>>, k: T)
    requires
        !touched(ops, k),
    ensures
        same_at(folded(m, ops), m, k),
    decreases ops.len(),
{
    if ops.len() > 0 {
        lemma_untouched_key_stays(m, ops.drop_last(), k);
    }
}

/// What a key stands for after replay depends on the operations alone, as
/// soon as one of them decides it: the map that replay started from does
/// not show through.
pub proof fn lemma_touched_key_forgets<T, U>(
    m1: Map<T, U>,
    m2: Map<T, U>,
    ops: Seq<Op<T, U>>,
    k: T,
)
    requires
        touched(ops, k),
    ensures
        same_at(folded(m1, ops), folded(m2, ops), k),
    decreases ops.len(),
{
    if !touches(ops.last(), k) {
        lemma_touched_key_forgets(m1, m2, ops.drop_last(), k);
    }
}

/// The later of two values set for a key is the one that replay finds,
/// whatever was replayed before them.
pub proof fn lemma_later_add_wins<T, U>(before: Seq<Op<T, U>>, k: T, v1: U, v2: U)
    ensures
        replayed(all_read(before.push(Op::Add(k, v1)).push(Op::Add(k, v2)))).contains_pair(k, v2),
{
    let ops = before.push(Op::Add(k, v1)).push(Op::Add(k, v2));
    lemma_readable_all(ops);
    assert(ops.last() == Op::Add(k, v2));
}

/// A key that was set and then destroyed is absent after replay, whatever
/// was replayed before.
pub proof fn lemma_destroy_removes<T, U>(before: Seq<Op<T, U>>, k: T, v: U)
    ensures
        !replayed(all_read(before.push(Op::Add(k, v)).push(Op::Destroy(k)))).contains_key(k),
{
    let ops = before.push(Op::Add(k, v)).push(Op::Destroy(k));
    lemma_readable_all(ops);
    assert(ops.last() == Op::<T, U>::Destroy(k));
}

/// Replaying a run of operations over the map that the same run led to
/// changes nothing.
pub proof fn lemma_replay_once_more<T, U>(m: Map<T, U>, ops: Seq<Op<T, U>>)
    ensures
        folded(folded(m, ops), ops) == folded(m, ops),
{
    let once = folded(m, ops);
    let twice = folded(once, ops);
    assert forall|k: T|
        #![trigger twice.contains_key(k)]
        #![trigger once.contains_key(k)]
        twice.contains_key(k) == once.contains_key(k) && (twice.contains_key(k) ==> twice[k]
            == once[k]) by {
        if touched(ops, k) {
            lemma_touched_key_forgets(once, m, ops, k);
        } else {
            lemma_untouched_key_stays(once, ops, k);
        }
        assert(same_at(twice, once, k));
    }
    assert(twice =~= once);
}

/// Replay is idempotent: a log read twice over rebuilds the map that it
/// rebuilds when read once.
pub proof fn lemma_replay_twice<T, U>(ops: Seq<Op<T, U>>)
    ensures
        replayed(all_read(ops + ops)) == replayed(all_read(ops)),
{
    let empty = Map::<T, U>::empty();
    lemma_replay_once_more(empty, ops);
    lemma_folded_concat(empty, ops, ops);
    lemma_readable_all(ops + ops);
    lemma_readable_all(ops);
}

} // verus!
