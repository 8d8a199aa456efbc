//! What holds of the store, whatever is stored in it.

use vstd::prelude::*;
use crate::error::StoreError;
use crate::layout::active_area;
use crate::record::{
    distinct,
    has_key,
    holds_at,
    lemma_drop_distinct,
    lemma_drop_is_remove,
    lemma_pairs_distinct,
    lemma_put_distinct,
    lemma_put_is_insert,
    lemma_put_other,
    lookup,
    pair_of,
    pairs_of,
    put,
    records,
    slot_of,
    Pair,
    Rec,
    STATE_TOMBSTONE,
    STATE_VALID,
};
use crate::store::{
    bank_of,
    base_of,
    compact_post,
    init_post,
    part_index,
    read_post,
    remove_post,
    sound,
    write_post,
    FlashStore,
};

verus! {

/// Whatever a partition holds, no namespace and key has two values.
pub proof fn law_one_value_per_key(store: FlashStore, i: int)
    ensures
        distinct(store.holds(i)),
{
    let part = store.table()[i];
    lemma_pairs_distinct(
        records(active_area(store.device().bytes, base_of(part), bank_of(part)), 0),
    );
}

/// A key that was never written is absent: whatever records a log is
/// made of, with or without commit marker, it holds nothing under a
/// namespace and key that none of its valid records names.
pub proof fn law_never_written(recs: Seq<Rec>, ns: Seq<u8>, key: Seq<u8>)
    requires
        forall|k: int|
            0 <= k < recs.len() ==> !(recs[k].state == STATE_VALID && recs[k].ns == ns
                && recs[k].key == key),
    ensures
        lookup(pairs_of(recs), ns, key) is None,
    decreases recs.len(),
{
    if recs.len() == 0 {
        assert(!has_key(Seq::<Pair>::empty(), ns, key)) by {
            if has_key(Seq::<Pair>::empty(), ns, key) {
                let s = slot_of(Seq::<Pair>::empty(), ns, key);
                assert(holds_at(Seq::<Pair>::empty(), ns, key, s));
            }
        }
    } else {
        let front = recs.drop_last();
        let last = recs.last();
        assert forall|k: int| 0 <= k < front.len() implies !(front[k].state == STATE_VALID
            && front[k].ns == ns && front[k].key == key) by {
            assert(front[k] == recs[k]);
        }
        law_never_written(front, ns, key);
        lemma_pairs_distinct(front);
        assert(last == recs[recs.len() - 1]);
        if last.state == STATE_VALID {
            lemma_put_other(pairs_of(front), pair_of(last), ns, key);
        } else if last.state == STATE_TOMBSTONE {
            lemma_drop_distinct(pairs_of(front), last.ns, last.key);
        }
    }
}

/// Where nothing is stored under a namespace and key, `read` fails with
/// `KeyNotFound` in a partition that is initialised, whatever size the
/// caller gives.
pub proof fn law_absent_is_not_found(
    store: FlashStore,
    partition: Seq<u8>,
    ns: Seq<u8>,
    key: Seq<u8>,
    size: usize,
    r: Result<Vec<u8>, StoreError>,
)
    requires
        store.usable(partition),
        store.found(partition, ns, key) is None,
        read_post(store, partition, ns, key, size, r),
    ensures
        r is Err,
        r->Err_0 == StoreError::KeyNotFound,
{
}

/// Round trip: once a write has succeeded, the key is found with the
/// value written, and a read with the size of that value returns it.
pub proof fn law_round_trip(
    before: FlashStore,
    after: FlashStore,
    partition: Seq<u8>,
    p: Pair,
    w: Result<(), StoreError>,
    size: usize,
    r: Result<Vec<u8>, StoreError>,
)
    requires
        write_post(before, after, partition, p, w),
        w is Ok,
        size == p.value.len(),
        read_post(after, partition, p.ns, p.key, size, r),
    ensures
        after.found(partition, p.ns, p.key) == Some(p.value),
        r is Ok,
        r->Ok_0@ == p.value,
{
    let i = part_index(before.table(), partition)->Some_0;
    law_one_value_per_key(before, i);
    lemma_put_distinct(before.holds(i), p);
}

/// Storing a value under a key twice is storing the second value once.
pub proof fn law_put_twice(pairs: Seq<Pair>, first: Pair, second: Pair)
    requires
        distinct(pairs),
        first.ns == second.ns,
        first.key == second.key,
    ensures
        put(put(pairs, first), second) == put(pairs, second),
{
    lemma_put_distinct(pairs, first);
    let mid = put(pairs, first);
    let s = slot_of(mid, first.ns, first.key);
    assert(holds_at(mid, first.ns, first.key, s));
    if has_key(pairs, first.ns, first.key) {
        let t = slot_of(pairs, first.ns, first.key);
        assert(holds_at(pairs, first.ns, first.key, t));
        assert(holds_at(mid, first.ns, first.key, t));
        if s != t {
            assert(mid[s].ns == mid[t].ns && mid[s].key == mid[t].key);
        }
        assert(put(mid, second) =~= put(pairs, second));
    } else {
        let t = pairs.len() as int;
        assert(holds_at(mid, first.ns, first.key, t));
        if s != t {
            assert(mid[s].ns == mid[t].ns && mid[s].key == mid[t].key);
        }
        assert(put(mid, second) =~= put(pairs, second));
    }
}

/// Re-write: after two writes to one key that both succeeded, the
/// partition holds what it would hold after the second alone, and the key
/// has the second value.
pub proof fn law_last_write_wins(
    s0: FlashStore,
    s1: FlashStore,
    s2: FlashStore,
    partition: Seq<u8>,
    first: Pair,
    second: Pair,
    w1: Result<(), StoreError>,
    w2: Result<(), StoreError>,
)
    requires
        write_post(s0, s1, partition, first, w1),
        write_post(s1, s2, partition, second, w2),
        w1 is Ok,
        w2 is Ok,
        first.ns == second.ns,
        first.key == second.key,
    ensures
        s2.found(partition, second.ns, second.key) == Some(second.value),
        s2.holds(part_index(s0.table(), partition)->Some_0) == put(
            s0.holds(part_index(s0.table(), partition)->Some_0),
            second,
        ),
{
    let i = part_index(s0.table(), partition)->Some_0;
    law_one_value_per_key(s0, i);
    law_one_value_per_key(s1, i);
    lemma_put_distinct(s1.holds(i), second);
    law_put_twice(s0.holds(i), first, second);
}

/// A write that failed, for whatever reason and at whatever operation of
/// the device, has stored nothing: after the power is cut and a partition
/// is initialised again on the device, which no longer faults, every key
/// of the partition is found as it was before the write.
pub proof fn law_failed_write_recovers(
    s0: FlashStore,
    s1: FlashStore,
    s2: FlashStore,
    s3: FlashStore,
    partition: Seq<u8>,
    p: Pair,
    w: Result<(), StoreError>,
    again: Seq<u8>,
    init: Result<(), StoreError>,
    ns: Seq<u8>,
    key: Seq<u8>,
)
    requires
        s0.wf(),
        s1.wf(),
        write_post(s0, s1, partition, p, w),
        w is Err,
        s2.device().bytes == s1.device().bytes,
        s2.device().unit == s1.device().unit,
        s2.device().budget is None,
        s2.table() == s1.table(),
        init_post(s2, s3, again, init),
        s0.usable(again),
    ensures
        init is Ok,
        s3.usable(again),
        s3.found(again, ns, key) == s0.found(again, ns, key),
{
    s0.lemma_wf_means();
    s1.lemma_wf_means();
    let j = part_index(s0.table(), again)->Some_0;
    if s0.usable(partition) {
        let i = part_index(s0.table(), partition)->Some_0;
        assert(s1.ready(j));
        assert(s1.holds(j) == s0.holds(j));
    } else {
        assert(s1.ready(j) == s0.ready(j));
    }
    assert(sound(s1.device().bytes, s1.table()[j]));
}

/// Compaction keeps what is stored: every key is found as it was, whether
/// the compaction ran to its end or the device faulted on the way.
pub proof fn law_compaction_keeps(
    before: FlashStore,
    after: FlashStore,
    partition: Seq<u8>,
    r: Result<(), StoreError>,
    other: Seq<u8>,
    ns: Seq<u8>,
    key: Seq<u8>,
)
    requires
        before.wf(),
        compact_post(before, after, partition, r),
    ensures
        after.found(other, ns, key) == before.found(other, ns, key),
{
    before.lemma_wf_means();
    if before.usable(partition) {
        let i = part_index(before.table(), partition)->Some_0;
        if part_index(before.table(), other) is Some {
            let j = part_index(before.table(), other)->Some_0;
            if j != i {
                assert(after.ready(j) == before.ready(j));
                if before.ready(j) {
                    assert(after.holds(j) == before.holds(j));
                }
            }
        }
    }
}

/// Partition isolation: a write to one partition, whatever becomes of it,
/// leaves every key of every other partition as it was.
pub proof fn law_partitions_are_isolated(
    before: FlashStore,
    after: FlashStore,
    partition: Seq<u8>,
    p: Pair,
    w: Result<(), StoreError>,
    other: Seq<u8>,
    ns: Seq<u8>,
    key: Seq<u8>,
)
    requires
        before.wf(),
        write_post(before, after, partition, p, w),
        part_index(before.table(), other) != part_index(before.table(), partition),
    ensures
        after.found(other, ns, key) == before.found(other, ns, key),
        after.usable(other) == before.usable(other),
{
    before.lemma_wf_means();
    if before.usable(partition) {
        let i = part_index(before.table(), partition)->Some_0;
        if part_index(before.table(), other) is Some {
            let j = part_index(before.table(), other)->Some_0;
            assert(after.ready(j) == before.ready(j));
            if before.ready(j) {
                assert(after.holds(j) == before.holds(j));
            }
        }
    }
}

/// Once a value has been removed, its key is absent, and every other key
/// is found as it was.
pub proof fn law_removed_is_absent(
    before: FlashStore,
    after: FlashStore,
    partition: Seq<u8>,
    ns: Seq<u8>,
    key: Seq<u8>,
    r: Result<(), StoreError>,
    ns2: Seq<u8>,
    key2: Seq<u8>,
)
    requires
        remove_post(before, after, partition, ns, key, r),
        r is Ok,
        !(ns2 == ns && key2 == key),
    ensures
        after.found(partition, ns, key) is None,
        after.found(partition, ns2, key2) == before.found(partition, ns2, key2),
{
    let i = part_index(before.table(), partition)->Some_0;
    law_one_value_per_key(before, i);
    lemma_drop_distinct(before.holds(i), ns, key);
}

/// A write that succeeded is an insertion into the map of what the
/// partition holds, and a removal that succeeded is a removal from it.
pub proof fn law_store_is_a_map(
    before: FlashStore,
    after: FlashStore,
    partition: Seq<u8>,
    p: Pair,
    w: Result<(), StoreError>,
    gone: FlashStore,
    r: Result<(), StoreError>,
)
    requires
        write_post(before, after, partition, p, w),
        w is Ok,
        remove_post(after, gone, partition, p.ns, p.key, r),
        r is Ok,
    ensures
        ({
            let i = part_index(before.table(), partition)->Some_0;
            &&& after.contents(i) == before.contents(i).insert((p.ns, p.key), p.value)
            &&& gone.contents(i) == after.contents(i).remove((p.ns, p.key))
        }),
{
    let i = part_index(before.table(), partition)->Some_0;
    law_one_value_per_key(before, i);
    law_one_value_per_key(after, i);
    lemma_put_is_insert(before.holds(i), p);
    lemma_drop_is_remove(after.holds(i), p.ns, p.key);
}

} // verus!
