//! The index of a log: for each stored pair a slot that says where its
//! record lies, and buckets that lead from the hash of a namespace and key
//! to the places in the index where a slot for them can stand.

use std::collections::HashMap;
use vstd::prelude::*;
use vstd::std_specs::hash::group_hash_axioms;
use crate::codec::{digest_more, same_bytes};
use crate::record::{digest_from, DIGEST_SEED};

verus! {

broadcast use group_hash_axioms;

/// Where the index holds a record to lie, and how long its value is.
pub struct Slot {
    pub ns: Vec<u8>,
    pub key: Vec<u8>,
    pub at: usize,
    pub len: usize,
}

/// The hash of a namespace and key.
pub open spec fn key_hash(ns: Seq<u8>, key: Seq<u8>) -> u64 {
    digest_from(digest_from(DIGEST_SEED as nat, ns), key) as u64
}

/// Each slot's place stands in the bucket of the hash of its namespace
/// and key.
pub open spec fn bucketed(slots: Seq<Slot>, buckets: Map<u64, Vec<usize>>) -> bool {
    forall|i: int|
        0 <= i < slots.len() ==> buckets.contains_key(
            key_hash((#[trigger] slots[i]).ns@, slots[i].key@),
        ) && buckets[key_hash(slots[i].ns@, slots[i].key@)]@.contains(i as usize)
}

/// Buckets for slots serve other slots with the same namespaces and keys.
pub proof fn lemma_bucketed_same_keys(a: Seq<Slot>, b: Seq<Slot>, buckets: Map<u64, Vec<usize>>)
    requires
        bucketed(a, buckets),
        a.len() == b.len(),
        forall|i: int| 0 <= i < a.len() ==> a[i].ns@ == b[i].ns@ && a[i].key@ == b[i].key@,
    ensures
        bucketed(b, buckets),
{
    assert forall|i: int| 0 <= i < b.len() implies buckets.contains_key(
        key_hash((#[trigger] b[i]).ns@, b[i].key@),
    ) && buckets[key_hash(b[i].ns@, b[i].key@)]@.contains(i as usize) by {
        assert(a[i].ns@ == b[i].ns@);
    }
}

/// Computes the hash of a namespace and key.
pub fn hash_key(ns: &[u8], key: &[u8]) -> (h: u64)
    ensures
        h == key_hash(ns@, key@),
{
    let a = digest_more(DIGEST_SEED, ns);
    digest_more(a, key) as u64
}

/// Looks for the slot of `ns` and `key`: in the bucket of their hash.
pub fn find_slot(
    index: &Vec<Slot>,
    buckets: &HashMap<u64, Vec<usize>>,
    ns: &[u8],
    key: &[u8],
) -> (r: Option<usize>)
    requires
        bucketed(index@, buckets@),
    ensures
        match r {
            Some(i) => i < index@.len() && index@[i as int].ns@ == ns@ && index@[i as int].key@
                == key@,
            None => forall|j: int|
                0 <= j < index@.len() ==> !((#[trigger] index@[j]).ns@ == ns@ && index@[j].key@
                    == key@),
        },
{
    let h = hash_key(ns, key);
    let list = match buckets.get(&h) {
        Some(list) => list,
        None => {
            return None;
        },
    };
    assert(buckets@.contains_key(h) && buckets@[h]@ == list@);
    let n: usize = index.len();
    let mut k: usize = 0;
    while k < list.len()
        invariant
            k <= list@.len(),
            n == index@.len(),
            buckets@.contains_key(h) && buckets@[h]@ == list@,
            h == key_hash(ns@, key@),
            bucketed(index@, buckets@),
            forall|m: int|
                0 <= m < k ==> !(list@[m] < index@.len() && index@[list@[m] as int].ns@ == ns@
                    && index@[list@[m] as int].key@ == key@),
        decreases list@.len() - k,
    {
        let at: usize = list[k];
        if at < n && same_bytes(index[at].ns.as_slice(), ns) && same_bytes(
            index[at].key.as_slice(),
            key,
        ) {
            return Some(at);
        }
        k = k + 1;
    }
    proof {
        assert forall|j: int| 0 <= j < index@.len() implies !((#[trigger] index@[j]).ns@ == ns@
            && index@[j].key@ == key@) by {
            if index@[j].ns@ == ns@ && index@[j].key@ == key@ {
                assert(key_hash(index@[j].ns@, index@[j].key@) == h);
                assert(buckets@[h]@.contains(j as usize));
                assert(list@.contains(j as usize));
                let m = choose|m: int| 0 <= m < list@.len() && list@[m] == j as usize;
                assert(list@[m] < index@.len());
                assert(index@[list@[m] as int] == index@[j]);
            }
        }
    }
    None
}

/// Puts the place `at` into the bucket of `h`.
fn bucket_add(buckets: &mut HashMap<u64, Vec<usize>>, h: u64, at: usize)
    ensures
        final(buckets)@.contains_key(h),
        final(buckets)@[h]@.contains(at),
        forall|k: u64, p: usize|
            old(buckets)@.contains_key(k) && old(buckets)@[k]@.contains(p)
                ==> final(buckets)@.contains_key(k)
                && #[trigger] final(buckets)@[k]@.contains(p),
{
    let mut list: Vec<usize> = match buckets.remove(&h) {
        Some(list) => list,
        None => Vec::new(),
    };
    let ghost before = list@;
    list.push(at);
    proof {
        assert(list@[before.len() as int] == at);
        assert forall|p: usize| before.contains(p) implies list@.contains(p) by {
            let m = choose|m: int| 0 <= m < before.len() && before[m] == p;
            assert(list@[m] == p);
        }
    }
    buckets.insert(h, list);
}

/// Puts `slot` behind the slots of the index.
pub fn push_slot(index: &mut Vec<Slot>, buckets: &mut HashMap<u64, Vec<usize>>, slot: Slot)
    requires
        bucketed(old(index)@, old(buckets)@),
    ensures
        final(index)@ == old(index)@.push(slot),
        bucketed(final(index)@, final(buckets)@),
{
    let h = hash_key(slot.ns.as_slice(), slot.key.as_slice());
    let at: usize = index.len();
    let ghost slot_view = (slot.ns@, slot.key@);
    index.push(slot);
    bucket_add(buckets, h, at);
    proof {
        assert forall|i: int| 0 <= i < index@.len() implies buckets@.contains_key(
            key_hash((#[trigger] index@[i]).ns@, index@[i].key@),
        ) && buckets@[key_hash(index@[i].ns@, index@[i].key@)]@.contains(i as usize) by {
            let k = key_hash(index@[i].ns@, index@[i].key@);
            if i < at {
                assert(index@[i] == old(index)@[i]);
                assert(old(buckets)@.contains_key(k) && old(buckets)@[k]@.contains(i as usize));
                assert(buckets@[k]@.contains(i as usize));
            } else {
                assert(index@[i].ns@ == slot_view.0 && index@[i].key@ == slot_view.1);
                assert(k == h);
                assert(buckets@[h]@.contains(at));
            }
        }
    }
}

/// Puts `slot` in the place of the slot at `i`, which has its namespace
/// and key.
pub fn set_slot(index: &mut Vec<Slot>, i: usize, slot: Slot, Ghost(buckets): Ghost<
    Map<u64, Vec<usize>>,
>)
    requires
        bucketed(old(index)@, buckets),
        i < old(index)@.len(),
        old(index)@[i as int].ns@ == slot.ns@,
        old(index)@[i as int].key@ == slot.key@,
    ensures
        final(index)@ == old(index)@.update(i as int, slot),
        bucketed(final(index)@, buckets),
{
    index[i] = slot;
    proof {
        lemma_bucketed_same_keys(old(index)@, index@, buckets);
    }
}

/// Takes the slot at `i` out of the index; the slots behind it move up,
/// and the buckets are made anew.
pub fn take_slot(index: &mut Vec<Slot>, buckets: &mut HashMap<u64, Vec<usize>>, i: usize)
    requires
        i < old(index)@.len(),
    ensures
        final(index)@ == old(index)@.remove(i as int),
        bucketed(final(index)@, final(buckets)@),
{
    let gone = index.remove(i);
    let mut fresh: HashMap<u64, Vec<usize>> = HashMap::new();
    let mut k: usize = 0;
    while k < index.len()
        invariant
            k <= index@.len(),
            bucketed(index@.take(k as int), fresh@),
        decreases index@.len() - k,
    {
        let h = hash_key(index[k].ns.as_slice(), index[k].key.as_slice());
        let ghost before = fresh@;
        bucket_add(&mut fresh, h, k);
        proof {
            let front = index@.take(k + 1);
            assert forall|j: int| 0 <= j < front.len() implies fresh@.contains_key(
                key_hash((#[trigger] front[j]).ns@, front[j].key@),
            ) && fresh@[key_hash(front[j].ns@, front[j].key@)]@.contains(j as usize) by {
                let kh = key_hash(front[j].ns@, front[j].key@);
                if j < k {
                    assert(front[j] == index@.take(k as int)[j]);
                    assert(before.contains_key(kh) && before[kh]@.contains(j as usize));
                    assert(fresh@[kh]@.contains(j as usize));
                } else {
                    assert(front[j] == index@[k as int]);
                    assert(kh == h);
                    assert(fresh@[h]@.contains(k));
                }
            }
        }
        k = k + 1;
    }
    proof {
        assert(index@.take(k as int) =~= index@);
    }
    *buckets = fresh;
}

} // verus!
