//! The record log of one partition: the index of what it holds, and the
//! operations that read, store, remove and compact.

use std::collections::HashMap;
use vstd::prelude::*;
use crate::codec::{copy_range, digest_more};
use crate::device::{
    affords,
    lemma_erased_is_programmable,
    overwrite,
    region_erased,
    region_programmable,
    DeviceState,
    FlashDevice,
};
use crate::error::{StoreError};
use crate::growth::{
    body_digest,
    build_head,
    checked_size,
    grown,
    lemma_appended,
    lemma_blank_log,
    lemma_head_written,
    lemma_marker_written,
    lemma_record_copied,
    lemma_value_written,
    value_from,
};
use crate::index::{
    bucketed,
    find_slot,
    lemma_bucketed_same_keys,
    push_slot,
    set_slot,
    take_slot,
    Slot,
};
use crate::layout::{
    active_area,
    area_from,
    area_of,
    area_to,
    bank_start,
    capacity,
    compaction_cost,
    erase_bank,
    fits,
    is_blank,
    lemma_first_cell,
    lemma_marker_kept,
    lemma_other_bank,
    lemma_ran_means,
    lemma_ran_none,
    lemma_ran_short,
    lemma_ran_then,
    lemma_ran_wider,
    lemma_record_frame,
    lemma_stored_frame,
    lemma_tail_cells,
    program_area,
    program_marker,
    put_cost,
    ran,
    read_header,
    second_active,
    spare_erased,
    stored,
    tombstone_size,
    BANK_ACTIVE,
    BANK_RETIRED,
    Fields,
};
use crate::record::{
    all_intact,
    apply,
    blank,
    contents,
    digest,
    distinct,
    drop_key,
    has_key,
    holds_at,
    lemma_live_size_drop,
    lemma_live_size_put,
    lemma_live_size_take,
    lemma_live_size_update,
    lemma_pairs_distinct,
    lemma_pairs_push,
    lemma_pending_push,
    lemma_put_new,
    live_size,
    log_end,
    log_ok,
    lookup,
    pair_of,
    pair_size,
    pairs_of,
    pending,
    put,
    rec_at,
    record_at,
    records,
    slot_of,
    DIGEST_SEED,
    Header,
    HEADER_LEN,
    Pair,
    Rec,
    STATE_TOMBSTONE,
    STATE_VALID,
    STATE_WRITING,
};
use crate::settle::{settle};

verus! {

/// The record at `s.at` is committed and intact, ends before `end`, and
/// stores `p`.
spec fn slot_ok(area: Seq<u8>, end: int, s: Slot, p: Pair) -> bool {
    &&& s.ns@ == p.ns
    &&& s.key@ == p.key
    &&& s.len == p.value.len()
    &&& record_at(area, s.at as int) is Some
    &&& rec_at(area, s.at as int, record_at(area, s.at as int)->Some_0).state == STATE_VALID
    &&& pair_of(rec_at(area, s.at as int, record_at(area, s.at as int)->Some_0)) == p
    &&& rec_at(area, s.at as int, record_at(area, s.at as int)->Some_0).intact()
    &&& s.at + pair_size(p) <= end
}

/// The index holds, for each stored pair and in the same order, where its
/// record lies.
spec fn tracks(index: Seq<Slot>, area: Seq<u8>, end: int, pairs: Seq<Pair>) -> bool {
    &&& index.len() == pairs.len()
    &&& forall|i: int| 0 <= i < index.len() ==> slot_ok(area, end, #[trigger] index[i], pairs[i])
}

/// An index that tracks the pairs of one area tracks them in another that
/// holds the same cells before `end`.
proof fn lemma_tracks_frame(
    index: Seq<Slot>,
    a: Seq<u8>,
    b: Seq<u8>,
    end: int,
    end2: int,
    pairs: Seq<Pair>,
)
    requires
        tracks(index, a, end, pairs),
        a.len() == b.len(),
        end <= end2,
        forall|i: int| 0 <= i < end ==> a[i] == b[i],
    ensures
        tracks(index, b, end2, pairs),
{
    assert forall|i: int| 0 <= i < index.len() implies slot_ok(b, end2, #[trigger] index[i], pairs[i]) by {
        assert(slot_ok(a, end, index[i], pairs[i]));
        let at = index[i].at as int;
        let h = record_at(a, at)->Some_0;
        assert(h.record_len() == pair_size(pairs[i]));
        lemma_record_frame(a, b, at);
    }
}

/// With distinct pairs, the place that the index gives is the pair's place.
proof fn lemma_found(
    index: Seq<Slot>,
    area: Seq<u8>,
    end: int,
    pairs: Seq<Pair>,
    ns: Seq<u8>,
    key: Seq<u8>,
    i: int,
)
    requires
        tracks(index, area, end, pairs),
        distinct(pairs),
        0 <= i < index.len(),
        index[i].ns@ == ns,
        index[i].key@ == key,
    ensures
        has_key(pairs, ns, key),
        slot_of(pairs, ns, key) == i,
{
    assert(slot_ok(area, end, index[i], pairs[i]));
    assert(holds_at(pairs, ns, key, i));
    let s = slot_of(pairs, ns, key);
    assert(holds_at(pairs, ns, key, s));
    if s != i {
        assert(pairs[s].ns == pairs[i].ns && pairs[s].key == pairs[i].key);
    }
}

/// Where the index has no slot for a namespace and key, no pair has them.
proof fn lemma_not_found(
    index: Seq<Slot>,
    area: Seq<u8>,
    end: int,
    pairs: Seq<Pair>,
    ns: Seq<u8>,
    key: Seq<u8>,
)
    requires
        tracks(index, area, end, pairs),
        forall|j: int| 0 <= j < index.len() ==> !((#[trigger] index[j]).ns@ == ns && index[j].key@ == key),
    ensures
        !has_key(pairs, ns, key),
{
    if has_key(pairs, ns, key) {
        let s = slot_of(pairs, ns, key);
        assert(holds_at(pairs, ns, key, s));
        assert(slot_ok(area, end, index[s], pairs[s]));
    }
}

/// Puts `slot` in the place of the slot with its namespace and key, or
/// behind all others, and returns the size of the record it replaces.
fn upsert_slot(
    index: &mut Vec<Slot>,
    buckets: &mut HashMap<u64, Vec<usize>>,
    slot: Slot,
    Ghost(area): Ghost<Seq<u8>>,
    Ghost(end): Ghost<int>,
    Ghost(pairs): Ghost<Seq<Pair>>,
    Ghost(p): Ghost<Pair>,
) -> (freed: usize)
    requires
        tracks(old(index)@, area, end, pairs),
        bucketed(old(index)@, old(buckets)@),
        distinct(pairs),
        slot_ok(area, end, slot, p),
        end <= usize::MAX,
    ensures
        bucketed(final(index)@, final(buckets)@),
        tracks(final(index)@, area, end, put(pairs, p)),
        freed == (if has_key(pairs, p.ns, p.key) {
            pair_size(pairs[slot_of(pairs, p.ns, p.key)])
        } else {
            0
        }),
{
    let found = find_slot(index, buckets, slot.ns.as_slice(), slot.key.as_slice());
    match found {
        Some(i) => {
            proof {
                lemma_found(index@, area, end, pairs, p.ns, p.key, i as int);
                assert(slot_ok(area, end, index@[i as int], pairs[i as int]));
            }
            let freed: usize = HEADER_LEN + index[i].ns.len() + index[i].key.len() + index[i].len;
            set_slot(index, i, slot, Ghost(buckets@));
            proof {
                let q = put(pairs, p);
                assert(q == pairs.update(i as int, p));
                assert forall|j: int| 0 <= j < index@.len() implies slot_ok(
                    area,
                    end,
                    #[trigger] index@[j],
                    q[j],
                ) by {
                    if j != i {
                        assert(index@[j] == old(index)@[j]);
                        assert(slot_ok(area, end, old(index)@[j], pairs[j]));
                    }
                }
            }
            freed
        },
        None => {
            proof {
                lemma_not_found(index@, area, end, pairs, p.ns, p.key);
            }
            push_slot(index, buckets, slot);
            proof {
                let q = put(pairs, p);
                assert(q == pairs.push(p));
                assert forall|j: int| 0 <= j < index@.len() implies slot_ok(
                    area,
                    end,
                    #[trigger] index@[j],
                    q[j],
                ) by {
                    if j < pairs.len() {
                        assert(index@[j] == old(index)@[j]);
                        assert(slot_ok(area, end, old(index)@[j], pairs[j]));
                    }
                }
            }
            0
        },
    }
}

/// Takes the slot of `ns` and `key` out of the index, if it has one, and
/// returns the size of the record it stood for.
fn remove_slot(
    index: &mut Vec<Slot>,
    buckets: &mut HashMap<u64, Vec<usize>>,
    ns: &[u8],
    key: &[u8],
    Ghost(area): Ghost<Seq<u8>>,
    Ghost(end): Ghost<int>,
    Ghost(pairs): Ghost<Seq<Pair>>,
) -> (freed: usize)
    requires
        tracks(old(index)@, area, end, pairs),
        bucketed(old(index)@, old(buckets)@),
        distinct(pairs),
        end <= usize::MAX,
    ensures
        bucketed(final(index)@, final(buckets)@),
        tracks(final(index)@, area, end, drop_key(pairs, ns@, key@)),
        freed == (if has_key(pairs, ns@, key@) {
            pair_size(pairs[slot_of(pairs, ns@, key@)])
        } else {
            0
        }),
{
    let found = find_slot(index, buckets, ns, key);
    match found {
        Some(i) => {
            proof {
                lemma_found(index@, area, end, pairs, ns@, key@, i as int);
                assert(slot_ok(area, end, index@[i as int], pairs[i as int]));
            }
            let freed: usize = HEADER_LEN + index[i].ns.len() + index[i].key.len() + index[i].len;
            take_slot(index, buckets, i);
            proof {
                let q = drop_key(pairs, ns@, key@);
                assert(q == pairs.remove(i as int));
                assert forall|j: int| 0 <= j < index@.len() implies slot_ok(
                    area,
                    end,
                    #[trigger] index@[j],
                    q[j],
                ) by {
                    let j0 = if j < i {
                        j
                    } else {
                        j + 1
                    };
                    assert(index@[j] == old(index)@[j0]);
                    assert(q[j] == pairs[j0]);
                    assert(slot_ok(area, end, old(index)@[j0], pairs[j0]));
                }
            }
            freed
        },
        None => {
            proof {
                lemma_not_found(index@, area, end, pairs, ns@, key@);
            }
            0
        },
    }
}

/// Reads the body of the record at `pos` and, if the record is intact,
/// gives the slot that stands for it.
fn load_slot(dev: &FlashDevice, start: usize, cap: usize, pos: usize, f: &Fields) -> (r: Option<
    Slot,
>)
    requires
        dev.wf(),
        start + cap <= dev@.bytes.len(),
        pos <= cap,
        record_at(dev@.bytes.subrange(start as int, start + cap), pos as int) == Some(f.header()),
    ensures
        ({
            let area = dev@.bytes.subrange(start as int, start + cap);
            let rec = rec_at(area, pos as int, f.header());
            match r {
                Some(s) => {
                    &&& rec.intact()
                    &&& s.ns@ == rec.ns
                    &&& s.key@ == rec.key
                    &&& f.state == STATE_VALID ==> slot_ok(
                        area,
                        pos + f.header().record_len(),
                        s,
                        pair_of(rec),
                    )
                },
                None => !rec.intact(),
            }
        }),
{
    let ghost area = dev@.bytes.subrange(start as int, start + cap);
    let ghost rec = rec_at(area, pos as int, f.header());
    let body_len: usize = f.ns_len + f.key_len + f.val_len;
    let body = dev.read(start + pos + HEADER_LEN, body_len).unwrap();
    proof {
        assert(body@ =~= area.subrange(pos + HEADER_LEN, pos + HEADER_LEN + body_len));
        assert(rec.body() =~= body@);
    }
    let found: u32 = digest_more(DIGEST_SEED, body.as_slice());
    if found != f.sum {
        return None;
    }
    let ns = copy_range(body.as_slice(), 0, f.ns_len);
    let key = copy_range(body.as_slice(), f.ns_len, f.ns_len + f.key_len);
    let slot = Slot { ns, key, at: pos, len: f.val_len };
    proof {
        assert(slot.ns@ =~= rec.ns);
        assert(slot.key@ =~= rec.key);
    }
    Some(slot)
}

/// One more step of a scan: the record at `pos` joins those seen.
proof fn lemma_scan_step(area: Seq<u8>, seen: Seq<Rec>, pos: int, h: Header)
    requires
        records(area, 0) == seen + records(area, pos),
        log_end(area, 0) == log_end(area, pos),
        record_at(area, pos) == Some(h),
    ensures
        records(area, 0) == seen.push(rec_at(area, pos, h)) + records(area, pos + h.record_len()),
        log_end(area, 0) == log_end(area, pos + h.record_len()),
        records(area, 0)[seen.len() as int] == rec_at(area, pos, h),
        seen.len() < records(area, 0).len(),
{
    let rec = rec_at(area, pos, h);
    let rest = records(area, pos + h.record_len());
    assert(records(area, pos) == seq![rec] + rest);
    assert(seen + (seq![rec] + rest) =~= seen.push(rec) + rest);
}

/// The end of a scan: the records seen are all there are.
proof fn lemma_scan_done(area: Seq<u8>, seen: Seq<Rec>, pos: int)
    requires
        records(area, 0) == seen + records(area, pos),
        log_end(area, 0) == log_end(area, pos),
        record_at(area, pos) is None,
    ensures
        records(area, 0) == seen,
        log_end(area, 0) == pos,
{
    assert(records(area, pos) =~= Seq::<Rec>::empty());
    assert(seen + records(area, pos) =~= seen);
}

/// The area `t` holds a log of `pairs` that ends at `end`, with no record
/// but theirs, and `index` holds where they lie.
#[verifier::opaque]
spec fn copied(index: Seq<Slot>, t: Seq<u8>, pairs: Seq<Pair>, end: int) -> bool {
    &&& log_ok(t)
    &&& 0 <= end
    &&& log_end(t, 0) == end
    &&& contents(t) == pairs
    &&& tracks(index, t, end, pairs)
    &&& end == live_size(pairs)
}

/// Copying the record of the next pair behind the log of the other area.
proof fn lemma_copied_step(
    a: Seq<u8>,
    t: Seq<u8>,
    index: Seq<Slot>,
    pairs: Seq<Pair>,
    j: int,
    old_index: Seq<Slot>,
    end_a: int,
    e: int,
    s2: Slot,
)
    requires
        tracks(old_index, a, end_a, pairs),
        distinct(pairs),
        0 <= j < pairs.len(),
        copied(index, t, pairs.take(j), e),
        live_size(pairs) <= t.len(),
        s2.ns@ == old_index[j].ns@,
        s2.key@ == old_index[j].key@,
        s2.len == old_index[j].len,
        s2.at == e,
    ensures
        ({
            let s = old_index[j];
            let size = pair_size(pairs[j]);
            let rb = a.subrange(s.at as int, s.at + size);
            let t2 = overwrite(t, e, rb);
            &&& size == HEADER_LEN + s.ns@.len() + s.key@.len() + s.len
            &&& s.at + size <= a.len()
            &&& e + size <= t.len()
            &&& e + size == live_size(pairs.take(j + 1))
            &&& live_size(pairs.take(j + 1)) <= live_size(pairs)
            &&& region_programmable(t, e, rb)
            &&& copied(index.push(s2), t2, pairs.take(j + 1), e + size)
        }),
{
    reveal(copied);
    let s = old_index[j];
    let p = pairs[j];
    let size = pair_size(p);
    let at = s.at as int;
    assert(slot_ok(a, end_a, s, p));
    let h = record_at(a, at)->Some_0;
    let rec = rec_at(a, at, h);
    let rb = a.subrange(at, at + size);
    let t2 = overwrite(t, e, rb);
    lemma_live_size_take(pairs, j);
    lemma_live_size_take(pairs, j + 1);
    assert(h.record_len() == size);
    lemma_record_copied(a, t, at, h);
    assert(rec.body() == p.ns + p.key + p.value);
    lemma_appended(t, t2, STATE_VALID, p.ns, p.key, p.value.len(), h.sum);
    assert(forall|i: int| 0 <= i < e ==> t[i] == t2[i]);
    lemma_put_new(pairs, j);
    lemma_tracks_frame(index, t, t2, e, e + size, pairs.take(j));
    let idx2 = index.push(s2);
    let pj = pairs.take(j + 1);
    assert(slot_ok(t2, e + size, s2, p));
    assert forall|i: int| 0 <= i < idx2.len() implies slot_ok(
        t2,
        e + size,
        #[trigger] idx2[i],
        pj[i],
    ) by {
        if i < j {
            assert(idx2[i] == index[i]);
            assert(pj[i] == pairs.take(j)[i]);
            assert(slot_ok(t2, e + size, index[i], pairs.take(j)[i]));
        }
    }
}

/// The log of one partition: where it lies, and an index of what it holds.
pub struct RecordLog {
    base: usize,
    bank: usize,
    second: bool,
    end: usize,
    live: usize,
    spare_blank: bool,
    index: Vec<Slot>,
    buckets: HashMap<u64, Vec<usize>>,
}

impl RecordLog {
    /// Where the partition begins on the device.
    pub closed spec fn base(&self) -> int {
        self.base as int
    }

    /// The size of one of its two banks.
    pub closed spec fn bank(&self) -> int {
        self.bank as int
    }

    /// The log knows the other bank to be erased.
    pub closed spec fn spare_blank(&self) -> bool {
        self.spare_blank
    }

    /// The index is that of the log on the device.
    #[verifier::opaque]
    pub closed spec fn wf(&self, dev: DeviceState) -> bool {
        let area = active_area(dev.bytes, self.base as int, self.bank as int);
        &&& fits(dev, self.base as int, self.bank as int)
        &&& self.second == second_active(dev.bytes, self.base as int, self.bank as int)
        &&& log_ok(area)
        &&& self.end == log_end(area, 0)
        &&& tracks(self.index@, area, self.end as int, contents(area))
        &&& bucketed(self.index@, self.buckets@)
        &&& self.live == live_size(contents(area))
        &&& self.live <= self.end <= self.bank - 1
        &&& self.spare_blank ==> spare_erased(dev.bytes, self.base as int, self.bank as int)
    }

    /// Scans the partition at `base` with banks of `bank` bytes, builds the
    /// index of its log, and counts the records that have no commit marker
    /// and are not given up. Such a record counts for nothing.
    fn scan(dev: &FlashDevice, base: usize, bank: usize) -> (r: Result<
        (RecordLog, usize),
        StoreError,
    >)
        requires
            dev.wf(),
            fits(dev@, base as int, bank as int),
        ensures
            r is Ok <==> log_ok(active_area(dev@.bytes, base as int, bank as int)),
            r is Err ==> r->Err_0 == StoreError::Corrupt,
            r matches Ok(found) ==> {
                &&& found.0.wf(dev@)
                &&& found.0.base() == base
                &&& found.0.bank() == bank
                &&& found.0.second == second_active(dev@.bytes, base as int, bank as int)
                &&& found.0.spare_blank() == spare_erased(dev@.bytes, base as int, bank as int)
                &&& found.1 == pending(
                    records(active_area(dev@.bytes, base as int, bank as int), 0),
                )
            },
    {
        let marker = dev.read(base + bank, 1).unwrap();
        let second: bool = marker[0] == BANK_ACTIVE;
        let from: usize = if second {
            base + bank
        } else {
            base
        };
        let start: usize = from + 1;
        let cap: usize = bank - 1;
        let ghost bytes = dev@.bytes;
        let ghost area = active_area(bytes, base as int, bank as int);
        assert(area == bytes.subrange(start as int, start + cap));
        let mut index: Vec<Slot> = Vec::new();
        let mut buckets: HashMap<u64, Vec<usize>> = HashMap::new();
        let mut live: usize = 0;
        let mut unsettled: usize = 0;
        let mut pos: usize = 0;
        let ghost mut seen: Seq<Rec> = Seq::empty();
        assert(records(area, 0) =~= seen + records(area, 0));
        loop
            invariant
                dev.wf(),
                bytes == dev@.bytes,
                start + cap <= bytes.len(),
                area == bytes.subrange(start as int, start + cap),
                area == active_area(bytes, base as int, bank as int),
                pos <= cap,
                records(area, 0) == seen + records(area, pos as int),
                log_end(area, 0) == log_end(area, pos as int),
                all_intact(seen),
                tracks(index@, area, pos as int, pairs_of(seen)),
                bucketed(index@, buckets@),
                live == live_size(pairs_of(seen)),
                live <= pos,
                unsettled == pending(seen),
                unsettled <= pos,
            ensures
                record_at(area, pos as int) is None,
            decreases cap - pos,
        {
            let f = match read_header(dev, start, cap, pos) {
                Some(f) => f,
                None => {
                    break ;
                },
            };
            let ghost h = f.header();
            let ghost rec = rec_at(area, pos as int, h);
            let total: usize = HEADER_LEN + f.ns_len + f.key_len + f.val_len;
            proof {
                lemma_scan_step(area, seen, pos as int, h);
                lemma_pairs_push(seen, rec);
                lemma_tracks_frame(index@, area, area, pos as int, pos + total, pairs_of(seen));
            }
            if f.state == STATE_VALID || f.state == STATE_TOMBSTONE {
                let slot = match load_slot(dev, start, cap, pos, &f) {
                    Some(slot) => slot,
                    None => {
                        proof {
                            assert(!records(area, 0)[seen.len() as int].intact());
                        }
                        return Err(StoreError::Corrupt);
                    },
                };
                proof {
                    lemma_pairs_distinct(seen);
                    lemma_live_size_put(pairs_of(seen), pair_of(rec));
                    lemma_live_size_drop(pairs_of(seen), rec.ns, rec.key);
                    if has_key(pairs_of(seen), rec.ns, rec.key) {
                        let s = slot_of(pairs_of(seen), rec.ns, rec.key);
                        assert(holds_at(pairs_of(seen), rec.ns, rec.key, s));
                        lemma_live_size_update(pairs_of(seen), s, pair_of(rec));
                    }
                }
                if f.state == STATE_VALID {
                    let freed = upsert_slot(
                        &mut index,
                        &mut buckets,
                        slot,
                        Ghost(area),
                        Ghost(pos + total),
                        Ghost(pairs_of(seen)),
                        Ghost(pair_of(rec)),
                    );
                    live = live - freed + total;
                } else {
                    let freed = remove_slot(
                        &mut index,
                        &mut buckets,
                        slot.ns.as_slice(),
                        slot.key.as_slice(),
                        Ghost(area),
                        Ghost(pos + total),
                        Ghost(pairs_of(seen)),
                    );
                    live = live - freed;
                }
            }
            if f.state == STATE_WRITING {
                unsettled = unsettled + 1;
            }
            proof {
                lemma_pending_push(seen, rec);
                seen = seen.push(rec);
            }
            pos = pos + total;
        }
        proof {
            lemma_scan_done(area, seen, pos as int);
            lemma_tail_cells(bytes, start as int, cap as int, pos as int);
        }
        if !is_blank(dev, start + pos, cap - pos) {
            return Err(StoreError::Corrupt);
        }
        let spare_from: usize = if second {
            base
        } else {
            base + bank
        };
        let spare_blank = is_blank(dev, spare_from, bank);
        let log = RecordLog { base, bank, second, end: pos, live, spare_blank, index, buckets };
        proof {
            log.lemma_wf_scanned(dev@);
        }
        return Ok((log, unsettled));
    }

    /// Opens the log of the partition at `base` with banks of `bank`
    /// bytes: scans it, gives up each record whose commit marker was never
    /// programmed, and builds the index. Such a record counts for nothing,
    /// so what the partition holds is what was last committed.
    pub fn open(dev: &mut FlashDevice, base: usize, bank: usize) -> (r: Result<
        RecordLog,
        StoreError,
    >)
        requires
            old(dev).wf(),
            fits(old(dev)@, base as int, bank as int),
        ensures
            final(dev).wf(),
            ({
                let a0 = active_area(old(dev)@.bytes, base as int, bank as int);
                if !log_ok(a0) {
                    r is Err && r->Err_0 == StoreError::Corrupt && final(dev)@ == old(dev)@
                } else {
                    &&& ran(
                        old(dev)@,
                        final(dev)@,
                        base as int,
                        base + 2 * bank,
                        pending(records(a0, 0)),
                        r is Ok,
                    )
                    &&& r is Err ==> r->Err_0 == StoreError::IoError
                    &&& stored(final(dev)@.bytes, base as int, bank as int) == stored(
                        old(dev)@.bytes,
                        base as int,
                        bank as int,
                    )
                    &&& log_ok(active_area(final(dev)@.bytes, base as int, bank as int))
                    &&& spare_erased(final(dev)@.bytes, base as int, bank as int) == spare_erased(
                        old(dev)@.bytes,
                        base as int,
                        bank as int,
                    )
                    &&& r matches Ok(log) ==> {
                        &&& log.wf(final(dev)@)
                        &&& log.base() == base
                        &&& log.bank() == bank
                        &&& log.spare_blank() == spare_erased(
                            final(dev)@.bytes,
                            base as int,
                            bank as int,
                        )
                        &&& pending(
                            records(active_area(final(dev)@.bytes, base as int, bank as int), 0),
                        ) == 0
                    }
                }
            }),
    {
        let ghost dev0 = dev@;
        let (log, unsettled) = match RecordLog::scan(dev, base, bank) {
            Ok(found) => found,
            Err(e) => {
                return Err(e);
            },
        };
        if unsettled == 0 {
            proof {
                lemma_ran_none(dev0, base as int, base + 2 * bank);
            }
            return Ok(log);
        }
        let second: bool = log.second;
        let ok = settle(dev, base, bank, second);
        proof {
            let n = pending(records(active_area(dev0.bytes, base as int, bank as int), 0));
            lemma_marker_kept(dev0, dev@, base as int, bank as int, second, n, ok);
        }
        if !ok {
            return Err(StoreError::IoError);
        }
        match RecordLog::scan(dev, base, bank) {
            Ok(found) => Ok(found.0),
            Err(e) => Err(e),
        }
    }

    /// The invariant of a log whose index a scan has built.
    proof fn lemma_wf_scanned(self, dev: DeviceState)
        requires
            fits(dev, self.base as int, self.bank as int),
            self.second == second_active(dev.bytes, self.base as int, self.bank as int),
            log_ok(active_area(dev.bytes, self.base as int, self.bank as int)),
            self.end == log_end(active_area(dev.bytes, self.base as int, self.bank as int), 0),
            tracks(
                self.index@,
                active_area(dev.bytes, self.base as int, self.bank as int),
                self.end as int,
                stored(dev.bytes, self.base as int, self.bank as int),
            ),
            bucketed(self.index@, self.buckets@),
            self.live == live_size(stored(dev.bytes, self.base as int, self.bank as int)),
            self.live <= self.end <= self.bank - 1,
            self.spare_blank ==> spare_erased(dev.bytes, self.base as int, self.bank as int),
        ensures
            self.wf(dev),
    {
        reveal(RecordLog::wf);
    }
    /// The size of the value stored under `ns` and `key`, if there is one.
    pub fn size_of(&self, dev: &FlashDevice, ns: &[u8], key: &[u8]) -> (r: Option<usize>)
        requires
            self.wf(dev@),
        ensures
            r == (match lookup(stored(dev@.bytes, self.base(), self.bank()), ns@, key@) {
                Some(v) => Some(v.len() as usize),
                None => None,
            }),
            lookup(stored(dev@.bytes, self.base(), self.bank()), ns@, key@) matches Some(v)
                ==> v.len() <= usize::MAX,
    {
        let ghost area = active_area(dev@.bytes, self.base as int, self.bank as int);
        let ghost pairs = contents(area);
        proof {
            reveal(RecordLog::wf);
            lemma_pairs_distinct(records(area, 0));
        }
        match find_slot(&self.index, &self.buckets, ns, key) {
            Some(i) => {
                proof {
                    lemma_found(self.index@, area, self.end as int, pairs, ns@, key@, i as int);
                    assert(slot_ok(area, self.end as int, self.index@[i as int], pairs[i as int]));
                }
                Some(self.index[i].len)
            },
            None => {
                proof {
                    lemma_not_found(self.index@, area, self.end as int, pairs, ns@, key@);
                }
                None
            },
        }
    }

    /// The value stored under `ns` and `key`, for a caller who knows its
    /// size.
    pub fn read(&self, dev: &FlashDevice, ns: &[u8], key: &[u8], size: usize) -> (r: Result<
        Vec<u8>,
        StoreError,
    >)
        requires
            dev.wf(),
            self.wf(dev@),
        ensures
            match lookup(stored(dev@.bytes, self.base(), self.bank()), ns@, key@) {
                None => r is Err && r->Err_0 == StoreError::KeyNotFound,
                Some(v) => if v.len() != size {
                    r is Err && r->Err_0 == StoreError::SizeMismatch
                } else {
                    r is Ok && r->Ok_0@ == v
                },
            },
    {
        let ghost area = active_area(dev@.bytes, self.base as int, self.bank as int);
        let ghost pairs = contents(area);
        proof {
            reveal(RecordLog::wf);
            lemma_pairs_distinct(records(area, 0));
        }
        match find_slot(&self.index, &self.buckets, ns, key) {
            Some(i) => {
                proof {
                    lemma_found(self.index@, area, self.end as int, pairs, ns@, key@, i as int);
                    assert(slot_ok(area, self.end as int, self.index@[i as int], pairs[i as int]));
                }
                let slot = &self.index[i];
                if slot.len != size {
                    return Err(StoreError::SizeMismatch);
                }
                let from: usize = if self.second {
                    self.base + self.bank
                } else {
                    self.base
                };
                let at: usize = slot.at + HEADER_LEN + slot.ns.len() + slot.key.len();
                let value = dev.read(from + 1 + at, size).unwrap();
                proof {
                    assert(value@ =~= pairs[i as int].value);
                }
                Ok(value)
            },
            None => {
                proof {
                    lemma_not_found(self.index@, area, self.end as int, pairs, ns@, key@);
                }
                Err(StoreError::KeyNotFound)
            },
        }
    }
    /// Operations in the record cells of the log's bank leave the marker and
    /// the other bank as they were.
    proof fn lemma_same_bank(self, dev0: DeviceState, dev1: DeviceState, n: nat)
        requires
            self.wf(dev0),
            ran(
                dev0,
                dev1,
                area_from(self.base as int, self.bank as int, self.second),
                area_to(self.base as int, self.bank as int, self.second),
                n,
                true,
            ),
        ensures
            fits(dev1, self.base as int, self.bank as int),
            second_active(dev1.bytes, self.base as int, self.bank as int) == self.second,
            self.spare_blank ==> spare_erased(dev1.bytes, self.base as int, self.bank as int),
            active_area(dev1.bytes, self.base as int, self.bank as int) == area_of(
                dev1.bytes,
                self.base as int,
                self.bank as int,
                self.second,
            ),
            active_area(dev0.bytes, self.base as int, self.bank as int) == area_of(
                dev0.bytes,
                self.base as int,
                self.bank as int,
                self.second,
            ),
    {
        reveal(RecordLog::wf);
        reveal(ran);
        let base = self.base as int;
        let bank = self.bank as int;
        assert(dev1.bytes[base + bank] == dev0.bytes[base + bank]);
        if self.spare_blank {
            let from = bank_start(base, bank, !self.second);
            assert forall|i: int| from <= i < from + bank implies #[trigger] dev1.bytes[i]
                == 0xFFu8 by {
                assert(dev0.bytes[i] == 0xFFu8);
            }
        }
    }

    /// A record without its commit marker behind the log: the log holds
    /// what it held.
    proof fn lemma_wf_pending(
        self,
        after: RecordLog,
        dev0: DeviceState,
        dev1: DeviceState,
        n: nat,
        ns: Seq<u8>,
        key: Seq<u8>,
        val_len: nat,
        sum: nat,
    )
        requires
            self.wf(dev0),
            ran(
                dev0,
                dev1,
                area_from(self.base as int, self.bank as int, self.second),
                area_to(self.base as int, self.bank as int, self.second),
                n,
                true,
            ),
            grown(
                area_of(dev0.bytes, self.base as int, self.bank as int, self.second),
                area_of(dev1.bytes, self.base as int, self.bank as int, self.second),
                STATE_WRITING,
                ns,
                key,
                val_len,
                sum,
            ),
            sum < 0x1_0000_0000,
            self.end + HEADER_LEN + ns.len() + key.len() + val_len <= self.bank - 1,
            after.base == self.base,
            after.bank == self.bank,
            after.second == self.second,
            after.spare_blank == self.spare_blank,
            after.index == self.index,
            after.buckets == self.buckets,
            after.live == self.live,
            after.end == self.end + HEADER_LEN + ns.len() + key.len() + val_len,
        ensures
            after.wf(dev1),
            stored(dev1.bytes, self.base as int, self.bank as int) == stored(
                dev0.bytes,
                self.base as int,
                self.bank as int,
            ),
    {
        reveal(RecordLog::wf);
        let a = area_of(dev0.bytes, self.base as int, self.bank as int, self.second);
        let b = area_of(dev1.bytes, self.base as int, self.bank as int, self.second);
        self.lemma_same_bank(dev0, dev1, n);
        lemma_appended(a, b, STATE_WRITING, ns, key, val_len, sum);
        assert(forall|i: int| 0 <= i < self.end ==> a[i] == b[i]) by {
            reveal(grown);
        }
        lemma_tracks_frame(self.index@, a, b, self.end as int, after.end as int, contents(a));
    }

    /// A committed record behind the log: what the index has to hold.
    proof fn lemma_commit_index(
        self,
        dev0: DeviceState,
        dev1: DeviceState,
        n: nat,
        ns: Seq<u8>,
        key: Seq<u8>,
        value: Seq<u8>,
        sum: nat,
        slot: Slot,
    )
        requires
            self.wf(dev0),
            ran(
                dev0,
                dev1,
                area_from(self.base as int, self.bank as int, self.second),
                area_to(self.base as int, self.bank as int, self.second),
                n,
                true,
            ),
            grown(
                area_of(dev0.bytes, self.base as int, self.bank as int, self.second),
                area_of(dev1.bytes, self.base as int, self.bank as int, self.second),
                STATE_VALID,
                ns,
                key,
                value.len(),
                sum,
            ),
            self.end + HEADER_LEN + ns.len() + key.len() + value.len() <= self.bank - 1,
            area_of(dev1.bytes, self.base as int, self.bank as int, self.second).subrange(
                self.end + HEADER_LEN + ns.len() + key.len(),
                self.end + HEADER_LEN + ns.len() + key.len() + value.len(),
            ) == value,
            sum == digest(ns + key + value),
            sum < 0x1_0000_0000,
            slot.ns@ == ns,
            slot.key@ == key,
            slot.at == self.end,
            slot.len == value.len(),
        ensures
            ({
                let a = area_of(dev0.bytes, self.base as int, self.bank as int, self.second);
                let b = area_of(dev1.bytes, self.base as int, self.bank as int, self.second);
                let p = Pair { ns, key, value };
                let end = self.end + pair_size(p);
                let freed = if has_key(contents(a), ns, key) {
                    pair_size(contents(a)[slot_of(contents(a), ns, key)])
                } else {
                    0
                };
                &&& a == active_area(dev0.bytes, self.base as int, self.bank as int)
                &&& b == active_area(dev1.bytes, self.base as int, self.bank as int)
                &&& fits(dev1, self.base as int, self.bank as int)
                &&& self.spare_blank ==> spare_erased(dev1.bytes, self.base as int, self.bank as int)
                &&& second_active(dev1.bytes, self.base as int, self.bank as int) == self.second
                &&& log_ok(b)
                &&& log_end(b, 0) == end
                &&& contents(b) == put(contents(a), p)
                &&& distinct(contents(a))
                &&& bucketed(self.index@, self.buckets@)
                &&& tracks(self.index@, b, end, contents(a))
                &&& slot_ok(b, end, slot, p)
                &&& self.live == live_size(contents(a))
                &&& live_size(put(contents(a), p)) <= end
                &&& live_size(put(contents(a), p)) == self.live - freed + pair_size(p)
                &&& freed <= self.live
            }),
    {
        let a = area_of(dev0.bytes, self.base as int, self.bank as int, self.second);
        let b = area_of(dev1.bytes, self.base as int, self.bank as int, self.second);
        let p = Pair { ns, key, value };
        let end = self.end + pair_size(p);
        reveal(RecordLog::wf);
        self.lemma_same_bank(dev0, dev1, n);
        lemma_appended(a, b, STATE_VALID, ns, key, value.len(), sum);
        assert(forall|i: int| 0 <= i < self.end ==> a[i] == b[i]) by {
            reveal(grown);
        }
        lemma_tracks_frame(self.index@, a, b, self.end as int, end, contents(a));
        lemma_pairs_distinct(records(a, 0));
        lemma_live_size_put(contents(a), p);
        if has_key(contents(a), ns, key) {
            let s = slot_of(contents(a), ns, key);
            assert(holds_at(contents(a), ns, key, s));
            lemma_live_size_update(contents(a), s, p);
        }
    }

    /// What the log's invariant says of the cells behind the log.
    proof fn lemma_tail(self, dev: DeviceState)
        requires
            self.wf(dev),
        ensures
            fits(dev, self.base as int, self.bank as int),
            self.second == second_active(dev.bytes, self.base as int, self.bank as int),
            0 <= self.end == log_end(
                area_of(dev.bytes, self.base as int, self.bank as int, self.second),
                0,
            ),
            blank(
                area_of(dev.bytes, self.base as int, self.bank as int, self.second),
                self.end as int,
                self.bank - 1,
            ),
            area_of(dev.bytes, self.base as int, self.bank as int, self.second).len() == self.bank
                - 1,
            self.live <= self.end <= self.bank - 1,
            self.live == live_size(stored(dev.bytes, self.base as int, self.bank as int)),
            self.index@.len() == stored(dev.bytes, self.base as int, self.bank as int).len(),
    {
        reveal(RecordLog::wf);
    }

    /// The log's invariant once a committed record lies behind the log and
    /// the index holds it.
    proof fn lemma_wf_committed(
        self,
        after: RecordLog,
        dev0: DeviceState,
        dev1: DeviceState,
        held: Seq<Pair>,
        size: nat,
    )
        requires
            ({
                let b = area_of(dev1.bytes, self.base as int, self.bank as int, self.second);
                let end = self.end + size;
                &&& b == active_area(dev1.bytes, self.base as int, self.bank as int)
                &&& fits(dev1, self.base as int, self.bank as int)
                &&& self.spare_blank ==> spare_erased(dev1.bytes, self.base as int, self.bank as int)
                &&& second_active(dev1.bytes, self.base as int, self.bank as int) == self.second
                &&& log_ok(b)
                &&& log_end(b, 0) == end
                &&& contents(b) == held
                &&& tracks(after.index@, b, end, held)
                &&& bucketed(after.index@, after.buckets@)
                &&& after.live == live_size(held)
                &&& after.live <= end <= self.bank - 1
                &&& after.end == end
            }),
            after.base == self.base,
            after.bank == self.bank,
            after.second == self.second,
            after.spare_blank == self.spare_blank,
        ensures
            after.wf(dev1),
            stored(dev1.bytes, self.base as int, self.bank as int) == held,
    {
        reveal(RecordLog::wf);
    }

    /// A committed tombstone behind the log: what the index has to hold.
    proof fn lemma_forget_index(
        self,
        dev0: DeviceState,
        dev1: DeviceState,
        n: nat,
        ns: Seq<u8>,
        key: Seq<u8>,
        sum: nat,
    )
        requires
            self.wf(dev0),
            ran(
                dev0,
                dev1,
                area_from(self.base as int, self.bank as int, self.second),
                area_to(self.base as int, self.bank as int, self.second),
                n,
                true,
            ),
            grown(
                area_of(dev0.bytes, self.base as int, self.bank as int, self.second),
                area_of(dev1.bytes, self.base as int, self.bank as int, self.second),
                STATE_TOMBSTONE,
                ns,
                key,
                0,
                sum,
            ),
            self.end + HEADER_LEN + ns.len() + key.len() <= self.bank - 1,
            sum == digest(ns + key + Seq::<u8>::empty()),
            sum < 0x1_0000_0000,
        ensures
            ({
                let a = area_of(dev0.bytes, self.base as int, self.bank as int, self.second);
                let b = area_of(dev1.bytes, self.base as int, self.bank as int, self.second);
                let end = self.end + HEADER_LEN + ns.len() + key.len();
                let freed = if has_key(contents(a), ns, key) {
                    pair_size(contents(a)[slot_of(contents(a), ns, key)])
                } else {
                    0
                };
                &&& a == active_area(dev0.bytes, self.base as int, self.bank as int)
                &&& b == active_area(dev1.bytes, self.base as int, self.bank as int)
                &&& fits(dev1, self.base as int, self.bank as int)
                &&& self.spare_blank ==> spare_erased(dev1.bytes, self.base as int, self.bank as int)
                &&& second_active(dev1.bytes, self.base as int, self.bank as int) == self.second
                &&& log_ok(b)
                &&& log_end(b, 0) == end
                &&& contents(b) == drop_key(contents(a), ns, key)
                &&& distinct(contents(a))
                &&& bucketed(self.index@, self.buckets@)
                &&& tracks(self.index@, b, end, contents(a))
                &&& self.live == live_size(contents(a))
                &&& live_size(drop_key(contents(a), ns, key)) == self.live - freed
                &&& freed <= self.live <= self.end
            }),
    {
        let a = area_of(dev0.bytes, self.base as int, self.bank as int, self.second);
        let b = area_of(dev1.bytes, self.base as int, self.bank as int, self.second);
        let end = self.end + HEADER_LEN + ns.len() + key.len();
        reveal(RecordLog::wf);
        self.lemma_same_bank(dev0, dev1, n);
        let from = value_from(a, ns, key);
        assert(b.subrange(from, from + 0) =~= Seq::<u8>::empty());
        lemma_appended(a, b, STATE_TOMBSTONE, ns, key, 0, sum);
        assert(forall|i: int| 0 <= i < self.end ==> a[i] == b[i]) by {
            reveal(grown);
        }
        lemma_tracks_frame(self.index@, a, b, self.end as int, end, contents(a));
        lemma_pairs_distinct(records(a, 0));
        lemma_live_size_drop(contents(a), ns, key);
        if has_key(contents(a), ns, key) {
            let s = slot_of(contents(a), ns, key);
            assert(holds_at(contents(a), ns, key, s));
            lemma_live_size_update(contents(a), s, contents(a)[s]);
        }
    }

    /// Takes what the committed tombstone behind the log removes out of
    /// the index.
    fn index_forget(
        &mut self,
        ns: &[u8],
        key: &[u8],
        Ghost(dev0): Ghost<DeviceState>,
        Ghost(dev1): Ghost<DeviceState>,
        Ghost(sum): Ghost<nat>,
    )
        requires
            old(self).wf(dev0),
            ran(
                dev0,
                dev1,
                area_from(old(self).base as int, old(self).bank as int, old(self).second),
                area_to(old(self).base as int, old(self).bank as int, old(self).second),
                3,
                true,
            ),
            grown(
                area_of(dev0.bytes, old(self).base as int, old(self).bank as int, old(self).second),
                area_of(dev1.bytes, old(self).base as int, old(self).bank as int, old(self).second),
                STATE_TOMBSTONE,
                ns@,
                key@,
                0,
                sum,
            ),
            old(self).end + HEADER_LEN + ns@.len() + key@.len() <= old(self).bank - 1,
            sum == digest(ns@ + key@ + Seq::<u8>::empty()),
            sum < 0x1_0000_0000,
        ensures
            final(self).wf(dev1),
            final(self).base == old(self).base,
            final(self).bank == old(self).bank,
            final(self).second == old(self).second,
            final(self).spare_blank == old(self).spare_blank,
            stored(dev1.bytes, old(self).base as int, old(self).bank as int) == drop_key(
                stored(dev0.bytes, old(self).base as int, old(self).bank as int),
                ns@,
                key@,
            ),
    {
        let ghost a = area_of(dev0.bytes, self.base as int, self.bank as int, self.second);
        let ghost b = area_of(dev1.bytes, self.base as int, self.bank as int, self.second);
        let size: usize = HEADER_LEN + ns.len() + key.len();
        proof {
            self.lemma_forget_index(dev0, dev1, 3, ns@, key@, sum);
        }
        let end: usize = self.end + size;
        let freed = remove_slot(
            &mut self.index,
            &mut self.buckets,
            ns,
            key,
            Ghost(b),
            Ghost(end as int),
            Ghost(contents(a)),
        );
        self.live = self.live - freed;
        self.end = end;
        proof {
            old(self).lemma_wf_committed(
                *self,
                dev0,
                dev1,
                drop_key(contents(a), ns@, key@),
                size as nat,
            );
        }
    }

    /// Takes the committed record behind the log into the index.
    fn index_commit(
        &mut self,
        slot: Slot,
        Ghost(dev0): Ghost<DeviceState>,
        Ghost(dev1): Ghost<DeviceState>,
        Ghost(value): Ghost<Seq<u8>>,
        Ghost(sum): Ghost<nat>,
    )
        requires
            old(self).wf(dev0),
            ran(
                dev0,
                dev1,
                area_from(old(self).base as int, old(self).bank as int, old(self).second),
                area_to(old(self).base as int, old(self).bank as int, old(self).second),
                3,
                true,
            ),
            grown(
                area_of(dev0.bytes, old(self).base as int, old(self).bank as int, old(self).second),
                area_of(dev1.bytes, old(self).base as int, old(self).bank as int, old(self).second),
                STATE_VALID,
                slot.ns@,
                slot.key@,
                value.len(),
                sum,
            ),
            old(self).end + HEADER_LEN + slot.ns@.len() + slot.key@.len() + value.len() <= old(self).bank - 1,
            area_of(
                dev1.bytes,
                old(self).base as int,
                old(self).bank as int,
                old(self).second,
            ).subrange(
                old(self).end + HEADER_LEN + slot.ns@.len() + slot.key@.len(),
                old(self).end + HEADER_LEN + slot.ns@.len() + slot.key@.len() + value.len(),
            ) == value,
            sum == digest(slot.ns@ + slot.key@ + value),
            sum < 0x1_0000_0000,
            slot.at == old(self).end,
            slot.len == value.len(),
        ensures
            final(self).wf(dev1),
            final(self).base == old(self).base,
            final(self).bank == old(self).bank,
            final(self).second == old(self).second,
            final(self).spare_blank == old(self).spare_blank,
            stored(dev1.bytes, old(self).base as int, old(self).bank as int) == put(
                stored(dev0.bytes, old(self).base as int, old(self).bank as int),
                Pair { ns: slot.ns@, key: slot.key@, value },
            ),
    {
        let ghost p = Pair { ns: slot.ns@, key: slot.key@, value };
        let ghost a = area_of(dev0.bytes, self.base as int, self.bank as int, self.second);
        let ghost b = area_of(dev1.bytes, self.base as int, self.bank as int, self.second);
        let size: usize = HEADER_LEN + slot.ns.len() + slot.key.len() + slot.len;
        proof {
            self.lemma_commit_index(dev0, dev1, 3, slot.ns@, slot.key@, value, sum, slot);
        }
        let end: usize = self.end + size;
        let freed = upsert_slot(
            &mut self.index,
            &mut self.buckets,
            slot,
            Ghost(b),
            Ghost(end as int),
            Ghost(contents(a)),
            Ghost(p),
        );
        self.live = self.live - freed + size;
        self.end = end;
        proof {
            old(self).lemma_wf_committed(*self, dev0, dev1, put(contents(a), p), size as nat);
        }
    }
    /// Appends a record for `data` under `ns` and `key`: the header, the
    /// value, the commit marker `mark`, each by one program operation.
    fn append(
        &mut self,
        dev: &mut FlashDevice,
        ns: &[u8],
        key: &[u8],
        data: &[u8],
        mark: u8,
    ) -> (ok: bool)
        requires
            old(dev).wf(),
            old(self).wf(old(dev)@),
            HEADER_LEN + ns@.len() + key@.len() + data@.len() <= old(self).bank - 1 - old(self).end,
            mark == STATE_VALID || (mark == STATE_TOMBSTONE && data@.len() == 0),
        ensures
            final(dev).wf(),
            final(self).wf(final(dev)@),
            final(self).base == old(self).base,
            final(self).bank == old(self).bank,
            final(self).second == old(self).second,
            final(self).spare_blank == old(self).spare_blank,
            ran(
                old(dev)@,
                final(dev)@,
                area_from(old(self).base as int, old(self).bank as int, old(self).second),
                area_to(old(self).base as int, old(self).bank as int, old(self).second),
                3,
                ok,
            ),
            ok ==> stored(final(dev)@.bytes, old(self).base as int, old(self).bank as int) == apply(
                stored(old(dev)@.bytes, old(self).base as int, old(self).bank as int),
                Rec { state: mark, ns: ns@, key: key@, value: data@, sum: 0 },
            ),
            !ok ==> stored(final(dev)@.bytes, old(self).base as int, old(self).bank as int)
                == stored(old(dev)@.bytes, old(self).base as int, old(self).bank as int),
    {
        let base: usize = self.base;
        let bank: usize = self.bank;
        let second: bool = self.second;
        let e: usize = self.end;
        let ghost dev0 = dev@;
        let ghost area0 = area_of(dev0.bytes, base as int, bank as int, second);
        let ghost from = area_from(base as int, bank as int, second);
        let ghost to = area_to(base as int, bank as int, second);
        proof {
            self.lemma_tail(dev0);
        }
        let body: usize = ns.len() + key.len();
        let size: usize = HEADER_LEN + body + data.len();
        let sum: u32 = body_digest(ns, key, data);
        let head = build_head(STATE_WRITING, ns, key, data.len() as u32, sum);
        proof {
            lemma_head_written(
                area0,
                head@,
                STATE_WRITING,
                ns@,
                key@,
                data@.len() as nat,
                sum as nat,
            );
        }
        if !program_area(dev, base, bank, second, e, head.as_slice()) {
            proof {
                lemma_ran_short(dev0, dev@, from, to, 1, 2);
            }
            return false;
        }
        let ghost dev1 = dev@;
        let ghost area1 = area_of(dev1.bytes, base as int, bank as int, second);
        proof {
            old(self).lemma_same_bank(dev0, dev1, 1);
            lemma_value_written(area0, area1, data@, ns@, key@, sum as nat);
        }
        if !program_area(dev, base, bank, second, e + HEADER_LEN + body, data) {
            self.end = e + size;
            proof {
                lemma_ran_then(dev0, dev1, dev@, from, to, 1, 1, false);
                lemma_ran_short(dev0, dev@, from, to, 2, 1);
                old(self).lemma_wf_pending(
                    *self,
                    dev0,
                    dev1,
                    1,
                    ns@,
                    key@,
                    data@.len() as nat,
                    sum as nat,
                );
            }
            return false;
        }
        let ghost dev2 = dev@;
        let ghost area2 = area_of(dev2.bytes, base as int, bank as int, second);
        proof {
            lemma_ran_then(dev0, dev1, dev2, from, to, 1, 1, true);
            old(self).lemma_same_bank(dev0, dev2, 2);
            lemma_marker_written(area0, area2, mark, ns@, key@, data@.len() as nat, sum as nat);
        }
        let mut marker: Vec<u8> = Vec::new();
        marker.push(mark);
        assert(marker@ =~= seq![mark]);
        let ok = program_area(dev, base, bank, second, e, marker.as_slice());
        proof {
            lemma_ran_then(dev0, dev2, dev@, from, to, 2, 1, ok);
        }
        if !ok {
            self.end = e + size;
            proof {
                old(self).lemma_wf_pending(
                    *self,
                    dev0,
                    dev2,
                    2,
                    ns@,
                    key@,
                    data@.len() as nat,
                    sum as nat,
                );
            }
            return false;
        }
        if mark == STATE_VALID {
            let slot = Slot {
                ns: copy_range(ns, 0, ns.len()),
                key: copy_range(key, 0, key.len()),
                at: e,
                len: data.len(),
            };
            proof {
                assert(slot.ns@ =~= ns@);
                assert(slot.key@ =~= key@);
            }
            self.index_commit(slot, Ghost(dev0), Ghost(dev@), Ghost(data@), Ghost(sum as nat));
        } else {
            proof {
                assert(data@ =~= Seq::<u8>::empty());
            }
            self.index_forget(ns, key, Ghost(dev0), Ghost(dev@), Ghost(sum as nat));
        }
        true
    }
    /// What the log's invariant says of the index.
    proof fn lemma_index(self, dev: DeviceState)
        requires
            self.wf(dev),
        ensures
            tracks(
                self.index@,
                area_of(dev.bytes, self.base as int, self.bank as int, self.second),
                self.end as int,
                stored(dev.bytes, self.base as int, self.bank as int),
            ),
            distinct(stored(dev.bytes, self.base as int, self.bank as int)),
            bucketed(self.index@, self.buckets@),
            self.spare_blank ==> region_erased(
                dev.bytes,
                bank_start(self.base as int, self.bank as int, !self.second),
                bank_start(self.base as int, self.bank as int, !self.second) + self.bank,
            ),
            dev.bytes[self.base + self.bank] == BANK_ACTIVE <==> self.second,
    {
        reveal(RecordLog::wf);
        lemma_pairs_distinct(
            records(active_area(dev.bytes, self.base as int, self.bank as int), 0),
        );
    }

    /// The log's invariant when only the other bank has changed.
    proof fn lemma_wf_spare(self, after: RecordLog, dev0: DeviceState, dev1: DeviceState)
        requires
            self.wf(dev0),
            fits(dev1, self.base as int, self.bank as int),
            area_of(dev1.bytes, self.base as int, self.bank as int, self.second) == area_of(
                dev0.bytes,
                self.base as int,
                self.bank as int,
                self.second,
            ),
            dev1.bytes[self.base + self.bank] == BANK_ACTIVE <==> self.second,
            after.base == self.base,
            after.bank == self.bank,
            after.second == self.second,
            after.end == self.end,
            after.live == self.live,
            after.index == self.index,
            after.buckets == self.buckets,
            after.spare_blank ==> region_erased(
                dev1.bytes,
                bank_start(self.base as int, self.bank as int, !self.second),
                bank_start(self.base as int, self.bank as int, !self.second) + self.bank,
            ),
        ensures
            after.wf(dev1),
            stored(dev1.bytes, self.base as int, self.bank as int) == stored(
                dev0.bytes,
                self.base as int,
                self.bank as int,
            ),
    {
        reveal(RecordLog::wf);
    }

    /// The log's invariant once the marker says that the other bank, with
    /// its copy of every stored pair, holds the log.
    proof fn lemma_wf_moved(
        self,
        after: RecordLog,
        dev0: DeviceState,
        dev1: DeviceState,
        dev2: DeviceState,
    )
        requires
            self.wf(dev0),
            fits(dev1, self.base as int, self.bank as int),
            copied(
                after.index@,
                area_of(dev1.bytes, self.base as int, self.bank as int, !self.second),
                stored(dev0.bytes, self.base as int, self.bank as int),
                self.live as int,
            ),
            ran(dev1, dev2, self.base + self.bank, self.base + self.bank + 1, 1, true),
            dev2.bytes[self.base + self.bank] == (if self.second {
                BANK_RETIRED
            } else {
                BANK_ACTIVE
            }),
            after.base == self.base,
            after.bank == self.bank,
            after.second == !self.second,
            after.end == self.live,
            after.live == self.live,
            after.buckets == self.buckets,
            !after.spare_blank,
        ensures
            after.wf(dev2),
            stored(dev2.bytes, self.base as int, self.bank as int) == stored(
                dev0.bytes,
                self.base as int,
                self.bank as int,
            ),
    {
        reveal(RecordLog::wf);
        reveal(ran);
        reveal(copied);
        let base = self.base as int;
        let bank = self.bank as int;
        assert(area_of(dev2.bytes, base, bank, !self.second) =~= area_of(
            dev1.bytes,
            base,
            bank,
            !self.second,
        ));
        let a = active_area(dev0.bytes, base, bank);
        let t = area_of(dev1.bytes, base, bank, !self.second);
        let pairs = contents(a);
        assert forall|i: int| 0 <= i < self.index@.len() implies self.index@[i].ns@
            == after.index@[i].ns@ && self.index@[i].key@ == after.index@[i].key@ by {
            assert(slot_ok(a, self.end as int, self.index@[i], pairs[i]));
            assert(slot_ok(t, self.live as int, after.index@[i], pairs[i]));
        }
        lemma_bucketed_same_keys(self.index@, after.index@, self.buckets@);
    }

    /// Copies the record of each stored pair, in the order of the index,
    /// into the other bank, which is erased.
    fn copy_live(&self, dev: &mut FlashDevice) -> (r: Option<Vec<Slot>>)
        requires
            old(dev).wf(),
            self.wf(old(dev)@),
            region_erased(
                old(dev)@.bytes,
                bank_start(self.base as int, self.bank as int, !self.second),
                bank_start(self.base as int, self.bank as int, !self.second) + self.bank,
            ),
        ensures
            final(dev).wf(),
            ran(
                old(dev)@,
                final(dev)@,
                area_from(self.base as int, self.bank as int, !self.second),
                area_to(self.base as int, self.bank as int, !self.second),
                self.index@.len(),
                r is Some,
            ),
            r matches Some(idx) ==> copied(
                idx@,
                area_of(final(dev)@.bytes, self.base as int, self.bank as int, !self.second),
                stored(old(dev)@.bytes, self.base as int, self.bank as int),
                self.live as int,
            ),
    {
        let base: usize = self.base;
        let bank: usize = self.bank;
        let second: bool = self.second;
        let n: usize = self.index.len();
        proof {
            self.lemma_tail(dev@);
        }
        let src: usize = if second {
            base + bank + 1
        } else {
            base + 1
        };
        let ghost dev0 = dev@;
        let ghost a0 = area_of(dev0.bytes, base as int, bank as int, second);
        let ghost pairs = stored(dev0.bytes, base as int, bank as int);
        let ghost tfrom = area_from(base as int, bank as int, !second);
        let ghost tto = area_to(base as int, bank as int, !second);
        let mut out: Vec<Slot> = Vec::new();
        let mut e: usize = 0;
        let mut j: usize = 0;
        proof {
            self.lemma_tail(dev0);
            self.lemma_index(dev0);
            lemma_ran_none(dev0, tfrom, tto);
            let t0 = area_of(dev0.bytes, base as int, bank as int, !second);
            lemma_blank_log(t0);
            assert(pairs.take(0) =~= Seq::<Pair>::empty());
            assert(copied(out@, t0, pairs.take(0), 0)) by {
                reveal(copied);
            }
        }
        while j < n
            invariant
                j <= n,
                n == self.index@.len(),
                n == pairs.len(),
                dev0 == old(dev)@,
                base == self.base,
                bank == self.bank,
                second == self.second,
                src == bank_start(base as int, bank as int, second) + 1,
                tfrom == area_from(base as int, bank as int, !second),
                tto == area_to(base as int, bank as int, !second),
                dev.wf(),
                fits(dev@, base as int, bank as int),
                ran(dev0, dev@, tfrom, tto, j as nat, true),
                area_of(dev@.bytes, base as int, bank as int, second) == a0,
                a0.len() == bank - 1,
                tracks(self.index@, a0, self.end as int, pairs),
                distinct(pairs),
                live_size(pairs) <= bank - 1,
                self.live == live_size(pairs),
                copied(
                    out@,
                    area_of(dev@.bytes, base as int, bank as int, !second),
                    pairs.take(j as int),
                    e as int,
                ),
            decreases n - j,
        {
            let slot = &self.index[j];
            let ghost t = area_of(dev@.bytes, base as int, bank as int, !second);
            let ghost dj = dev@;
            let s2 = Slot { ns: slot.ns.clone(), key: slot.key.clone(), at: e, len: slot.len };
            proof {
                assert(slot_ok(a0, self.end as int, self.index@[j as int], pairs[j as int]));
                lemma_copied_step(a0, t, out@, pairs, j as int, self.index@, self.end as int, e as int, s2);
            }
            let size: usize = HEADER_LEN + slot.ns.len() + slot.key.len() + slot.len;
            let rec_bytes = dev.read(src + slot.at, size).unwrap();
            proof {
                assert(rec_bytes@ =~= a0.subrange(slot.at as int, slot.at + size));
            }
            if !program_area(dev, base, bank, !second, e, rec_bytes.as_slice()) {
                proof {
                    lemma_ran_then(dev0, dj, dev@, tfrom, tto, j as nat, 1, false);
                    lemma_ran_short(dev0, dev@, tfrom, tto, (j + 1) as nat, (n - j - 1) as nat);
                    assert((j + 1) as nat + (n - j - 1) as nat == self.index@.len());
                }
                return None;
            }
            proof {
                lemma_first_cell(dj, dev@, base as int, bank as int, !second, 1, true);
                lemma_other_bank(dj, dev@, base as int, bank as int, second, 1, true);
                lemma_ran_then(dev0, dj, dev@, tfrom, tto, j as nat, 1, true);
            }
            out.push(s2);
            e = e + size;
            j = j + 1;
        }
        proof {
            assert(pairs.take(n as int) =~= pairs);
            assert(e == self.live) by {
                reveal(copied);
            }
        }
        Some(out)
    }

    /// Erases the bank that does not hold the log, unless it is known to
    /// be erased.
    fn wipe_spare(&mut self, dev: &mut FlashDevice) -> (ok: bool)
        requires
            old(dev).wf(),
            old(self).wf(old(dev)@),
        ensures
            final(dev).wf(),
            final(self).wf(final(dev)@),
            final(self).base == old(self).base,
            final(self).bank == old(self).bank,
            final(self).second == old(self).second,
            final(self).end == old(self).end,
            final(self).live == old(self).live,
            final(self).spare_blank == ok,
            stored(final(dev)@.bytes, old(self).base as int, old(self).bank as int) == stored(
                old(dev)@.bytes,
                old(self).base as int,
                old(self).bank as int,
            ),
            ran(
                old(dev)@,
                final(dev)@,
                old(self).base as int,
                old(self).base + 2 * old(self).bank,
                if old(self).spare_blank {
                    0nat
                } else {
                    (old(self).bank as nat) / old(dev)@.unit
                },
                ok,
            ),
    {
        let ghost dev0 = dev@;
        let ghost base = self.base as int;
        let ghost bank = self.bank as int;
        if self.spare_blank {
            proof {
                lemma_ran_none(dev0, base, base + 2 * bank);
            }
            return true;
        }
        proof {
            self.lemma_tail(dev0);
            self.lemma_index(dev0);
        }
        let ok = erase_bank(dev, self.base, self.bank, !self.second);
        self.spare_blank = ok;
        proof {
            let from = bank_start(base, bank, !self.second);
            lemma_other_bank(dev0, dev@, base, bank, self.second, (bank as nat) / dev0.unit, ok);
            lemma_ran_wider(
                dev0,
                dev@,
                from,
                from + bank,
                base,
                base + 2 * bank,
                (bank as nat) / dev0.unit,
                ok,
            );
            old(self).lemma_wf_spare(*self, dev0, dev@);
        }
        ok
    }

    /// Copies what is stored into the other bank, which is erased, and
    /// programs the marker that makes that bank the log's.
    fn move_log(&mut self, dev: &mut FlashDevice) -> (ok: bool)
        requires
            old(dev).wf(),
            old(self).wf(old(dev)@),
            old(self).spare_blank,
        ensures
            final(dev).wf(),
            final(self).wf(final(dev)@),
            final(self).base == old(self).base,
            final(self).bank == old(self).bank,
            !final(self).spare_blank,
            ok ==> final(self).end == old(self).live && final(self).live == old(self).live,
            stored(final(dev)@.bytes, old(self).base as int, old(self).bank as int) == stored(
                old(dev)@.bytes,
                old(self).base as int,
                old(self).bank as int,
            ),
            ran(
                old(dev)@,
                final(dev)@,
                old(self).base as int,
                old(self).base + 2 * old(self).bank,
                stored(old(dev)@.bytes, old(self).base as int, old(self).bank as int).len() + 1,
                ok,
            ),
    {
        let ghost dev0 = dev@;
        let ghost base = self.base as int;
        let ghost bank = self.bank as int;
        let ghost n = self.index@.len();
        let second: bool = self.second;
        let ghost tfrom = area_from(base, bank, !second);
        let ghost tto = area_to(base, bank, !second);
        proof {
            self.lemma_tail(dev0);
            self.lemma_index(dev0);
        }
        let moved = self.copy_live(dev);
        let ghost dev1 = dev@;
        self.spare_blank = false;
        proof {
            lemma_first_cell(dev0, dev1, base, bank, !second, n, moved is Some);
            lemma_other_bank(dev0, dev1, base, bank, second, n, moved is Some);
            lemma_ran_wider(dev0, dev1, tfrom, tto, base, base + 2 * bank, n, moved is Some);
            old(self).lemma_wf_spare(*self, dev0, dev1);
        }
        let idx = match moved {
            Some(idx) => idx,
            None => {
                proof {
                    lemma_ran_short(dev0, dev1, base, base + 2 * bank, n, 1);
                }
                return false;
            },
        };
        let value: u8 = if second {
            BANK_RETIRED
        } else {
            BANK_ACTIVE
        };
        proof {
            assert(0xFEu8 & 0xFCu8 == 0xFCu8) by (bit_vector);
            lemma_erased_is_programmable(BANK_ACTIVE);
        }
        let ok = program_marker(dev, self.base, self.bank, value);
        proof {
            lemma_ran_wider(
                dev1,
                dev@,
                base + bank,
                base + bank + 1,
                base,
                base + 2 * bank,
                1,
                ok,
            );
            lemma_ran_then(dev0, dev1, dev@, base, base + 2 * bank, n, 1, ok);
        }
        if !ok {
            return false;
        }
        self.second = !second;
        self.index = idx;
        self.end = self.live;
        proof {
            old(self).lemma_wf_moved(*self, dev0, dev1, dev@);
        }
        true
    }

    /// Compaction: the log moves to the other bank with one record for each
    /// stored pair, and the bank that held it is erased.
    fn squeeze(&mut self, dev: &mut FlashDevice) -> (ok: bool)
        requires
            old(dev).wf(),
            old(self).wf(old(dev)@),
        ensures
            final(dev).wf(),
            final(self).wf(final(dev)@),
            final(self).base == old(self).base,
            final(self).bank == old(self).bank,
            ok ==> final(self).end == old(self).live && final(self).live == old(self).live,
            final(self).spare_blank == ok,
            stored(final(dev)@.bytes, old(self).base as int, old(self).bank as int) == stored(
                old(dev)@.bytes,
                old(self).base as int,
                old(self).bank as int,
            ),
            ran(
                old(dev)@,
                final(dev)@,
                old(self).base as int,
                old(self).base + 2 * old(self).bank,
                compaction_cost(
                    old(dev)@,
                    old(self).base as int,
                    old(self).bank as int,
                    old(self).spare_blank,
                ),
                ok,
            ),
    {
        let ghost dev0 = dev@;
        let ghost base = self.base as int;
        let ghost bank = self.bank as int;
        let ghost to = base + 2 * bank;
        let ghost units = (bank as nat) / dev0.unit;
        let ghost n = stored(dev0.bytes, base, bank).len();
        let ghost first = if self.spare_blank {
            0nat
        } else {
            units
        };
        proof {
            reveal(ran);
        }
        if !self.wipe_spare(dev) {
            proof {
                lemma_ran_short(dev0, dev@, base, to, first, n + 1 + units);
            }
            return false;
        }
        let ghost dev1 = dev@;
        if !self.move_log(dev) {
            proof {
                lemma_ran_then(dev0, dev1, dev@, base, to, first, n + 1, false);
                lemma_ran_short(dev0, dev@, base, to, first + n + 1, units);
            }
            return false;
        }
        let ghost dev2 = dev@;
        proof {
            lemma_ran_then(dev0, dev1, dev2, base, to, first, n + 1, true);
        }
        let ok = self.wipe_spare(dev);
        proof {
            lemma_ran_then(dev0, dev2, dev@, base, to, first + n + 1, units, ok);
        }
        ok
    }
    /// A partition whose cells are all erased holds an empty log.
    proof fn lemma_wf_erased(self, dev: DeviceState)
        requires
            fits(dev, self.base as int, self.bank as int),
            region_erased(dev.bytes, self.base as int, self.base + 2 * self.bank),
            !self.second,
            self.end == 0,
            self.live == 0,
            self.index@.len() == 0,
        ensures
            self.wf(dev),
            stored(dev.bytes, self.base as int, self.bank as int) == Seq::<Pair>::empty(),
    {
        reveal(RecordLog::wf);
        let base = self.base as int;
        let bank = self.bank as int;
        assert(dev.bytes[base + bank] == 0xFFu8);
        let area = active_area(dev.bytes, base, bank);
        assert forall|i: int| 0 <= i < area.len() implies #[trigger] area[i] == 0xFFu8 by {
            assert(dev.bytes[base + 1 + i] == 0xFFu8);
        }
        lemma_blank_log(area);
    }

    /// The log's invariant rests on the partition's own cells alone.
    pub proof fn lemma_wf_frame(self, dev0: DeviceState, dev1: DeviceState)
        requires
            self.wf(dev0),
            dev1.unit == dev0.unit,
            dev1.bytes.len() == dev0.bytes.len(),
            forall|i: int|
                self.base() <= i < self.base() + 2 * self.bank() ==> dev0.bytes[i]
                    == dev1.bytes[i],
        ensures
            self.wf(dev1),
            fits(dev0, self.base(), self.bank()),
    {
        reveal(RecordLog::wf);
        lemma_stored_frame(dev0.bytes, dev1.bytes, self.base as int, self.bank as int);
    }

    /// What the invariant says to callers.
    pub proof fn lemma_wf_means(self, dev: DeviceState)
        requires
            self.wf(dev),
        ensures
            fits(dev, self.base(), self.bank()),
            log_ok(active_area(dev.bytes, self.base(), self.bank())),
            self.spare_blank() ==> spare_erased(dev.bytes, self.base(), self.bank()),
    {
        reveal(RecordLog::wf);
    }

    /// Erases the partition at `base` with banks of `bank` bytes, unit by
    /// unit, and gives the log of the empty partition.
    pub fn format(dev: &mut FlashDevice, base: usize, bank: usize) -> (r: Result<
        RecordLog,
        StoreError,
    >)
        requires
            old(dev).wf(),
            fits(old(dev)@, base as int, bank as int),
        ensures
            final(dev).wf(),
            ran(
                old(dev)@,
                final(dev)@,
                base as int,
                base + 2 * bank,
                2 * ((bank as nat) / old(dev)@.unit),
                r is Ok,
            ),
            r is Err ==> r->Err_0 == StoreError::IoError,
            r matches Ok(log) ==> {
                &&& log.wf(final(dev)@)
                &&& log.base() == base
                &&& log.bank() == bank
                &&& log.spare_blank()
                &&& stored(final(dev)@.bytes, base as int, bank as int) == Seq::<Pair>::empty()
                &&& region_erased(final(dev)@.bytes, base as int, base + 2 * bank)
            },
    {
        let ghost dev0 = dev@;
        let ghost units = (bank as nat) / dev0.unit;
        let ghost to = base + 2 * bank;
        if !erase_bank(dev, base, bank, false) {
            proof {
                lemma_ran_wider(dev0, dev@, base as int, base + bank, base as int, to, units, false);
                lemma_ran_short(dev0, dev@, base as int, to, units, units);
            }
            return Err(StoreError::IoError);
        }
        let ghost dev1 = dev@;
        let ok = erase_bank(dev, base, bank, true);
        proof {
            lemma_ran_means(dev0, dev1, base as int, base + bank, units, true);
            lemma_ran_means(dev1, dev@, base + bank, to, units, ok);
            lemma_ran_wider(dev0, dev1, base as int, base + bank, base as int, to, units, true);
            lemma_ran_wider(dev1, dev@, base + bank, to, base as int, to, units, ok);
            lemma_ran_then(dev0, dev1, dev@, base as int, to, units, units, ok);
        }
        if !ok {
            return Err(StoreError::IoError);
        }
        let log = RecordLog {
            base,
            bank,
            second: false,
            end: 0,
            live: 0,
            spare_blank: true,
            index: Vec::new(),
            buckets: HashMap::new(),
        };
        proof {
            assert forall|i: int| base <= i < to implies #[trigger] dev@.bytes[i] == 0xFFu8 by {
                if i < base + bank {
                    assert(dev1.bytes[i] == 0xFFu8);
                }
            }
            log.lemma_wf_erased(dev@);
        }
        Ok(log)
    }

    /// Compaction: the log moves to the other bank with one record for each
    /// stored pair, and the bank that held it is erased. What the partition
    /// holds stays, whether the device faults or not.
    pub fn compact(&mut self, dev: &mut FlashDevice) -> (r: Result<(), StoreError>)
        requires
            old(dev).wf(),
            old(self).wf(old(dev)@),
        ensures
            final(dev).wf(),
            final(self).wf(final(dev)@),
            final(self).base() == old(self).base(),
            final(self).bank() == old(self).bank(),
            final(self).spare_blank() == (r is Ok),
            r is Err ==> r->Err_0 == StoreError::IoError,
            r is Ok ==> log_end(
                active_area(final(dev)@.bytes, old(self).base(), old(self).bank()),
                0,
            ) == live_size(stored(old(dev)@.bytes, old(self).base(), old(self).bank())),
            stored(final(dev)@.bytes, old(self).base(), old(self).bank()) == stored(
                old(dev)@.bytes,
                old(self).base(),
                old(self).bank(),
            ),
            ran(
                old(dev)@,
                final(dev)@,
                old(self).base(),
                old(self).base() + 2 * old(self).bank(),
                compaction_cost(
                    old(dev)@,
                    old(self).base(),
                    old(self).bank(),
                    old(self).spare_blank(),
                ),
                r is Ok,
            ),
    {
        proof {
            self.lemma_tail(dev@);
        }
        let ok = self.squeeze(dev);
        proof {
            self.lemma_tail(dev@);
        }
        if ok {
            Ok(())
        } else {
            Err(StoreError::IoError)
        }
    }

    /// Appends a committed record: behind the log where it fits there,
    /// else behind the log that a compaction leaves.
    fn write_record(
        &mut self,
        dev: &mut FlashDevice,
        ns: &[u8],
        key: &[u8],
        data: &[u8],
        mark: u8,
    ) -> (r: Result<(), StoreError>)
        requires
            old(dev).wf(),
            old(self).wf(old(dev)@),
            mark == STATE_VALID || (mark == STATE_TOMBSTONE && data@.len() == 0),
        ensures
            final(dev).wf(),
            final(self).wf(final(dev)@),
            final(self).base() == old(self).base(),
            final(self).bank() == old(self).bank(),
            ({
                let base = old(self).base();
                let bank = old(self).bank();
                let before = stored(old(dev)@.bytes, base, bank);
                let after = stored(final(dev)@.bytes, base, bank);
                let size = HEADER_LEN + ns@.len() + key@.len() + data@.len();
                let in_tail = log_end(active_area(old(dev)@.bytes, base, bank), 0) + size
                    <= capacity(bank);
                let cost = put_cost(old(dev)@, base, bank, old(self).spare_blank(), size as nat);
                if live_size(before) + size > capacity(bank) {
                    &&& r is Err
                    &&& r->Err_0 == StoreError::PartitionFull
                    &&& final(dev)@ == old(dev)@
                    &&& final(self).spare_blank() == old(self).spare_blank()
                } else {
                    &&& ran(old(dev)@, final(dev)@, base, base + 2 * bank, cost, r is Ok)
                    &&& r is Err ==> r->Err_0 == StoreError::IoError && after == before
                    &&& r is Ok ==> after == apply(
                        before,
                        Rec { state: mark, ns: ns@, key: key@, value: data@, sum: 0 },
                    )
                    &&& final(self).spare_blank() == (if in_tail {
                        old(self).spare_blank()
                    } else {
                        affords(
                            old(dev)@.budget,
                            compaction_cost(old(dev)@, base, bank, old(self).spare_blank()),
                        )
                    })
                }
            }),
    {
        let ghost dev0 = dev@;
        let ghost base = self.base as int;
        let ghost bank = self.bank as int;
        let ghost to = base + 2 * bank;
        let ghost cc = compaction_cost(dev0, base, bank, self.spare_blank);
        proof {
            self.lemma_tail(dev0);
        }
        let size: usize = match checked_size(ns.len(), key.len(), data.len()) {
            Some(size) => size,
            None => {
                return Err(StoreError::PartitionFull);
            },
        };
        if size > self.bank - 1 - self.live {
            return Err(StoreError::PartitionFull);
        }
        let ghost squeezed = size > self.bank - 1 - self.end;
        if size > self.bank - 1 - self.end {
            let squeezed_ok = self.squeeze(dev);
            proof {
                lemma_ran_means(dev0, dev@, base, to, cc, squeezed_ok);
            }
            if !squeezed_ok {
                proof {
                    lemma_ran_short(dev0, dev@, base, to, cc, 3);
                }
                return Err(StoreError::IoError);
            }
        } else {
            proof {
                lemma_ran_none(dev0, base, to);
            }
        }
        let ghost dev1 = dev@;
        let ghost first = if squeezed {
            cc
        } else {
            0nat
        };
        let ghost from = area_from(base, bank, self.second);
        let ok = self.append(dev, ns, key, data, mark);
        proof {
            lemma_ran_wider(dev1, dev@, from, from + bank - 1, base, to, 3, ok);
            lemma_ran_then(dev0, dev1, dev@, base, to, first, 3, ok);
        }
        if ok {
            Ok(())
        } else {
            Err(StoreError::IoError)
        }
    }

    /// Stores `data` under `ns` and `key`. The record is appended behind
    /// the log, after a compaction where it does not fit there, and counts
    /// from the moment its commit marker is programmed: if the device
    /// faults, the partition holds what it held.
    pub fn put(&mut self, dev: &mut FlashDevice, ns: &[u8], key: &[u8], data: &[u8]) -> (r: Result<
        (),
        StoreError,
    >)
        requires
            old(dev).wf(),
            old(self).wf(old(dev)@),
        ensures
            final(dev).wf(),
            final(self).wf(final(dev)@),
            final(self).base() == old(self).base(),
            final(self).bank() == old(self).bank(),
            ({
                let base = old(self).base();
                let bank = old(self).bank();
                let before = stored(old(dev)@.bytes, base, bank);
                let after = stored(final(dev)@.bytes, base, bank);
                let p = Pair { ns: ns@, key: key@, value: data@ };
                let in_tail = log_end(active_area(old(dev)@.bytes, base, bank), 0) + pair_size(p)
                    <= capacity(bank);
                let cost = put_cost(old(dev)@, base, bank, old(self).spare_blank(), pair_size(p));
                if live_size(before) + pair_size(p) > capacity(bank) {
                    &&& r is Err
                    &&& r->Err_0 == StoreError::PartitionFull
                    &&& final(dev)@ == old(dev)@
                    &&& final(self).spare_blank() == old(self).spare_blank()
                } else {
                    &&& ran(old(dev)@, final(dev)@, base, base + 2 * bank, cost, r is Ok)
                    &&& r is Err ==> r->Err_0 == StoreError::IoError && after == before
                    &&& r is Ok ==> after == put(before, p)
                    &&& final(self).spare_blank() == (if in_tail {
                        old(self).spare_blank()
                    } else {
                        affords(
                            old(dev)@.budget,
                            compaction_cost(old(dev)@, base, bank, old(self).spare_blank()),
                        )
                    })
                }
            }),
    {
        self.write_record(dev, ns, key, data, STATE_VALID)
    }

    /// Removes what is stored under `ns` and `key`: a tombstone is appended
    /// behind the log, as a record is, and the value is gone from the
    /// moment the tombstone's commit marker is programmed. If the device
    /// faults, the partition holds what it held.
    pub fn remove(&mut self, dev: &mut FlashDevice, ns: &[u8], key: &[u8]) -> (r: Result<
        (),
        StoreError,
    >)
        requires
            old(dev).wf(),
            old(self).wf(old(dev)@),
        ensures
            final(dev).wf(),
            final(self).wf(final(dev)@),
            final(self).base() == old(self).base(),
            final(self).bank() == old(self).bank(),
            ({
                let base = old(self).base();
                let bank = old(self).bank();
                let before = stored(old(dev)@.bytes, base, bank);
                let after = stored(final(dev)@.bytes, base, bank);
                let size = tombstone_size(ns@, key@);
                let in_tail = log_end(active_area(old(dev)@.bytes, base, bank), 0) + size
                    <= capacity(bank);
                let cost = put_cost(old(dev)@, base, bank, old(self).spare_blank(), size);
                if lookup(before, ns@, key@) is None {
                    &&& r is Err
                    &&& r->Err_0 == StoreError::KeyNotFound
                    &&& final(dev)@ == old(dev)@
                    &&& final(self).spare_blank() == old(self).spare_blank()
                } else if live_size(before) + size > capacity(bank) {
                    &&& r is Err
                    &&& r->Err_0 == StoreError::PartitionFull
                    &&& final(dev)@ == old(dev)@
                    &&& final(self).spare_blank() == old(self).spare_blank()
                } else {
                    &&& ran(old(dev)@, final(dev)@, base, base + 2 * bank, cost, r is Ok)
                    &&& r is Err ==> r->Err_0 == StoreError::IoError && after == before
                    &&& r is Ok ==> after == drop_key(before, ns@, key@)
                    &&& final(self).spare_blank() == (if in_tail {
                        old(self).spare_blank()
                    } else {
                        affords(
                            old(dev)@.budget,
                            compaction_cost(old(dev)@, base, bank, old(self).spare_blank()),
                        )
                    })
                }
            }),
    {
        proof {
            self.lemma_tail(dev@);
            self.lemma_index(dev@);
        }
        let ghost area = area_of(dev@.bytes, self.base as int, self.bank as int, self.second);
        let ghost pairs = stored(dev@.bytes, self.base as int, self.bank as int);
        match find_slot(&self.index, &self.buckets, ns, key) {
            Some(i) => {
                proof {
                    lemma_found(self.index@, area, self.end as int, pairs, ns@, key@, i as int);
                }
            },
            None => {
                proof {
                    lemma_not_found(self.index@, area, self.end as int, pairs, ns@, key@);
                }
                return Err(StoreError::KeyNotFound);
            },
        }
        let nothing: Vec<u8> = Vec::new();
        self.write_record(dev, ns, key, nothing.as_slice(), STATE_TOMBSTONE)
    }
}

} // verus!
