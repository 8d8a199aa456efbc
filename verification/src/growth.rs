//! What a record behind a log makes of the log: the three steps in which
//! a record is written, and what a scan finds after each of them.

use vstd::prelude::*;
use crate::codec::{digest_more, push_le32};
use crate::device::{lemma_erased_is_programmable, overwrite, region_programmable};
use crate::record::{
    blank,
    contents,
    digest,
    drop_key,
    header_bytes,
    is_committed,
    is_record_state,
    lemma_digest_concat,
    lemma_header_canonical,
    lemma_header_reads_back,
    lemma_log_end,
    lemma_pairs_push,
    lemma_scan_frame,
    log_end,
    log_ok,
    pair_of,
    put,
    rec_at,
    record_at,
    records,
    DIGEST_SEED,
    Header,
    HEADER_LEN,
    Pair,
    Rec,
    STATE_TOMBSTONE,
    STATE_VALID,
    STATE_WRITING,
};

verus! {

/// A record behind a log: the records are those of the log and this one.
pub proof fn lemma_log_append(a: Seq<u8>, b: Seq<u8>, h: Header)
    requires
        a.len() == b.len(),
        forall|i: int| 0 <= i < log_end(a, 0) ==> a[i] == b[i],
        record_at(b, log_end(a, 0)) == Some(h),
        blank(b, log_end(a, 0) + h.record_len(), b.len() as int),
    ensures
        records(b, 0) == records(a, 0).push(rec_at(b, log_end(a, 0), h)),
        log_end(b, 0) == log_end(a, 0) + h.record_len(),
{
    let e = log_end(a, 0);
    let next = e + h.record_len();
    lemma_scan_frame(a, b, 0);
    assert(record_at(b, next) is None) by {
        if next + HEADER_LEN <= b.len() {
            assert(b[next] == 0xFFu8);
        }
    }
    assert(records(b, next) =~= Seq::<Rec>::empty());
    assert(records(b, e) =~= seq![rec_at(b, e, h)]);
    assert(records(a, 0) + seq![rec_at(b, e, h)] =~= records(a, 0).push(rec_at(b, e, h)));
    assert(log_end(b, next) == next);
    assert(log_end(b, e) == next);
}

/// `b` is `a` with a record of the given fields behind its log, and erased
/// cells behind the record.
#[verifier::opaque]
pub open spec fn grown(
    a: Seq<u8>,
    b: Seq<u8>,
    state: u8,
    ns: Seq<u8>,
    key: Seq<u8>,
    val_len: nat,
    sum: nat,
) -> bool {
    let e = log_end(a, 0);
    &&& a.len() == b.len()
    &&& forall|i: int| 0 <= i < e ==> a[i] == b[i]
    &&& b.subrange(e, e + HEADER_LEN) == header_bytes(state, ns.len(), key.len(), val_len, sum)
    &&& b.subrange(e + HEADER_LEN, e + HEADER_LEN + ns.len()) == ns
    &&& b.subrange(e + HEADER_LEN + ns.len(), e + HEADER_LEN + ns.len() + key.len()) == key
    &&& blank(b, e + HEADER_LEN + ns.len() + key.len() + val_len, b.len() as int)
}

/// Where the value of the record behind the log of `a` lies.
pub open spec fn value_from(a: Seq<u8>, ns: Seq<u8>, key: Seq<u8>) -> int {
    log_end(a, 0) + HEADER_LEN + ns.len() + key.len()
}

/// What a log holds once a record with the given fields lies behind it.
pub proof fn lemma_appended(
    a: Seq<u8>,
    b: Seq<u8>,
    state: u8,
    ns: Seq<u8>,
    key: Seq<u8>,
    val_len: nat,
    sum: nat,
)
    requires
        log_ok(a),
        0 <= log_end(a, 0),
        log_end(a, 0) + HEADER_LEN + ns.len() + key.len() + val_len <= a.len(),
        ns.len() < 0x1_0000_0000,
        key.len() < 0x1_0000_0000,
        val_len < 0x1_0000_0000,
        sum < 0x1_0000_0000,
        is_record_state(state),
        grown(a, b, state, ns, key, val_len, sum),
    ensures
        log_end(b, 0) == log_end(a, 0) + HEADER_LEN + ns.len() + key.len() + val_len,
        blank(b, log_end(b, 0), b.len() as int),
        !is_committed(state) ==> contents(b) == contents(a) && log_ok(b),
        ({
            let from = value_from(a, ns, key);
            let value = b.subrange(from, from + val_len);
            state == STATE_VALID && sum == digest(ns + key + value) ==> log_ok(b) && contents(b)
                == put(contents(a), Pair { ns, key, value }) && record_at(b, log_end(a, 0))
                is Some && rec_at(b, log_end(a, 0), record_at(b, log_end(a, 0))->Some_0) == (Rec {
                state,
                ns,
                key,
                value,
                sum,
            })
        }),
        ({
            let from = value_from(a, ns, key);
            let value = b.subrange(from, from + val_len);
            state == STATE_TOMBSTONE && sum == digest(ns + key + value) ==> log_ok(b) && contents(
                b,
            ) == drop_key(contents(a), ns, key)
        }),
{
    reveal(grown);
    let e = log_end(a, 0);
    let h = Header { state, ns_len: ns.len(), key_len: key.len(), val_len, sum };
    lemma_header_reads_back(b, e, state, ns.len(), key.len(), val_len, sum);
    assert(record_at(b, e) == Some(h));
    lemma_log_append(a, b, h);
    let rec = rec_at(b, e, h);
    lemma_pairs_push(records(a, 0), rec);
    let from = e + HEADER_LEN + ns.len() + key.len();
    let value = b.subrange(from, from + val_len);
    assert(rec == Rec { state, ns, key, value, sum });
    assert(pair_of(rec) == Pair { ns, key, value });
    let ra = records(a, 0);
    let rb = records(b, 0);
    if !is_committed(state) || sum == digest(ns + key + value) {
        assert forall|i: int| 0 <= i < rb.len() && is_committed(rb[i].state) implies (
        #[trigger] rb[i]).intact() by {
            if i < ra.len() {
                assert(rb[i] == ra[i]);
                assert(ra[i].intact());
            } else {
                assert(rb[i] == rec);
            }
        }
    }
}

/// A record whose header lies behind the log and whose commit marker was
/// never programmed counts for nothing, whatever its body holds: a scan
/// finds the log as it was before the record was begun.
pub proof fn law_record_without_marker(
    a: Seq<u8>,
    b: Seq<u8>,
    ns_len: nat,
    key_len: nat,
    val_len: nat,
    sum: nat,
)
    requires
        log_ok(a),
        a.len() == b.len(),
        log_end(a, 0) + HEADER_LEN + ns_len + key_len + val_len <= a.len(),
        ns_len < 0x1_0000_0000,
        key_len < 0x1_0000_0000,
        val_len < 0x1_0000_0000,
        sum < 0x1_0000_0000,
        forall|i: int| 0 <= i < log_end(a, 0) ==> a[i] == b[i],
        b.subrange(log_end(a, 0), log_end(a, 0) + HEADER_LEN) == header_bytes(
            STATE_WRITING,
            ns_len,
            key_len,
            val_len,
            sum,
        ),
        blank(b, log_end(a, 0) + HEADER_LEN + ns_len + key_len + val_len, b.len() as int),
    ensures
        log_ok(b),
        contents(b) == contents(a),
{
    lemma_log_end(a, 0);
    let e = log_end(a, 0);
    let ns = b.subrange(e + HEADER_LEN, e + HEADER_LEN + ns_len);
    let key = b.subrange(e + HEADER_LEN + ns_len, e + HEADER_LEN + ns_len + key_len);
    assert(grown(a, b, STATE_WRITING, ns, key, val_len, sum)) by {
        reveal(grown);
    }
    lemma_appended(a, b, STATE_WRITING, ns, key, val_len, sum);
}

/// The header of a record in state `state`, and behind it the namespace
/// and the key.
pub fn build_head(state: u8, ns: &[u8], key: &[u8], val_len: u32, sum: u32) -> (head: Vec<u8>)
    requires
        ns@.len() <= u32::MAX,
        key@.len() <= u32::MAX,
    ensures
        head@ == header_bytes(
            state,
            ns@.len() as nat,
            key@.len() as nat,
            val_len as nat,
            sum as nat,
        ) + ns@ + key@,
        head@.len() == HEADER_LEN + ns@.len() + key@.len(),
{
    let mut head: Vec<u8> = Vec::new();
    head.push(state);
    push_le32(&mut head, ns.len() as u32);
    push_le32(&mut head, key.len() as u32);
    push_le32(&mut head, val_len);
    push_le32(&mut head, sum);
    assert(head@ =~= header_bytes(
        state,
        ns@.len() as nat,
        key@.len() as nat,
        val_len as nat,
        sum as nat,
    ));
    head.extend_from_slice(ns);
    head.extend_from_slice(key);
    head
}

/// The digest of a record's body.
pub fn body_digest(ns: &[u8], key: &[u8], data: &[u8]) -> (sum: u32)
    ensures
        sum == digest(ns@ + key@ + data@),
{
    let a = digest_more(DIGEST_SEED, ns);
    let b = digest_more(a, key);
    let c = digest_more(b, data);
    proof {
        lemma_digest_concat(DIGEST_SEED as nat, ns@, key@);
        lemma_digest_concat(DIGEST_SEED as nat, ns@ + key@, data@);
    }
    c
}

/// Erased cells behind the log take a record's header, namespace and key.
pub proof fn lemma_head_written(
    a: Seq<u8>,
    head: Seq<u8>,
    state: u8,
    ns: Seq<u8>,
    key: Seq<u8>,
    val_len: nat,
    sum: nat,
)
    requires
        0 <= log_end(a, 0),
        blank(a, log_end(a, 0), a.len() as int),
        log_end(a, 0) + HEADER_LEN + ns.len() + key.len() + val_len <= a.len(),
        head == header_bytes(state, ns.len(), key.len(), val_len, sum) + ns + key,
    ensures
        region_programmable(a, log_end(a, 0), head),
        grown(a, overwrite(a, log_end(a, 0), head), state, ns, key, val_len, sum),
        blank(overwrite(a, log_end(a, 0), head), value_from(a, ns, key), a.len() as int),
{
    reveal(grown);
    let e = log_end(a, 0);
    let b = overwrite(a, e, head);
    let hb = header_bytes(state, ns.len(), key.len(), val_len, sum);
    assert(hb.len() == HEADER_LEN);
    assert(head.len() == HEADER_LEN + ns.len() + key.len());
    assert forall|i: int| 0 <= i < head.len() implies crate::device::programmable(
        a[e + i],
        #[trigger] head[i],
    ) by {
        lemma_erased_is_programmable(head[i]);
    }
    assert(b.subrange(e, e + HEADER_LEN) =~= hb);
    assert(b.subrange(e + HEADER_LEN, e + HEADER_LEN + ns.len()) =~= ns);
    assert(b.subrange(e + HEADER_LEN + ns.len(), e + HEADER_LEN + ns.len() + key.len()) =~= key);
}

/// The erased cells behind a record's key take its value.
pub proof fn lemma_value_written(
    a: Seq<u8>,
    b: Seq<u8>,
    data: Seq<u8>,
    ns: Seq<u8>,
    key: Seq<u8>,
    sum: nat,
)
    requires
        0 <= log_end(a, 0),
        grown(a, b, STATE_WRITING, ns, key, data.len(), sum),
        blank(b, value_from(a, ns, key), b.len() as int),
        value_from(a, ns, key) + data.len() <= b.len(),
    ensures
        region_programmable(b, value_from(a, ns, key), data),
        grown(a, overwrite(b, value_from(a, ns, key), data), STATE_WRITING, ns, key, data.len(), sum),
        overwrite(b, value_from(a, ns, key), data).subrange(
            value_from(a, ns, key),
            value_from(a, ns, key) + data.len(),
        ) == data,
{
    reveal(grown);
    let e = log_end(a, 0);
    let at = value_from(a, ns, key);
    let c = overwrite(b, at, data);
    assert forall|i: int| 0 <= i < data.len() implies crate::device::programmable(
        b[at + i],
        #[trigger] data[i],
    ) by {
        lemma_erased_is_programmable(data[i]);
    }
    assert(c.subrange(e, e + HEADER_LEN) =~= b.subrange(e, e + HEADER_LEN));
    assert(c.subrange(e + HEADER_LEN, e + HEADER_LEN + ns.len()) =~= b.subrange(
        e + HEADER_LEN,
        e + HEADER_LEN + ns.len(),
    ));
    assert(c.subrange(e + HEADER_LEN + ns.len(), e + HEADER_LEN + ns.len() + key.len())
        =~= b.subrange(e + HEADER_LEN + ns.len(), e + HEADER_LEN + ns.len() + key.len()));
    assert(c.subrange(at, at + data.len()) =~= data);
}

/// The state byte of a record that is being written takes a commit
/// marker, and the record's other cells stay.
pub proof fn lemma_marker_written(
    a: Seq<u8>,
    b: Seq<u8>,
    state: u8,
    ns: Seq<u8>,
    key: Seq<u8>,
    val_len: nat,
    sum: nat,
)
    requires
        0 <= log_end(a, 0),
        log_end(a, 0) + HEADER_LEN + ns.len() + key.len() + val_len <= a.len(),
        grown(a, b, STATE_WRITING, ns, key, val_len, sum),
        is_committed(state),
    ensures
        region_programmable(b, log_end(a, 0), seq![state]),
        grown(a, overwrite(b, log_end(a, 0), seq![state]), state, ns, key, val_len, sum),
        overwrite(b, log_end(a, 0), seq![state]).subrange(
            value_from(a, ns, key),
            value_from(a, ns, key) + val_len,
        ) == b.subrange(value_from(a, ns, key), value_from(a, ns, key) + val_len),
{
    reveal(grown);
    let e = log_end(a, 0);
    let mark = seq![state];
    let c = overwrite(b, e, mark);
    let hw = header_bytes(STATE_WRITING, ns.len(), key.len(), val_len, sum);
    let hv = header_bytes(state, ns.len(), key.len(), val_len, sum);
    assert(b.subrange(e, e + HEADER_LEN)[0] == hw[0]);
    assert(b[e] == STATE_WRITING);
    assert(0xFEu8 & 0xFCu8 == 0xFCu8) by (bit_vector);
    assert(0xFEu8 & 0xFAu8 == 0xFAu8) by (bit_vector);
    assert(hv =~= hw.update(0, state));
    assert(c.subrange(e, e + HEADER_LEN) =~= b.subrange(e, e + HEADER_LEN).update(0, state));
    assert(c.subrange(e + HEADER_LEN, e + HEADER_LEN + ns.len()) =~= b.subrange(
        e + HEADER_LEN,
        e + HEADER_LEN + ns.len(),
    ));
    assert(c.subrange(e + HEADER_LEN + ns.len(), e + HEADER_LEN + ns.len() + key.len())
        =~= b.subrange(e + HEADER_LEN + ns.len(), e + HEADER_LEN + ns.len() + key.len()));
    let from = value_from(a, ns, key);
    assert(c.subrange(from, from + val_len) =~= b.subrange(from, from + val_len));
}

/// An erased area is an empty log.
pub proof fn lemma_blank_log(t: Seq<u8>)
    requires
        blank(t, 0, t.len() as int),
    ensures
        log_ok(t),
        log_end(t, 0) == 0,
        records(t, 0) == Seq::<Rec>::empty(),
        contents(t) == Seq::<Pair>::empty(),
{
    assert(record_at(t, 0) is None) by {
        if HEADER_LEN <= t.len() {
            assert(t[0] == 0xFFu8);
        }
    }
    assert(records(t, 0) =~= Seq::<Rec>::empty());
}

/// The size of a record, if it can be told in a `usize`.
pub fn checked_size(ns_len: usize, key_len: usize, val_len: usize) -> (r: Option<usize>)
    ensures
        match r {
            Some(size) => size == HEADER_LEN + ns_len + key_len + val_len,
            None => HEADER_LEN + ns_len + key_len + val_len > usize::MAX,
        },
{
    let a = match ns_len.checked_add(key_len) {
        Some(a) => a,
        None => {
            return None;
        },
    };
    let b = match a.checked_add(val_len) {
        Some(b) => b,
        None => {
            return None;
        },
    };
    b.checked_add(HEADER_LEN)
}

/// Erased cells behind a log take the cells of a record of another area,
/// and hold the record then.
pub proof fn lemma_record_copied(a: Seq<u8>, t: Seq<u8>, at: int, h: Header)
    requires
        record_at(a, at) == Some(h),
        0 <= log_end(t, 0),
        blank(t, log_end(t, 0), t.len() as int),
        log_end(t, 0) + h.record_len() <= t.len(),
    ensures
        ({
            let e = log_end(t, 0);
            let rec = rec_at(a, at, h);
            let rb = a.subrange(at, at + h.record_len());
            let t2 = overwrite(t, e, rb);
            &&& rec.ns.len() == h.ns_len
            &&& rec.key.len() == h.key_len
            &&& rec.value.len() == h.val_len
            &&& h.ns_len < 0x1_0000_0000
            &&& h.key_len < 0x1_0000_0000
            &&& h.val_len < 0x1_0000_0000
            &&& h.sum < 0x1_0000_0000
            &&& region_programmable(t, e, rb)
            &&& grown(t, t2, h.state, rec.ns, rec.key, h.val_len, h.sum)
            &&& t2.subrange(value_from(t, rec.ns, rec.key), value_from(t, rec.ns, rec.key) + h.val_len)
                == rec.value
            &&& forall|i: int| 0 <= i < e ==> t[i] == t2[i]
        }),
{
    let e = log_end(t, 0);
    let rec = rec_at(a, at, h);
    let size = h.record_len();
    let rb = a.subrange(at, at + size);
    let t2 = overwrite(t, e, rb);
    let n = h.ns_len as int;
    let k = h.key_len as int;
    let v = h.val_len as int;
    lemma_header_canonical(a, at);
    assert forall|i: int| 0 <= i < rb.len() implies crate::device::programmable(
        t[e + i],
        #[trigger] rb[i],
    ) by {
        lemma_erased_is_programmable(rb[i]);
    }
    lemma_placed(t, e, a, at, size as int, 0, HEADER_LEN as int);
    lemma_placed(t, e, a, at, size as int, HEADER_LEN as int, HEADER_LEN + n);
    lemma_placed(t, e, a, at, size as int, HEADER_LEN + n, HEADER_LEN + n + k);
    lemma_placed(t, e, a, at, size as int, HEADER_LEN + n + k, HEADER_LEN + n + k + v);
    assert(blank(t2, e + size, t2.len() as int));
    assert(grown(t, t2, h.state, rec.ns, rec.key, h.val_len, h.sum)) by {
        reveal(grown);
    }
}

/// Cells of `a` from `at` on, placed at `e` in `t`, stand there as they
/// stand in `a`.
proof fn lemma_placed(t: Seq<u8>, e: int, a: Seq<u8>, at: int, size: int, i: int, j: int)
    requires
        0 <= e,
        0 <= at,
        0 <= i <= j <= size,
        e + size <= t.len(),
        at + size <= a.len(),
    ensures
        overwrite(t, e, a.subrange(at, at + size)).subrange(e + i, e + j) == a.subrange(
            at + i,
            at + j,
        ),
        forall|m: int| 0 <= m < e ==> overwrite(t, e, a.subrange(at, at + size))[m] == t[m],
        forall|m: int|
            e + size <= m < t.len() ==> overwrite(t, e, a.subrange(at, at + size))[m] == t[m],
{
    let t2 = overwrite(t, e, a.subrange(at, at + size));
    assert(t2.subrange(e + i, e + j) =~= a.subrange(at + i, at + j));
}

} // verus!
