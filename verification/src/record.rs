//! How a record lies in flash, and what a log of records holds.
//!
//! A record is a header of `HEADER_LEN` bytes followed by its body: the
//! namespace, the key and the value, one after the other. The header's first
//! byte is the record's state; programming it only ever clears bits, so each
//! change of state is one program operation on one byte.
//!
//! | offset | bytes | field                         |
//! |--------|-------|-------------------------------|
//! | 0      | 1     | state                         |
//! | 1      | 4     | length of the namespace       |
//! | 5      | 4     | length of the key             |
//! | 9      | 4     | length of the value           |
//! | 13     | 4     | digest of the body            |
//!
//! Lengths and digest are little-endian.

use vstd::prelude::*;

verus! {

/// The length of a record's header.
pub const HEADER_LEN: usize = 17;

/// State of a record whose header is programmed and whose commit marker is not.
pub const STATE_WRITING: u8 = 0xFE;

/// State of a committed record.
pub const STATE_VALID: u8 = 0xFC;

/// State of a committed record that removes what its namespace and key
/// held.
pub const STATE_TOMBSTONE: u8 = 0xFA;

/// State of a record that was given up.
pub const STATE_ERASED: u8 = 0xF8;

/// The digest of no bytes.
pub const DIGEST_SEED: u32 = 7;

/// The four bytes from `at` on, read as a little-endian number.
pub open spec fn le32(b: Seq<u8>, at: int) -> nat {
    (b[at] as nat) + 256 * (b[at + 1] as nat) + 65536 * (b[at + 2] as nat) + 16777216 * (b[at
        + 3] as nat)
}

/// The four bytes that `le32` reads as `x`.
pub open spec fn le32_bytes(x: nat) -> Seq<u8> {
    seq![
        (x % 256) as u8,
        ((x / 256) % 256) as u8,
        ((x / 65536) % 256) as u8,
        ((x / 16777216) % 256) as u8,
    ]
}

/// The digest after one more byte.
pub open spec fn digest_step(h: nat, b: u8) -> nat {
    (h * 31 + (b as nat) + 1) % 0x1_0000_0000
}

/// The digest `h` after `bytes`: each byte in turn is folded into a 32-bit
/// number.
pub open spec fn digest_from(h: nat, bytes: Seq<u8>) -> nat
    decreases bytes.len(),
{
    if bytes.len() == 0 {
        h
    } else {
        digest_step(digest_from(h, bytes.drop_last()), bytes.last())
    }
}

/// The digest of `bytes`.
pub open spec fn digest(bytes: Seq<u8>) -> nat {
    digest_from(DIGEST_SEED as nat, bytes)
}

/// A record's header, as read from flash.
pub struct Header {
    pub state: u8,
    pub ns_len: nat,
    pub key_len: nat,
    pub val_len: nat,
    pub sum: nat,
}

impl Header {
    /// The length of the body.
    pub open spec fn body_len(self) -> nat {
        self.ns_len + self.key_len + self.val_len
    }

    /// The length of the record, header and body.
    pub open spec fn record_len(self) -> nat {
        HEADER_LEN as nat + self.body_len()
    }
}

/// A record, as read from flash.
pub struct Rec {
    pub state: u8,
    pub ns: Seq<u8>,
    pub key: Seq<u8>,
    pub value: Seq<u8>,
    pub sum: nat,
}

impl Rec {
    /// The record's body.
    pub open spec fn body(self) -> Seq<u8> {
        self.ns + self.key + self.value
    }

    /// The stored digest is the digest of the body.
    pub open spec fn intact(self) -> bool {
        self.sum == digest(self.body())
    }

    /// The length of the record, header and body.
    pub open spec fn len(self) -> nat {
        HEADER_LEN as nat + self.ns.len() + self.key.len() + self.value.len()
    }
}

/// A state byte that begins a record.
pub open spec fn is_record_state(s: u8) -> bool {
    s == STATE_WRITING || s == STATE_VALID || s == STATE_TOMBSTONE || s == STATE_ERASED
}

/// The state byte of a record that counts: its commit marker is programmed.
pub open spec fn is_committed(s: u8) -> bool {
    s == STATE_VALID || s == STATE_TOMBSTONE
}

/// The header fields at `pos`, whatever they hold.
pub open spec fn header_at(area: Seq<u8>, pos: int) -> Header {
    Header {
        state: area[pos],
        ns_len: le32(area, pos + 1),
        key_len: le32(area, pos + 5),
        val_len: le32(area, pos + 9),
        sum: le32(area, pos + 13),
    }
}

/// The header of the record that begins at `pos`; `None` where no record
/// begins there: the state byte is not a record's, or header or body would
/// reach beyond the area.
pub open spec fn record_at(area: Seq<u8>, pos: int) -> Option<Header> {
    let h = header_at(area, pos);
    if 0 <= pos && pos + HEADER_LEN <= area.len() && is_record_state(h.state) && pos
        + h.record_len() <= area.len() {
        Some(h)
    } else {
        None
    }
}

/// The record with header `h` at `pos`.
pub open spec fn rec_at(area: Seq<u8>, pos: int, h: Header) -> Rec {
    let ns_from = pos + HEADER_LEN;
    let key_from = ns_from + h.ns_len;
    let val_from = key_from + h.key_len;
    Rec {
        state: h.state,
        ns: area.subrange(ns_from, key_from),
        key: area.subrange(key_from, val_from),
        value: area.subrange(val_from, val_from + h.val_len),
        sum: h.sum,
    }
}

/// The records from `pos` on, in the order in which they lie, up to the
/// first place where no record begins.
pub open spec fn records(area: Seq<u8>, pos: int) -> Seq<Rec>
    decreases area.len() - pos,
{
    match record_at(area, pos) {
        None => Seq::empty(),
        Some(h) => seq![rec_at(area, pos, h)] + records(area, pos + h.record_len()),
    }
}

/// The first place from `pos` on where no record begins.
pub open spec fn log_end(area: Seq<u8>, pos: int) -> int
    decreases area.len() - pos,
{
    match record_at(area, pos) {
        None => pos,
        Some(h) => log_end(area, pos + h.record_len()),
    }
}

/// Every committed record among `recs` is intact.
pub open spec fn all_intact(recs: Seq<Rec>) -> bool {
    forall|i: int| 0 <= i < recs.len() && is_committed(recs[i].state) ==> (#[trigger] recs[i]).intact()
}

/// Every cell of `area` in `[from, to)` is erased.
pub open spec fn blank(area: Seq<u8>, from: int, to: int) -> bool {
    forall|i: int| from <= i < to ==> #[trigger] area[i] == 0xFFu8
}

/// The area holds a log: records one after the other, the committed ones
/// intact, and nothing but erased cells behind them.
pub open spec fn log_ok(area: Seq<u8>) -> bool {
    &&& all_intact(records(area, 0))
    &&& blank(area, log_end(area, 0), area.len() as int)
}

/// One stored value under its namespace and key.
pub struct Pair {
    pub ns: Seq<u8>,
    pub key: Seq<u8>,
    pub value: Seq<u8>,
}

/// `pairs[i]` is the value stored under `ns` and `key`.
pub open spec fn holds_at(pairs: Seq<Pair>, ns: Seq<u8>, key: Seq<u8>, i: int) -> bool {
    0 <= i < pairs.len() && pairs[i].ns == ns && pairs[i].key == key
}

/// Something is stored under `ns` and `key`.
pub open spec fn has_key(pairs: Seq<Pair>, ns: Seq<u8>, key: Seq<u8>) -> bool {
    exists|i: int| holds_at(pairs, ns, key, i)
}

/// Where the value under `ns` and `key` stands.
pub open spec fn slot_of(pairs: Seq<Pair>, ns: Seq<u8>, key: Seq<u8>) -> int {
    choose|i: int| holds_at(pairs, ns, key, i)
}

/// No two of `pairs` have the same namespace and key.
pub open spec fn distinct(pairs: Seq<Pair>) -> bool {
    forall|i: int, j: int|
        0 <= i < pairs.len() && 0 <= j < pairs.len() && i != j ==> !(#[trigger] pairs[i].ns
            == #[trigger] pairs[j].ns && pairs[i].key == pairs[j].key)
}

/// What is stored under `ns` and `key`.
pub open spec fn lookup(pairs: Seq<Pair>, ns: Seq<u8>, key: Seq<u8>) -> Option<Seq<u8>> {
    if has_key(pairs, ns, key) {
        Some(pairs[slot_of(pairs, ns, key)].value)
    } else {
        None
    }
}

/// `pairs` after `p` was stored: in the place of the value that its
/// namespace and key had, or behind all others where they had none.
pub open spec fn put(pairs: Seq<Pair>, p: Pair) -> Seq<Pair> {
    if has_key(pairs, p.ns, p.key) {
        pairs.update(slot_of(pairs, p.ns, p.key), p)
    } else {
        pairs.push(p)
    }
}

/// `pairs` without what was stored under `ns` and `key`.
pub open spec fn drop_key(pairs: Seq<Pair>, ns: Seq<u8>, key: Seq<u8>) -> Seq<Pair> {
    if has_key(pairs, ns, key) {
        pairs.remove(slot_of(pairs, ns, key))
    } else {
        pairs
    }
}

/// What a record stores.
pub open spec fn pair_of(r: Rec) -> Pair {
    Pair { ns: r.ns, key: r.key, value: r.value }
}

/// What one more record makes of what a log holds: a valid record stores
/// its value under its namespace and key, a tombstone removes what they
/// held, and a record without commit marker counts for nothing.
pub open spec fn apply(pairs: Seq<Pair>, r: Rec) -> Seq<Pair> {
    if r.state == STATE_VALID {
        put(pairs, pair_of(r))
    } else if r.state == STATE_TOMBSTONE {
        drop_key(pairs, r.ns, r.key)
    } else {
        pairs
    }
}

/// What a log of records holds: what its records, each in turn, make of
/// nothing.
pub open spec fn pairs_of(recs: Seq<Rec>) -> Seq<Pair>
    decreases recs.len(),
{
    if recs.len() == 0 {
        Seq::empty()
    } else {
        apply(pairs_of(recs.drop_last()), recs.last())
    }
}

/// The flash that a record for `p` takes.
pub open spec fn pair_size(p: Pair) -> nat {
    HEADER_LEN as nat + p.ns.len() + p.key.len() + p.value.len()
}

/// The flash that one record for each of `pairs` takes.
pub open spec fn live_size(pairs: Seq<Pair>) -> nat
    decreases pairs.len(),
{
    if pairs.len() == 0 {
        0
    } else {
        live_size(pairs.drop_last()) + pair_size(pairs.last())
    }
}

/// What the area holds.
pub open spec fn contents(area: Seq<u8>) -> Seq<Pair> {
    pairs_of(records(area, 0))
}

/// The header bytes of a record.
pub open spec fn header_bytes(state: u8, ns_len: nat, key_len: nat, val_len: nat, sum: nat) -> Seq<
    u8,
> {
    seq![state] + le32_bytes(ns_len) + le32_bytes(key_len) + le32_bytes(val_len) + le32_bytes(sum)
}

pub proof fn lemma_le32_round_trip(x: nat)
    requires
        x < 0x1_0000_0000,
    ensures
        le32_bytes(x).len() == 4,
        le32(le32_bytes(x), 0) == x,
{
    let x = x as int;
    let q1 = x / 256;
    let q2 = q1 / 256;
    let q3 = q2 / 256;
    vstd::arithmetic::div_mod::lemma_fundamental_div_mod(x, 256);
    vstd::arithmetic::div_mod::lemma_fundamental_div_mod(q1, 256);
    vstd::arithmetic::div_mod::lemma_fundamental_div_mod(q2, 256);
    vstd::arithmetic::div_mod::lemma_div_denominator(x, 256, 256);
    vstd::arithmetic::div_mod::lemma_div_denominator(x, 65536, 256);
    assert(q2 == x / 65536);
    assert(q3 == x / 16777216);
    assert(0 <= q3 < 256);
    assert(q3 % 256 == q3);
    let bytes = le32_bytes(x as nat);
    assert(bytes[0] == (x % 256) as u8);
    assert(bytes[1] == (q1 % 256) as u8);
    assert(bytes[2] == (q2 % 256) as u8);
    assert(bytes[3] == q3 as u8);
    assert(x == (x % 256) + 256 * ((q1 % 256) + 256 * ((q2 % 256) + 256 * q3)));
}

/// A header that lies at `pos` reads back as it was written.
pub proof fn lemma_header_reads_back(
    area: Seq<u8>,
    pos: int,
    state: u8,
    ns_len: nat,
    key_len: nat,
    val_len: nat,
    sum: nat,
)
    requires
        0 <= pos,
        pos + HEADER_LEN <= area.len(),
        area.subrange(pos, pos + HEADER_LEN) == header_bytes(state, ns_len, key_len, val_len, sum),
        ns_len < 0x1_0000_0000,
        key_len < 0x1_0000_0000,
        val_len < 0x1_0000_0000,
        sum < 0x1_0000_0000,
    ensures
        header_at(area, pos) == (Header { state, ns_len, key_len, val_len, sum }),
{
    let hb = header_bytes(state, ns_len, key_len, val_len, sum);
    let sub = area.subrange(pos, pos + HEADER_LEN);
    assert(hb.len() == 17);
    assert forall|k: int| 0 <= k < 17 implies area[pos + k] == hb[k] by {
        assert(sub[k] == area[pos + k]);
    }
    lemma_le32_round_trip(ns_len);
    lemma_le32_round_trip(key_len);
    lemma_le32_round_trip(val_len);
    lemma_le32_round_trip(sum);
    assert(area[pos] == hb[0]);
    assert(area[pos + 1] == hb[1] && area[pos + 2] == hb[2] && area[pos + 3] == hb[3] && area[pos
        + 4] == hb[4]);
    assert(area[pos + 5] == hb[5] && area[pos + 6] == hb[6] && area[pos + 7] == hb[7] && area[pos
        + 8] == hb[8]);
    assert(area[pos + 9] == hb[9] && area[pos + 10] == hb[10] && area[pos + 11] == hb[11]
        && area[pos + 12] == hb[12]);
    assert(area[pos + 13] == hb[13] && area[pos + 14] == hb[14] && area[pos + 15] == hb[15]
        && area[pos + 16] == hb[16]);
    assert(le32(area, pos + 1) == le32(le32_bytes(ns_len), 0));
    assert(le32(area, pos + 5) == le32(le32_bytes(key_len), 0));
    assert(le32(area, pos + 9) == le32(le32_bytes(val_len), 0));
    assert(le32(area, pos + 13) == le32(le32_bytes(sum), 0));
}

/// The scan ends at or behind the place where it began, inside the area,
/// and no record begins where it ends.
pub proof fn lemma_log_end(area: Seq<u8>, pos: int)
    requires
        0 <= pos <= area.len(),
    ensures
        pos <= log_end(area, pos) <= area.len(),
        record_at(area, log_end(area, pos)) is None,
        records(area, log_end(area, pos)) == Seq::<Rec>::empty(),
    decreases area.len() - pos,
{
    match record_at(area, pos) {
        None => {},
        Some(h) => {
            lemma_log_end(area, pos + h.record_len());
        },
    }
}

/// Two areas that agree on the records from `pos` on hold these records
/// both, and differ only in what follows them.
pub proof fn lemma_scan_frame(a: Seq<u8>, b: Seq<u8>, pos: int)
    requires
        a.len() == b.len(),
        0 <= pos <= a.len(),
        forall|i: int| pos <= i < log_end(a, pos) ==> a[i] == b[i],
    ensures
        records(b, pos) == records(a, pos) + records(b, log_end(a, pos)),
        log_end(b, pos) == log_end(b, log_end(a, pos)),
    decreases a.len() - pos,
{
    let e = log_end(a, pos);
    match record_at(a, pos) {
        None => {
            assert(records(b, pos) =~= records(a, pos) + records(b, e));
        },
        Some(h) => {
            let next = pos + h.record_len();
            lemma_log_end(a, next);
            assert(header_at(b, pos) == h);
            assert(record_at(b, pos) == Some(h));
            let ns_from = pos + HEADER_LEN;
            let key_from = ns_from + h.ns_len;
            let val_from = key_from + h.key_len;
            assert(a.subrange(ns_from, key_from) =~= b.subrange(ns_from, key_from));
            assert(a.subrange(key_from, val_from) =~= b.subrange(key_from, val_from));
            assert(a.subrange(val_from, val_from + h.val_len) =~= b.subrange(
                val_from,
                val_from + h.val_len,
            ));
            assert(rec_at(a, pos, h) == rec_at(b, pos, h));
            lemma_scan_frame(a, b, next);
            assert(records(b, pos) =~= records(a, pos) + records(b, e));
        },
    }
}

/// One more record behind the others: what the log holds is what it held,
/// with the record's value stored if the record is committed.
pub proof fn lemma_pairs_push(recs: Seq<Rec>, r: Rec)
    ensures
        pairs_of(recs.push(r)) == apply(pairs_of(recs), r),
{
    assert(recs.push(r).drop_last() =~= recs);
    assert(recs.push(r).last() == r);
}

/// Storing a value keeps namespaces and keys apart.
pub proof fn lemma_put_distinct(pairs: Seq<Pair>, p: Pair)
    requires
        distinct(pairs),
    ensures
        distinct(put(pairs, p)),
        has_key(put(pairs, p), p.ns, p.key),
        put(pairs, p)[slot_of(put(pairs, p), p.ns, p.key)] == p,
        forall|ns: Seq<u8>, key: Seq<u8>|
            !(ns == p.ns && key == p.key) ==> lookup(put(pairs, p), ns, key) == lookup(
                pairs,
                ns,
                key,
            ),
        lookup(put(pairs, p), p.ns, p.key) == Some(p.value),
{
    let q = put(pairs, p);
    if has_key(pairs, p.ns, p.key) {
        let s = slot_of(pairs, p.ns, p.key);
        assert(holds_at(pairs, p.ns, p.key, s));
        assert(holds_at(q, p.ns, p.key, s));
        assert forall|i: int, j: int| 0 <= i < q.len() && 0 <= j < q.len() && i != j implies !(
        q[i].ns == q[j].ns && q[i].key == q[j].key) by {
            assert(pairs[i].ns == q[i].ns && pairs[i].key == q[i].key);
            assert(pairs[j].ns == q[j].ns && pairs[j].key == q[j].key);
        }
    } else {
        let s = pairs.len() as int;
        assert(holds_at(q, p.ns, p.key, s));
        assert forall|i: int, j: int| 0 <= i < q.len() && 0 <= j < q.len() && i != j implies !(
        q[i].ns == q[j].ns && q[i].key == q[j].key) by {
            if i < s && j < s {
                assert(pairs[i].ns == q[i].ns && pairs[j].ns == q[j].ns);
            } else if i < s {
                assert(!holds_at(pairs, p.ns, p.key, i));
            } else {
                assert(!holds_at(pairs, p.ns, p.key, j));
            }
        }
    }
    let t = slot_of(q, p.ns, p.key);
    assert(holds_at(q, p.ns, p.key, t));
    assert(q[t] == p) by {
        if has_key(pairs, p.ns, p.key) {
            let s = slot_of(pairs, p.ns, p.key);
            assert(holds_at(q, p.ns, p.key, s));
            if t != s {
                assert(q[t].ns == q[s].ns && q[t].key == q[s].key);
            }
        } else {
            let s = pairs.len() as int;
            if t != s {
                assert(holds_at(pairs, p.ns, p.key, t));
            }
        }
    }
    assert forall|ns: Seq<u8>, key: Seq<u8>| !(ns == p.ns && key == p.key) implies lookup(
        q,
        ns,
        key,
    ) == lookup(pairs, ns, key) by {
        lemma_put_other(pairs, p, ns, key);
    }
}

/// Storing a value leaves what is stored under another namespace or key.
pub proof fn lemma_put_other(pairs: Seq<Pair>, p: Pair, ns: Seq<u8>, key: Seq<u8>)
    requires
        distinct(pairs),
        !(ns == p.ns && key == p.key),
    ensures
        lookup(put(pairs, p), ns, key) == lookup(pairs, ns, key),
{
    let q = put(pairs, p);
    if has_key(pairs, p.ns, p.key) {
        let s = slot_of(pairs, p.ns, p.key);
        assert(holds_at(pairs, p.ns, p.key, s));
        assert(forall|i: int| holds_at(pairs, ns, key, i) <==> holds_at(q, ns, key, i));
        if has_key(pairs, ns, key) {
            let i = slot_of(pairs, ns, key);
            assert(holds_at(q, ns, key, i));
            assert(q[slot_of(q, ns, key)] == pairs[i]) by {
                let j = slot_of(q, ns, key);
                assert(holds_at(pairs, ns, key, j));
                if i != j {
                    assert(pairs[i].ns == pairs[j].ns && pairs[i].key == pairs[j].key);
                }
            }
        } else {
            if has_key(q, ns, key) {
                assert(holds_at(pairs, ns, key, slot_of(q, ns, key)));
            }
        }
    } else {
        assert(forall|i: int| holds_at(pairs, ns, key, i) <==> holds_at(q, ns, key, i));
        if has_key(pairs, ns, key) {
            let i = slot_of(pairs, ns, key);
            assert(holds_at(q, ns, key, i));
            let j = slot_of(q, ns, key);
            assert(holds_at(pairs, ns, key, j));
            if i != j {
                assert(pairs[i].ns == pairs[j].ns && pairs[i].key == pairs[j].key);
            }
        } else {
            if has_key(q, ns, key) {
                assert(holds_at(pairs, ns, key, slot_of(q, ns, key)));
            }
        }
    }
}

/// What a log holds has no namespace and key twice.
pub proof fn lemma_pairs_distinct(recs: Seq<Rec>)
    ensures
        distinct(pairs_of(recs)),
    decreases recs.len(),
{
    if recs.len() > 0 {
        lemma_pairs_distinct(recs.drop_last());
        if recs.last().state == STATE_VALID {
            lemma_put_distinct(pairs_of(recs.drop_last()), pair_of(recs.last()));
        } else if recs.last().state == STATE_TOMBSTONE {
            lemma_drop_distinct(pairs_of(recs.drop_last()), recs.last().ns, recs.last().key);
        }
    }
}

/// Removing what a namespace and key held keeps namespaces and keys
/// apart, leaves nothing under them, and leaves what the others hold.
pub proof fn lemma_drop_distinct(pairs: Seq<Pair>, ns: Seq<u8>, key: Seq<u8>)
    requires
        distinct(pairs),
    ensures
        distinct(drop_key(pairs, ns, key)),
        lookup(drop_key(pairs, ns, key), ns, key) is None,
        forall|ns2: Seq<u8>, key2: Seq<u8>|
            !(ns2 == ns && key2 == key) ==> lookup(drop_key(pairs, ns, key), ns2, key2) == lookup(
                pairs,
                ns2,
                key2,
            ),
{
    let q = drop_key(pairs, ns, key);
    if has_key(pairs, ns, key) {
        let s = slot_of(pairs, ns, key);
        assert(holds_at(pairs, ns, key, s));
        assert forall|i: int| 0 <= i < q.len() implies q[i] == pairs[if i < s {
            i
        } else {
            i + 1
        }] by {}
        assert forall|i: int, j: int| 0 <= i < q.len() && 0 <= j < q.len() && i != j implies !(
        q[i].ns == q[j].ns && q[i].key == q[j].key) by {
            let i2 = if i < s {
                i
            } else {
                i + 1
            };
            let j2 = if j < s {
                j
            } else {
                j + 1
            };
            assert(q[i] == pairs[i2] && q[j] == pairs[j2]);
            assert(!(pairs[i2].ns == pairs[j2].ns && pairs[i2].key == pairs[j2].key));
        }
        if has_key(q, ns, key) {
            let t = slot_of(q, ns, key);
            assert(holds_at(q, ns, key, t));
            let t2 = if t < s {
                t
            } else {
                t + 1
            };
            assert(q[t] == pairs[t2]);
            assert(pairs[t2].ns == pairs[s].ns && pairs[t2].key == pairs[s].key);
        }
        assert forall|ns2: Seq<u8>, key2: Seq<u8>| !(ns2 == ns && key2 == key) implies lookup(
            q,
            ns2,
            key2,
        ) == lookup(pairs, ns2, key2) by {
            if has_key(pairs, ns2, key2) {
                let i = slot_of(pairs, ns2, key2);
                assert(holds_at(pairs, ns2, key2, i));
                let i1 = if i < s {
                    i
                } else {
                    i - 1
                };
                assert(q[i1] == pairs[i]);
                assert(holds_at(q, ns2, key2, i1));
                let j = slot_of(q, ns2, key2);
                assert(holds_at(q, ns2, key2, j));
                if j != i1 {
                    assert(q[j].ns == q[i1].ns && q[j].key == q[i1].key);
                }
            } else if has_key(q, ns2, key2) {
                let j = slot_of(q, ns2, key2);
                assert(holds_at(q, ns2, key2, j));
                let j2 = if j < s {
                    j
                } else {
                    j + 1
                };
                assert(q[j] == pairs[j2]);
                assert(holds_at(pairs, ns2, key2, j2));
            }
        }
    }
}

/// The digest of two runs of bytes, one after the other.
pub proof fn lemma_digest_concat(h: nat, a: Seq<u8>, b: Seq<u8>)
    ensures
        digest_from(h, a + b) == digest_from(digest_from(h, a), b),
    decreases b.len(),
{
    if b.len() == 0 {
        assert(a + b =~= a);
    } else {
        assert((a + b).drop_last() =~= a + b.drop_last());
        assert((a + b).last() == b.last());
        lemma_digest_concat(h, a, b.drop_last());
    }
}

/// A digest fits in 32 bits when it began there.
pub proof fn lemma_digest_bound(h: nat, bytes: Seq<u8>)
    requires
        h < 0x1_0000_0000,
    ensures
        digest_from(h, bytes) < 0x1_0000_0000,
    decreases bytes.len(),
{
    if bytes.len() > 0 {
        lemma_digest_bound(h, bytes.drop_last());
    }
}

/// The flash that the records take, one behind the other.
pub open spec fn total_len(recs: Seq<Rec>) -> nat
    decreases recs.len(),
{
    if recs.len() == 0 {
        0
    } else {
        total_len(recs.drop_last()) + recs.last().len()
    }
}

pub proof fn lemma_live_size_push(pairs: Seq<Pair>, p: Pair)
    ensures
        live_size(pairs.push(p)) == live_size(pairs) + pair_size(p),
{
    assert(pairs.push(p).drop_last() =~= pairs);
}

pub proof fn lemma_live_size_update(pairs: Seq<Pair>, i: int, p: Pair)
    requires
        0 <= i < pairs.len(),
    ensures
        pair_size(pairs[i]) <= live_size(pairs),
        live_size(pairs.update(i, p)) == live_size(pairs) - pair_size(pairs[i]) + pair_size(p),
    decreases pairs.len(),
{
    if i == pairs.len() - 1 {
        assert(pairs.update(i, p).drop_last() =~= pairs.drop_last());
    } else {
        lemma_live_size_update(pairs.drop_last(), i, p);
        assert(pairs.update(i, p).drop_last() =~= pairs.drop_last().update(i, p));
    }
}

/// Storing a value takes the room of its record and gives back that of the
/// record it replaces.
pub proof fn lemma_live_size_put(pairs: Seq<Pair>, p: Pair)
    ensures
        live_size(put(pairs, p)) == (if has_key(pairs, p.ns, p.key) {
            live_size(pairs) - pair_size(pairs[slot_of(pairs, p.ns, p.key)]) + pair_size(p)
        } else {
            (live_size(pairs) + pair_size(p)) as int
        }),
        live_size(put(pairs, p)) <= live_size(pairs) + pair_size(p),
{
    if has_key(pairs, p.ns, p.key) {
        let s = slot_of(pairs, p.ns, p.key);
        assert(holds_at(pairs, p.ns, p.key, s));
        lemma_live_size_update(pairs, s, p);
    } else {
        lemma_live_size_push(pairs, p);
    }
}

/// The first `n` of the pairs take no more flash than all of them.
pub proof fn lemma_live_size_take(pairs: Seq<Pair>, n: int)
    requires
        0 <= n <= pairs.len(),
    ensures
        live_size(pairs.take(n)) <= live_size(pairs),
        n < pairs.len() ==> live_size(pairs.take(n + 1)) == live_size(pairs.take(n)) + pair_size(
            pairs[n],
        ),
    decreases pairs.len() - n,
{
    if n < pairs.len() {
        assert(pairs.take(n + 1).drop_last() =~= pairs.take(n));
        assert(pairs.take(n + 1).last() == pairs[n]);
        lemma_live_size_take(pairs, n + 1);
    } else {
        assert(pairs.take(n) =~= pairs);
    }
}

/// Four bytes are the little-endian bytes of the number they read as.
pub proof fn lemma_le32_canonical(b: Seq<u8>, at: int)
    requires
        0 <= at,
        at + 4 <= b.len(),
    ensures
        le32_bytes(le32(b, at)) == b.subrange(at, at + 4),
        le32(b, at) < 0x1_0000_0000,
{
    let x = le32(b, at) as int;
    let b0 = b[at] as int;
    let b1 = b[at + 1] as int;
    let b2 = b[at + 2] as int;
    let b3 = b[at + 3] as int;
    assert(x == b0 + 256 * b1 + 65536 * b2 + 16777216 * b3);
    vstd::arithmetic::div_mod::lemma_fundamental_div_mod_converse(
        x,
        256,
        b1 + 256 * b2 + 65536 * b3,
        b0,
    );
    vstd::arithmetic::div_mod::lemma_fundamental_div_mod_converse(
        b1 + 256 * b2 + 65536 * b3,
        256,
        b2 + 256 * b3,
        b1,
    );
    vstd::arithmetic::div_mod::lemma_fundamental_div_mod_converse(
        x,
        65536,
        b2 + 256 * b3,
        b0 + 256 * b1,
    );
    vstd::arithmetic::div_mod::lemma_fundamental_div_mod_converse(b2 + 256 * b3, 256, b3, b2);
    vstd::arithmetic::div_mod::lemma_fundamental_div_mod_converse(
        x,
        16777216,
        b3,
        b0 + 256 * b1 + 65536 * b2,
    );
    vstd::arithmetic::div_mod::lemma_fundamental_div_mod_converse(b3, 256, 0, b3);
    assert(x % 256 == b0);
    assert((x / 256) % 256 == b1);
    assert((x / 65536) % 256 == b2);
    assert((x / 16777216) % 256 == b3);
    let bytes = le32_bytes(x as nat);
    assert(bytes[0] == b[at] && bytes[1] == b[at + 1] && bytes[2] == b[at + 2] && bytes[3] == b[at
        + 3]);
    assert(bytes =~= b.subrange(at, at + 4));
}

/// The header cells at `pos` are the header bytes of the fields they read as.
pub proof fn lemma_header_canonical(area: Seq<u8>, pos: int)
    requires
        0 <= pos,
        pos + HEADER_LEN <= area.len(),
    ensures
        ({
            let h = header_at(area, pos);
            &&& area.subrange(pos, pos + HEADER_LEN) == header_bytes(
                h.state,
                h.ns_len,
                h.key_len,
                h.val_len,
                h.sum,
            )
            &&& h.ns_len < 0x1_0000_0000
            &&& h.key_len < 0x1_0000_0000
            &&& h.val_len < 0x1_0000_0000
            &&& h.sum < 0x1_0000_0000
        }),
{
    let h = header_at(area, pos);
    lemma_le32_canonical(area, pos + 1);
    lemma_le32_canonical(area, pos + 5);
    lemma_le32_canonical(area, pos + 9);
    lemma_le32_canonical(area, pos + 13);
    let hb = header_bytes(h.state, h.ns_len, h.key_len, h.val_len, h.sum);
    assert(area.subrange(pos, pos + HEADER_LEN) =~= seq![area[pos]] + area.subrange(
        pos + 1,
        pos + 5,
    ) + area.subrange(pos + 5, pos + 9) + area.subrange(pos + 9, pos + 13) + area.subrange(
        pos + 13,
        pos + 17,
    ));
}

/// A pair with a new namespace or key goes behind all others.
pub proof fn lemma_put_new(pairs: Seq<Pair>, n: int)
    requires
        distinct(pairs),
        0 <= n < pairs.len(),
    ensures
        put(pairs.take(n), pairs[n]) == pairs.take(n + 1),
{
    let front = pairs.take(n);
    let p = pairs[n];
    if has_key(front, p.ns, p.key) {
        let s = slot_of(front, p.ns, p.key);
        assert(holds_at(front, p.ns, p.key, s));
        assert(pairs[s].ns == pairs[n].ns && pairs[s].key == pairs[n].key);
    }
    assert(front.push(p) =~= pairs.take(n + 1));
}

/// Without one of the pairs, the others take the flash they took.
pub proof fn lemma_live_size_remove(pairs: Seq<Pair>, i: int)
    requires
        0 <= i < pairs.len(),
    ensures
        live_size(pairs.remove(i)) == live_size(pairs) - pair_size(pairs[i]),
    decreases pairs.len(),
{
    if i == pairs.len() - 1 {
        assert(pairs.remove(i) =~= pairs.drop_last());
    } else {
        lemma_live_size_remove(pairs.drop_last(), i);
        assert(pairs.remove(i).drop_last() =~= pairs.drop_last().remove(i));
        assert(pairs.remove(i).last() == pairs.last());
    }
}

/// Removing what a namespace and key held gives back the flash of its
/// record.
pub proof fn lemma_live_size_drop(pairs: Seq<Pair>, ns: Seq<u8>, key: Seq<u8>)
    ensures
        live_size(drop_key(pairs, ns, key)) == (if has_key(pairs, ns, key) {
            live_size(pairs) - pair_size(pairs[slot_of(pairs, ns, key)])
        } else {
            live_size(pairs) as int
        }),
        live_size(drop_key(pairs, ns, key)) <= live_size(pairs),
{
    if has_key(pairs, ns, key) {
        let s = slot_of(pairs, ns, key);
        assert(holds_at(pairs, ns, key, s));
        lemma_live_size_remove(pairs, s);
    }
}

/// The record as a scan leaves it: one without commit marker is given up.
pub open spec fn settled(r: Rec) -> Rec {
    if r.state == STATE_WRITING {
        Rec { state: STATE_ERASED, ..r }
    } else {
        r
    }
}

/// How many of the records are without commit marker and not given up.
pub open spec fn pending(recs: Seq<Rec>) -> nat
    decreases recs.len(),
{
    if recs.len() == 0 {
        0
    } else if recs.last().state == STATE_WRITING {
        pending(recs.drop_last()) + 1
    } else {
        pending(recs.drop_last())
    }
}

/// `area` with every cell from `pos` on erased.
pub open spec fn cut(area: Seq<u8>, pos: int) -> Seq<u8> {
    Seq::new(
        area.len(),
        |i: int|
            if i < pos {
                area[i]
            } else {
                0xFFu8
            },
    )
}

pub proof fn lemma_pending_push(recs: Seq<Rec>, r: Rec)
    ensures
        pending(recs.push(r)) == pending(recs) + (if r.state == STATE_WRITING {
            1nat
        } else {
            0nat
        }),
{
    assert(recs.push(r).drop_last() =~= recs);
}

/// Records behind others count as they do alone.
pub proof fn lemma_pending_concat(x: Seq<Rec>, rest: Seq<Rec>)
    ensures
        pending(x + rest) == pending(x) + pending(rest),
    decreases rest.len(),
{
    if rest.len() == 0 {
        assert(x + rest =~= x);
    } else {
        assert((x + rest).drop_last() =~= x + rest.drop_last());
        assert((x + rest).last() == rest.last());
        lemma_pending_concat(x, rest.drop_last());
    }
}

/// What records make of what a log holds rests on what the log holds, not
/// on the records that made it so.
pub proof fn lemma_pairs_concat(x: Seq<Rec>, y: Seq<Rec>, rest: Seq<Rec>)
    requires
        pairs_of(x) == pairs_of(y),
    ensures
        pairs_of(x + rest) == pairs_of(y + rest),
    decreases rest.len(),
{
    if rest.len() == 0 {
        assert(x + rest =~= x);
        assert(y + rest =~= y);
    } else {
        assert((x + rest).drop_last() =~= x + rest.drop_last());
        assert((y + rest).drop_last() =~= y + rest.drop_last());
        assert((x + rest).last() == rest.last());
        assert((y + rest).last() == rest.last());
        lemma_pairs_concat(x, y, rest.drop_last());
    }
}

/// Intact records behind intact records are intact records.
pub proof fn lemma_intact_concat(x: Seq<Rec>, rest: Seq<Rec>)
    requires
        all_intact(x),
        all_intact(rest),
    ensures
        all_intact(x + rest),
{
    let all = x + rest;
    assert forall|i: int| 0 <= i < all.len() && is_committed(all[i].state) implies (
    #[trigger] all[i]).intact() by {
        if i < x.len() {
            assert(all[i] == x[i]);
        } else {
            assert(all[i] == rest[i - x.len()]);
        }
    }
}

/// Two areas that hold the same cells from `pos` on hold the same records
/// from there on.
pub proof fn lemma_suffix_frame(a: Seq<u8>, b: Seq<u8>, pos: int)
    requires
        a.len() == b.len(),
        0 <= pos,
        forall|i: int| pos <= i < a.len() ==> a[i] == b[i],
    ensures
        record_at(b, pos) == record_at(a, pos),
        records(b, pos) == records(a, pos),
        log_end(b, pos) == log_end(a, pos),
    decreases a.len() - pos,
{
    if pos + HEADER_LEN <= a.len() {
        assert(header_at(b, pos) == header_at(a, pos));
    }
    match record_at(a, pos) {
        None => {},
        Some(h) => {
            let ns_from = pos + HEADER_LEN;
            let key_from = ns_from + h.ns_len;
            let val_from = key_from + h.key_len;
            assert(a.subrange(ns_from, key_from) =~= b.subrange(ns_from, key_from));
            assert(a.subrange(key_from, val_from) =~= b.subrange(key_from, val_from));
            assert(a.subrange(val_from, val_from + h.val_len) =~= b.subrange(
                val_from,
                val_from + h.val_len,
            ));
            lemma_suffix_frame(a, b, pos + h.record_len());
        },
    }
}

/// The records of an intact log from a record on are intact.
pub proof fn lemma_intact_rest(area: Seq<u8>, pos: int, h: Header)
    requires
        record_at(area, pos) == Some(h),
        all_intact(records(area, pos)),
    ensures
        all_intact(records(area, pos + h.record_len())),
        is_committed(h.state) ==> rec_at(area, pos, h).intact(),
{
    let all = records(area, pos);
    let rest = records(area, pos + h.record_len());
    assert(all == seq![rec_at(area, pos, h)] + rest);
    assert(all[0] == rec_at(area, pos, h));
    assert forall|i: int| 0 <= i < rest.len() && is_committed(rest[i].state) implies (
    #[trigger] rest[i]).intact() by {
        assert(all[i + 1] == rest[i]);
    }
}

/// What is stored, as a map from namespace and key to value.
pub open spec fn as_map(pairs: Seq<Pair>) -> Map<(Seq<u8>, Seq<u8>), Seq<u8>> {
    Map::new(
        |k: (Seq<u8>, Seq<u8>)| has_key(pairs, k.0, k.1),
        |k: (Seq<u8>, Seq<u8>)| pairs[slot_of(pairs, k.0, k.1)].value,
    )
}

/// The map has a namespace and key exactly where a value is stored under
/// them, and gives that value.
pub proof fn lemma_as_map(pairs: Seq<Pair>, ns: Seq<u8>, key: Seq<u8>)
    ensures
        as_map(pairs).contains_key((ns, key)) == (lookup(pairs, ns, key) is Some),
        lookup(pairs, ns, key) matches Some(v) ==> as_map(pairs)[(ns, key)] == v,
{
}

/// Storing a value is an insertion into the map.
pub proof fn lemma_put_is_insert(pairs: Seq<Pair>, p: Pair)
    requires
        distinct(pairs),
    ensures
        as_map(put(pairs, p)) == as_map(pairs).insert((p.ns, p.key), p.value),
{
    let m1 = as_map(put(pairs, p));
    let m2 = as_map(pairs).insert((p.ns, p.key), p.value);
    lemma_put_distinct(pairs, p);
    assert forall|k: (Seq<u8>, Seq<u8>)| #[trigger]
        m1.dom().contains(k) == m2.dom().contains(k) && (m1.dom().contains(k) ==> m1[k]
            == m2[k]) by {
        lemma_as_map(put(pairs, p), k.0, k.1);
        lemma_as_map(pairs, k.0, k.1);
        if k.0 == p.ns && k.1 == p.key {
            assert(k == (p.ns, p.key));
        } else {
            lemma_put_other(pairs, p, k.0, k.1);
            assert(k != (p.ns, p.key));
        }
    }
    assert(m1.dom() =~= m2.dom());
    assert(m1 =~= m2);
}

/// Removing a value is a removal from the map.
pub proof fn lemma_drop_is_remove(pairs: Seq<Pair>, ns: Seq<u8>, key: Seq<u8>)
    requires
        distinct(pairs),
    ensures
        as_map(drop_key(pairs, ns, key)) == as_map(pairs).remove((ns, key)),
{
    let m1 = as_map(drop_key(pairs, ns, key));
    let m2 = as_map(pairs).remove((ns, key));
    lemma_drop_distinct(pairs, ns, key);
    assert forall|k: (Seq<u8>, Seq<u8>)| #[trigger]
        m1.dom().contains(k) == m2.dom().contains(k) && (m1.dom().contains(k) ==> m1[k]
            == m2[k]) by {
        lemma_as_map(drop_key(pairs, ns, key), k.0, k.1);
        lemma_as_map(pairs, k.0, k.1);
        if k.0 == ns && k.1 == key {
            assert(k == (ns, key));
        } else {
            assert(k != (ns, key));
        }
    }
    assert(m1.dom() =~= m2.dom());
    assert(m1 =~= m2);
}

} // verus!
