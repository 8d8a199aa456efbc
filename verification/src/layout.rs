//! Where the two banks of a partition and their record cells lie on the
//! device, what the erase and program operations on them change, and what
//! they cost.
//!
//! A partition is two banks of whole erase units. One of them holds the log;
//! the other is the room into which compaction copies what is still stored.
//! The first byte of the second bank says which is which: the second bank
//! holds the log exactly while that byte is `BANK_ACTIVE`. The records of a
//! bank begin behind its first byte.

use vstd::prelude::*;
use crate::codec::{all_erased, get_le32};
use crate::device::{
    affords,
    overwrite,
    region_erased,
    region_programmable,
    spend,
    DeviceState,
    FlashDevice,
};
use crate::record::{
    blank,
    contents,
    header_at,
    log_end,
    rec_at,
    record_at,
    Header,
    HEADER_LEN,
    Pair,
    STATE_ERASED,
    STATE_TOMBSTONE,
    STATE_VALID,
    STATE_WRITING,
};

verus! {

/// Marker of the second bank while it holds the log.
pub const BANK_ACTIVE: u8 = 0xFE;

/// Marker of the second bank once the log has moved back to the first.
pub const BANK_RETIRED: u8 = 0xFC;

/// The partition at `base` with banks of `bank` bytes lies inside the
/// device, on whole erase units.
pub open spec fn fits(dev: DeviceState, base: int, bank: int) -> bool {
    &&& dev.unit > 0
    &&& 0 <= base
    &&& base % (dev.unit as int) == 0
    &&& bank % (dev.unit as int) == 0
    &&& bank >= dev.unit
    &&& bank <= 0xFFFF_FFFF
    &&& base + 2 * bank <= dev.bytes.len()
}

/// The cells of a bank that can hold records.
pub open spec fn capacity(bank: int) -> int {
    bank - 1
}

/// The second bank holds the log.
pub open spec fn second_active(bytes: Seq<u8>, base: int, bank: int) -> bool {
    bytes[base + bank] == BANK_ACTIVE
}

/// Where a bank begins.
pub open spec fn bank_start(base: int, bank: int, second: bool) -> int {
    if second {
        base + bank
    } else {
        base
    }
}

/// The cells of a bank that hold records.
pub open spec fn area_of(bytes: Seq<u8>, base: int, bank: int, second: bool) -> Seq<u8> {
    bytes.subrange(bank_start(base, bank, second) + 1, bank_start(base, bank, second) + bank)
}

/// The record cells of the bank that holds the log.
pub open spec fn active_area(bytes: Seq<u8>, base: int, bank: int) -> Seq<u8> {
    area_of(bytes, base, bank, second_active(bytes, base, bank))
}

/// What the partition holds: what a scan of its log finds.
pub open spec fn stored(bytes: Seq<u8>, base: int, bank: int) -> Seq<Pair> {
    contents(active_area(bytes, base, bank))
}

/// The bank that does not hold the log is erased.
pub open spec fn spare_erased(bytes: Seq<u8>, base: int, bank: int) -> bool {
    let from = bank_start(base, bank, !second_active(bytes, base, bank));
    region_erased(bytes, from, from + bank)
}

/// A record of `a` that lies in cells which `b` holds too is a record of `b`.
pub proof fn lemma_record_frame(a: Seq<u8>, b: Seq<u8>, pos: int)
    requires
        a.len() == b.len(),
        record_at(a, pos) is Some,
        forall|i: int| pos <= i < pos + record_at(a, pos)->Some_0.record_len() ==> a[i] == b[i],
    ensures
        record_at(b, pos) == record_at(a, pos),
        rec_at(b, pos, record_at(a, pos)->Some_0) == rec_at(a, pos, record_at(a, pos)->Some_0),
{
    let h = record_at(a, pos)->Some_0;
    assert(header_at(b, pos) == h);
    let ns_from = pos + HEADER_LEN;
    let key_from = ns_from + h.ns_len;
    let val_from = key_from + h.key_len;
    assert(a.subrange(ns_from, key_from) =~= b.subrange(ns_from, key_from));
    assert(a.subrange(key_from, val_from) =~= b.subrange(key_from, val_from));
    assert(a.subrange(val_from, val_from + h.val_len) =~= b.subrange(
        val_from,
        val_from + h.val_len,
    ));
}

/// The header fields of a record, as the scan holds them.
pub struct Fields {
    pub state: u8,
    pub ns_len: usize,
    pub key_len: usize,
    pub val_len: usize,
    pub sum: u32,
}

impl Fields {
    pub open spec fn header(&self) -> Header {
        Header {
            state: self.state,
            ns_len: self.ns_len as nat,
            key_len: self.key_len as nat,
            val_len: self.val_len as nat,
            sum: self.sum as nat,
        }
    }
}

/// Reads the header of the record at `pos` in the area of `cap` cells that
/// begins at `start`, if a record begins there.
pub fn read_header(dev: &FlashDevice, start: usize, cap: usize, pos: usize) -> (r: Option<Fields>)
    requires
        dev.wf(),
        start + cap <= dev@.bytes.len(),
        pos <= cap,
    ensures
        match r {
            Some(f) => record_at(dev@.bytes.subrange(start as int, start + cap), pos as int)
                == Some(f.header()) && pos + f.header().record_len() <= cap,
            None => record_at(dev@.bytes.subrange(start as int, start + cap), pos as int) is None,
        },
{
    let ghost area = dev@.bytes.subrange(start as int, start + cap);
    if cap - pos < HEADER_LEN {
        return None;
    }
    let hdr = dev.read(start + pos, HEADER_LEN).unwrap();
    let state: u8 = hdr[0];
    assert(hdr@[0] == area[pos as int]);
    if !(state == STATE_WRITING || state == STATE_VALID || state == STATE_TOMBSTONE || state
        == STATE_ERASED) {
        return None;
    }
    let ns_len: u32 = get_le32(hdr.as_slice(), 1);
    let key_len: u32 = get_le32(hdr.as_slice(), 5);
    let val_len: u32 = get_le32(hdr.as_slice(), 9);
    let sum: u32 = get_le32(hdr.as_slice(), 13);
    let ghost h = header_at(area, pos as int);
    proof {
        assert forall|k: int| 0 <= k < 17 implies hdr@[k] == area[pos + k] by {}
        assert(h.state == state);
        assert(h.ns_len == ns_len);
        assert(h.key_len == key_len);
        assert(h.val_len == val_len);
        assert(h.sum == sum);
    }
    let body_len: u64 = ns_len as u64 + key_len as u64 + val_len as u64;
    if body_len > (cap - pos - HEADER_LEN) as u64 {
        return None;
    }
    Some(
        Fields {
            state,
            ns_len: ns_len as usize,
            key_len: key_len as usize,
            val_len: val_len as usize,
            sum,
        },
    )
}

/// Whether the cells of the device in `[from, from + len)` are all erased.
pub fn is_blank(dev: &FlashDevice, from: usize, len: usize) -> (r: bool)
    requires
        dev.wf(),
        from + len <= dev@.bytes.len(),
    ensures
        r == region_erased(dev@.bytes, from as int, from + len),
{
    let cells = dev.read(from, len).unwrap();
    let r = all_erased(cells.as_slice());
    proof {
        let bytes = dev@.bytes;
        if r {
            assert forall|i: int| from <= i < from + len implies #[trigger] bytes[i] == 0xFFu8 by {
                assert(cells@[i - from] == 0xFFu8);
            }
        }
        if region_erased(bytes, from as int, from + len) {
            assert forall|i: int| 0 <= i < cells@.len() implies #[trigger] cells@[i] == 0xFFu8 by {
                assert(bytes[from + i] == 0xFFu8);
            }
        }
    }
    r
}

/// The cells behind the log are erased on the device exactly when they are
/// in the area.
pub proof fn lemma_tail_cells(bytes: Seq<u8>, start: int, cap: int, pos: int)
    requires
        0 <= start,
        0 <= pos <= cap,
        start + cap <= bytes.len(),
    ensures
        blank(bytes.subrange(start, start + cap), pos, cap) == region_erased(
            bytes,
            start + pos,
            start + cap,
        ),
{
    let area = bytes.subrange(start, start + cap);
    if blank(area, pos, cap) {
        assert forall|i: int| start + pos <= i < start + cap implies #[trigger] bytes[i]
            == 0xFFu8 by {
            assert(area[i - start] == 0xFFu8);
        }
    }
    if region_erased(bytes, start + pos, start + cap) {
        assert forall|i: int| pos <= i < cap implies #[trigger] area[i] == 0xFFu8 by {
            assert(bytes[start + i] == 0xFFu8);
        }
    }
}

/// What `n` erase and program operations in the cells `[from, to)` do to a
/// device, whether they all take place (`ok`) or the device faults at one
/// of them.
#[verifier::opaque]
pub open spec fn ran(
    before: DeviceState,
    after: DeviceState,
    from: int,
    to: int,
    n: nat,
    ok: bool,
) -> bool {
    &&& after.unit == before.unit
    &&& after.bytes.len() == before.bytes.len()
    &&& ok == affords(before.budget, n)
    &&& ok ==> after.budget == spend(before.budget, n)
    &&& !ok ==> after.budget == Some(0nat)
    &&& forall|i: int|
        0 <= i < before.bytes.len() && !(from <= i < to) ==> after.bytes[i] == before.bytes[i]
}

/// Operations that took place, and more behind them.
pub proof fn lemma_ran_then(
    d0: DeviceState,
    d1: DeviceState,
    d2: DeviceState,
    from: int,
    to: int,
    n: nat,
    m: nat,
    ok: bool,
)
    requires
        ran(d0, d1, from, to, n, true),
        ran(d1, d2, from, to, m, ok),
    ensures
        ran(d0, d2, from, to, n + m, ok),
{
    reveal(ran);
}

/// A device that faulted before the last of fewer operations faults before
/// the last of more.
pub proof fn lemma_ran_short(
    d0: DeviceState,
    d1: DeviceState,
    from: int,
    to: int,
    n: nat,
    m: nat,
)
    requires
        ran(d0, d1, from, to, n, false),
    ensures
        ran(d0, d1, from, to, n + m, false),
{
    reveal(ran);
}

/// Operations inside a range are operations inside a wider one.
pub proof fn lemma_ran_wider(
    d0: DeviceState,
    d1: DeviceState,
    from: int,
    to: int,
    from2: int,
    to2: int,
    n: nat,
    ok: bool,
)
    requires
        ran(d0, d1, from, to, n, ok),
        from2 <= from,
        to <= to2,
    ensures
        ran(d0, d1, from2, to2, n, ok),
{
    reveal(ran);
}

/// No operation leaves the device as it is.
pub proof fn lemma_ran_none(d0: DeviceState, from: int, to: int)
    ensures
        ran(d0, d0, from, to, 0, true),
{
    reveal(ran);
}

/// Where the record cells of a bank begin.
pub open spec fn area_from(base: int, bank: int, second: bool) -> int {
    bank_start(base, bank, second) + 1
}

/// Where the record cells of a bank end.
pub open spec fn area_to(base: int, bank: int, second: bool) -> int {
    bank_start(base, bank, second) + bank
}

/// Programs `data` at `off` in the record cells of a bank.
pub fn program_area(
    dev: &mut FlashDevice,
    base: usize,
    bank: usize,
    second: bool,
    off: usize,
    data: &[u8],
) -> (ok: bool)
    requires
        old(dev).wf(),
        fits(old(dev)@, base as int, bank as int),
        off + data@.len() <= bank - 1,
        region_programmable(area_of(old(dev)@.bytes, base as int, bank as int, second), off as int, data@),
    ensures
        final(dev).wf(),
        fits(final(dev)@, base as int, bank as int),
        ran(
            old(dev)@,
            final(dev)@,
            area_from(base as int, bank as int, second),
            area_to(base as int, bank as int, second),
            1,
            ok,
        ),
        !ok ==> final(dev)@ == old(dev)@,
        ok ==> area_of(final(dev)@.bytes, base as int, bank as int, second) == overwrite(
            area_of(old(dev)@.bytes, base as int, bank as int, second),
            off as int,
            data@,
        ),
{
    let from: usize = if second {
        base + bank
    } else {
        base
    };
    let ghost bytes = dev@.bytes;
    let ghost area = area_of(bytes, base as int, bank as int, second);
    proof {
        reveal(ran);
        assert forall|i: int| 0 <= i < data@.len() implies crate::device::programmable(
            bytes[from + 1 + off + i],
            #[trigger] data@[i],
        ) by {
            assert(area[off + i] == bytes[from + 1 + off + i]);
        }
    }
    match dev.write(from + 1 + off, data) {
        Ok(()) => {
            proof {
                assert(area_of(dev@.bytes, base as int, bank as int, second) =~= overwrite(
                    area,
                    off as int,
                    data@,
                ));
            }
            true
        },
        Err(_) => false,
    }
}

/// Where the erase units of a bank lie.
pub proof fn lemma_unit_index(unit: int, from: int, bank: int, len: int, k: int)
    requires
        unit > 0,
        0 <= from,
        from % unit == 0,
        bank % unit == 0,
        len % unit == 0,
        from + bank <= len,
        0 <= k < bank / unit,
    ensures
        (from / unit + k) * unit == from + k * unit,
        (from / unit + k + 1) * unit == from + k * unit + unit,
        from + k * unit + unit <= from + bank,
        0 <= k * unit,
        (k + 1) * unit == k * unit + unit,
        from / unit + k < len / unit,
        0 <= from / unit,
{
    vstd::arithmetic::div_mod::lemma_fundamental_div_mod(from, unit);
    vstd::arithmetic::div_mod::lemma_fundamental_div_mod(bank, unit);
    vstd::arithmetic::div_mod::lemma_fundamental_div_mod(len, unit);
    let q = from / unit;
    let b = bank / unit;
    let l = len / unit;
    assert(from == unit * q);
    assert(bank == unit * b);
    assert(len == unit * l);
    assert((q + k) * unit == unit * q + k * unit) by (nonlinear_arith);
    assert((q + k + 1) * unit == unit * q + k * unit + unit) by (nonlinear_arith);
    assert((k + 1) * unit == k * unit + unit) by (nonlinear_arith);
    assert(k * unit + unit <= unit * b) by (nonlinear_arith)
        requires
            0 <= k < b,
            unit > 0,
    ;
    assert(0 <= k * unit) by (nonlinear_arith)
        requires
            0 <= k,
            unit > 0,
    ;
    assert(q + k < l) by (nonlinear_arith)
        requires
            (q + k + 1) * unit <= unit * l,
            unit > 0,
    ;
    assert(0 <= q) by (nonlinear_arith)
        requires
            0 <= unit * q,
            unit > 0,
    ;
}

/// The second bank begins on an erase unit, as the first does.
pub proof fn lemma_bank_aligned(unit: int, base: int, bank: int)
    requires
        unit > 0,
        base % unit == 0,
        bank % unit == 0,
    ensures
        (base + bank) % unit == 0,
{
    vstd::arithmetic::div_mod::lemma_fundamental_div_mod(base, unit);
    vstd::arithmetic::div_mod::lemma_fundamental_div_mod(bank, unit);
    let q = base / unit + bank / unit;
    vstd::arithmetic::div_mod::lemma_mod_multiples_basic(q, unit);
    assert(q * unit == unit * (base / unit) + unit * (bank / unit)) by (nonlinear_arith)
        requires
            q == base / unit + bank / unit,
    ;
}

/// The whole of a bank is its erase units.
pub proof fn lemma_unit_count(unit: int, bank: int)
    requires
        unit > 0,
        bank >= 0,
        bank % unit == 0,
    ensures
        (bank / unit) * unit == bank,
        bank / unit >= 0,
{
    vstd::arithmetic::div_mod::lemma_fundamental_div_mod(bank, unit);
    assert((bank / unit) * unit == unit * (bank / unit)) by (nonlinear_arith);
    assert(bank / unit >= 0) by (nonlinear_arith)
        requires
            unit * (bank / unit) >= 0,
            unit > 0,
    ;
}

/// Erases the units of a bank, one after the other.
pub fn erase_bank(dev: &mut FlashDevice, base: usize, bank: usize, second: bool) -> (ok: bool)
    requires
        old(dev).wf(),
        fits(old(dev)@, base as int, bank as int),
    ensures
        final(dev).wf(),
        fits(final(dev)@, base as int, bank as int),
        ran(
            old(dev)@,
            final(dev)@,
            bank_start(base as int, bank as int, second),
            bank_start(base as int, bank as int, second) + bank,
            (bank as nat) / old(dev)@.unit,
            ok,
        ),
        ok ==> region_erased(
            final(dev)@.bytes,
            bank_start(base as int, bank as int, second),
            bank_start(base as int, bank as int, second) + bank,
        ),
        forall|i: int|
            bank_start(base as int, bank as int, second) <= i < bank_start(
                base as int,
                bank as int,
                second,
            ) + bank ==> final(dev)@.bytes[i] == old(dev)@.bytes[i] || final(dev)@.bytes[i]
                == 0xFFu8,
{
    let unit: usize = dev.unit_size();
    let from: usize = if second {
        base + bank
    } else {
        base
    };
    let first: usize = from / unit;
    let count: usize = bank / unit;
    let ghost dev0 = dev@;
    let ghost to = from + bank;
    let mut k: usize = 0;
    proof {
        lemma_ran_none(dev0, from as int, to);
        assert(0 * unit == 0) by (nonlinear_arith);
        lemma_bank_aligned(unit as int, base as int, bank as int);
    }
    while k < count
        invariant
            k <= count,
            dev0 == old(dev)@,
            fits(dev0, base as int, bank as int),
            from == bank_start(base as int, bank as int, second),
            count == bank / unit,
            first == from / unit,
            unit == dev0.unit,
            unit > 0,
            from % unit == 0,
            bank % unit == 0,
            to == from + bank,
            to <= dev0.bytes.len(),
            dev.wf(),
            dev@.unit == dev0.unit,
            dev@.bytes.len() == dev0.bytes.len(),
            ran(dev0, dev@, from as int, to, k as nat, true),
            region_erased(dev@.bytes, from as int, from + k * unit),
            forall|i: int|
                from <= i < to ==> dev@.bytes[i] == dev0.bytes[i] || dev@.bytes[i] == 0xFFu8,
        decreases count - k,
    {
        let ghost dk = dev@;
        proof {
            lemma_unit_index(unit as int, from as int, bank as int, dk.bytes.len() as int, k as int);
        }
        match dev.erase(first + k) {
            Ok(()) => {
                proof {
                    assert(ran(dk, dev@, from as int, to, 1, true)) by {
                        reveal(ran);
                    }
                    lemma_ran_then(dev0, dk, dev@, from as int, to, k as nat, 1, true);
                }
            },
            Err(_) => {
                proof {
                    assert(ran(dk, dev@, from as int, to, 1, false)) by {
                        reveal(ran);
                    }
                    lemma_ran_then(dev0, dk, dev@, from as int, to, k as nat, 1, false);
                    lemma_ran_short(
                        dev0,
                        dev@,
                        from as int,
                        to,
                        (k + 1) as nat,
                        (count - k - 1) as nat,
                    );
                }
                return false;
            },
        }
        k = k + 1;
    }
    proof {
        lemma_unit_count(unit as int, bank as int);
    }
    true
}

/// Programs the marker of the second bank.
pub fn program_marker(dev: &mut FlashDevice, base: usize, bank: usize, value: u8) -> (ok: bool)
    requires
        old(dev).wf(),
        fits(old(dev)@, base as int, bank as int),
        crate::device::programmable(old(dev)@.bytes[base + bank], value),
    ensures
        final(dev).wf(),
        ran(old(dev)@, final(dev)@, base + bank, base + bank + 1, 1, ok),
        !ok ==> final(dev)@ == old(dev)@,
        ok ==> final(dev)@.bytes[base + bank] == value,
{
    let mut mark: Vec<u8> = Vec::new();
    mark.push(value);
    proof {
        reveal(ran);
    }
    match dev.write(base + bank, mark.as_slice()) {
        Ok(()) => true,
        Err(_) => false,
    }
}

/// Operations in the record cells of the bank that holds the log leave the
/// marker and the other bank.
pub proof fn lemma_marker_kept(
    dev0: DeviceState,
    dev1: DeviceState,
    base: int,
    bank: int,
    second: bool,
    n: nat,
    ok: bool,
)
    requires
        fits(dev0, base, bank),
        second == second_active(dev0.bytes, base, bank),
        ran(dev0, dev1, area_from(base, bank, second), area_to(base, bank, second), n, ok),
    ensures
        second_active(dev1.bytes, base, bank) == second,
        spare_erased(dev1.bytes, base, bank) == spare_erased(dev0.bytes, base, bank),
        ran(dev0, dev1, base, base + 2 * bank, n, ok),
{
    reveal(ran);
    assert(dev1.bytes[base + bank] == dev0.bytes[base + bank]);
    let from = bank_start(base, bank, !second);
    if spare_erased(dev0.bytes, base, bank) {
        assert forall|i: int| from <= i < from + bank implies #[trigger] dev1.bytes[i]
            == 0xFFu8 by {
            assert(dev0.bytes[i] == 0xFFu8);
        }
    }
    if spare_erased(dev1.bytes, base, bank) {
        assert forall|i: int| from <= i < from + bank implies #[trigger] dev0.bytes[i]
            == 0xFFu8 by {
            assert(dev1.bytes[i] == 0xFFu8);
        }
    }
}

/// Operations in the cells of one bank leave the record cells of the other.
pub proof fn lemma_other_bank(
    dev0: DeviceState,
    dev1: DeviceState,
    base: int,
    bank: int,
    second: bool,
    n: nat,
    ok: bool,
)
    requires
        fits(dev0, base, bank),
        ran(
            dev0,
            dev1,
            bank_start(base, bank, !second),
            bank_start(base, bank, !second) + bank,
            n,
            ok,
        ),
    ensures
        fits(dev1, base, bank),
        area_of(dev1.bytes, base, bank, second) == area_of(dev0.bytes, base, bank, second),
        second ==> dev1.bytes[base + bank] == dev0.bytes[base + bank],
{
    reveal(ran);
    assert(area_of(dev1.bytes, base, bank, second) =~= area_of(dev0.bytes, base, bank, second));
}

/// The erase and program operations of a compaction: the other bank's
/// units unless it is known to be erased, one record for each stored pair,
/// the marker, and the units of the bank that held the log.
pub open spec fn compaction_cost(dev: DeviceState, base: int, bank: int, spare_blank: bool) -> nat {
    let units = (bank as nat) / dev.unit;
    let wipe_cost = if spare_blank {
        0nat
    } else {
        units
    };
    wipe_cost + stored(dev.bytes, base, bank).len() + 1 + units
}

/// Operations in the record cells of a bank leave its first cell.
pub proof fn lemma_first_cell(
    dev0: DeviceState,
    dev1: DeviceState,
    base: int,
    bank: int,
    second: bool,
    n: nat,
    ok: bool,
)
    requires
        fits(dev0, base, bank),
        ran(dev0, dev1, area_from(base, bank, second), area_to(base, bank, second), n, ok),
    ensures
        dev1.bytes[bank_start(base, bank, second)] == dev0.bytes[bank_start(base, bank, second)],
        ran(
            dev0,
            dev1,
            bank_start(base, bank, second),
            bank_start(base, bank, second) + bank,
            n,
            ok,
        ),
{
    reveal(ran);
}

/// The erase and program operations that storing a record of `size` bytes
/// takes: three for the record, and before them a compaction where the
/// record does not fit behind the log.
pub open spec fn put_cost(
    dev: DeviceState,
    base: int,
    bank: int,
    spare_blank: bool,
    size: nat,
) -> nat {
    if log_end(active_area(dev.bytes, base, bank), 0) + size <= capacity(bank) {
        3
    } else {
        compaction_cost(dev, base, bank, spare_blank) + 3
    }
}

/// The flash that a tombstone for `ns` and `key` takes.
pub open spec fn tombstone_size(ns: Seq<u8>, key: Seq<u8>) -> nat {
    HEADER_LEN as nat + ns.len() + key.len()
}

/// What `ran` says, spelled out.
pub proof fn lemma_ran_means(
    before: DeviceState,
    after: DeviceState,
    from: int,
    to: int,
    n: nat,
    ok: bool,
)
    requires
        ran(before, after, from, to, n, ok),
    ensures
        after.unit == before.unit,
        after.bytes.len() == before.bytes.len(),
        ok == affords(before.budget, n),
        ok ==> after.budget == spend(before.budget, n),
        !ok ==> after.budget == Some(0nat),
        forall|i: int|
            0 <= i < before.bytes.len() && !(from <= i < to) ==> after.bytes[i] == before.bytes[i],
{
    reveal(ran);
}

/// What a partition holds depends on its own cells alone.
pub proof fn lemma_stored_frame(b0: Seq<u8>, b1: Seq<u8>, base: int, bank: int)
    requires
        0 <= base,
        1 <= bank,
        base + 2 * bank <= b0.len(),
        b0.len() == b1.len(),
        forall|i: int| base <= i < base + 2 * bank ==> b0[i] == b1[i],
    ensures
        active_area(b1, base, bank) == active_area(b0, base, bank),
        stored(b1, base, bank) == stored(b0, base, bank),
        spare_erased(b1, base, bank) == spare_erased(b0, base, bank),
{
    assert(b0[base + bank] == b1[base + bank]);
    assert(active_area(b1, base, bank) =~= active_area(b0, base, bank));
    let from = bank_start(base, bank, !second_active(b0, base, bank));
    if spare_erased(b0, base, bank) {
        assert forall|i: int| from <= i < from + bank implies #[trigger] b1[i] == 0xFFu8 by {
            assert(b0[i] == 0xFFu8);
        }
    }
    if spare_erased(b1, base, bank) {
        assert forall|i: int| from <= i < from + bank implies #[trigger] b0[i] == 0xFFu8 by {
            assert(b1[i] == 0xFFu8);
        }
    }
}

} // verus!
