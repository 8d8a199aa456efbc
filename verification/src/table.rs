//! The partition table: the directory, in the first erase unit of the
//! device, that gives each partition its name and its cells.
//!
//! | offset | bytes | field                                   |
//! |--------|-------|-----------------------------------------|
//! | 0      | 4     | magic                                   |
//! | 4      | 1     | number of entries                       |
//! | 5      | 4     | digest of the entries, little-endian    |
//! | 9      | 26 ×  | the entries                             |
//!
//! An entry is a kind byte, a subkind byte, the partition's offset and its
//! size (four bytes each, little-endian) and sixteen bytes of name, which
//! ends at its first NUL byte.

use vstd::prelude::*;
use crate::codec::{
    copy_range,
    digest_more,
    get_le32,
    push_le32,
    same_bytes,
};
use crate::device::{
    affords,
    lemma_erased_is_programmable,
    programmable,
    spend,
    DeviceState,
    FlashDevice,
};
use crate::error::StoreError;
use crate::names::{cut_at_nul, lemma_cut_padded, name_of};
use crate::record::{
    digest,
    le32,
    le32_bytes,
    lemma_le32_round_trip,
    DIGEST_SEED,
};

verus! {

/// The length of the table's head: magic, count and digest.
pub const TABLE_HEAD: usize = 9;

/// The length of an entry.
pub const ENTRY_LEN: usize = 26;

/// The length of the name field of an entry.
pub const NAME_LEN: usize = 16;

/// The four bytes that begin a partition table.
pub open spec fn magic() -> Seq<u8> {
    seq![0x46u8, 0x4Bu8, 0x56u8, 0x54u8]
}

/// A partition, to the contracts.
pub struct PartitionView {
    pub name: Seq<u8>,
    pub kind: u8,
    pub subkind: u8,
    pub offset: nat,
    pub size: nat,
}

/// A partition: a named run of erase units.
#[derive(Debug)]
pub struct Partition {
    pub name: Vec<u8>,
    pub kind: u8,
    pub subkind: u8,
    pub offset: u32,
    pub size: u32,
}

impl View for Partition {
    type V = PartitionView;

    open spec fn view(&self) -> PartitionView {
        PartitionView {
            name: self.name@,
            kind: self.kind,
            subkind: self.subkind,
            offset: self.offset as nat,
            size: self.size as nat,
        }
    }
}

/// The partition is named, lies behind the table and inside the device,
/// and is two banks of whole erase units.
pub open spec fn part_ok(p: PartitionView, unit: nat, len: nat) -> bool {
    &&& 1 <= p.name.len() <= NAME_LEN
    &&& forall|k: int| 0 <= k < p.name.len() ==> p.name[k] != 0
    &&& unit > 0
    &&& p.offset >= unit
    &&& p.offset % unit == 0
    &&& p.size % 2 == 0
    &&& (p.size / 2) % unit == 0
    &&& p.size / 2 >= unit
    &&& p.offset + p.size <= len
    &&& p.offset < 0x1_0000_0000
    &&& p.size < 0x1_0000_0000
}

/// Two partitions differ in name and share no cell.
pub open spec fn apart(a: PartitionView, b: PartitionView) -> bool {
    &&& a.name != b.name
    &&& (a.offset + a.size <= b.offset || b.offset + b.size <= a.offset)
}

/// The partitions of a valid table: each is a valid partition, and any two
/// are apart.
pub open spec fn parts_ok(parts: Seq<PartitionView>, unit: nat, len: nat) -> bool {
    &&& forall|i: int| 0 <= i < parts.len() ==> part_ok(#[trigger] parts[i], unit, len)
    &&& forall|i: int, j: int|
        0 <= i < j < parts.len() ==> apart(#[trigger] parts[i], #[trigger] parts[j])
}

/// The entry at `pos`.
pub open spec fn entry_at(head: Seq<u8>, pos: int) -> PartitionView {
    PartitionView {
        kind: head[pos],
        subkind: head[pos + 1],
        offset: le32(head, pos + 2),
        size: le32(head, pos + 6),
        name: cut_at_nul(head.subrange(pos + 10, pos + ENTRY_LEN)),
    }
}

/// The number of entries that the head of a table gives.
pub open spec fn entry_count(head: Seq<u8>) -> nat {
    head[4] as nat
}

/// The entries of the table in `head`.
pub open spec fn entries(head: Seq<u8>) -> Seq<PartitionView> {
    Seq::new(entry_count(head), |i: int| entry_at(head, TABLE_HEAD + ENTRY_LEN * i))
}

/// The first erase unit `head` of a device of `len` bytes holds a table:
/// magic and digest are right, the entries lie inside the unit, and they
/// are the partitions of a valid table.
pub open spec fn head_ok(head: Seq<u8>, len: nat) -> bool {
    &&& head.len() >= TABLE_HEAD
    &&& head.subrange(0, 4) == magic()
    &&& TABLE_HEAD + ENTRY_LEN * entry_count(head) <= head.len()
    &&& le32(head, 5) == digest(
        head.subrange(TABLE_HEAD as int, TABLE_HEAD + ENTRY_LEN * entry_count(head)),
    )
    &&& parts_ok(entries(head), head.len(), len)
}

/// The device holds a partition table.
pub open spec fn table_ok(dev: DeviceState) -> bool {
    &&& 0 < dev.unit <= dev.bytes.len()
    &&& head_ok(dev.bytes.take(dev.unit as int), dev.bytes.len())
}

/// The partitions that the table on the device gives.
pub open spec fn table_of(dev: DeviceState) -> Seq<PartitionView> {
    entries(dev.bytes.take(dev.unit as int))
}

/// The bytes of an entry for `p`.
pub open spec fn entry_bytes(p: PartitionView) -> Seq<u8> {
    seq![p.kind, p.subkind] + le32_bytes(p.offset) + le32_bytes(p.size) + p.name + Seq::new(
        (NAME_LEN - p.name.len()) as nat,
        |i: int| 0u8,
    )
}

/// The bytes of the entries for `parts`, one after the other.
pub open spec fn entries_bytes(parts: Seq<PartitionView>) -> Seq<u8>
    decreases parts.len(),
{
    if parts.len() == 0 {
        Seq::empty()
    } else {
        entries_bytes(parts.drop_last()) + entry_bytes(parts.last())
    }
}

/// The partition table, as loaded from the device.
pub struct PartitionTable {
    parts: Vec<Partition>,
}

/// The views of the partitions.
pub open spec fn views(parts: Seq<Partition>) -> Seq<PartitionView> {
    Seq::new(parts.len(), |i: int| parts[i]@)
}

impl View for PartitionTable {
    type V = Seq<PartitionView>;

    closed spec fn view(&self) -> Seq<PartitionView> {
        views(self.parts@)
    }
}

/// Reads the entry at `pos`.
fn parse_entry(head: &[u8], pos: usize) -> (p: Partition)
    requires
        pos + ENTRY_LEN <= head@.len(),
    ensures
        p@ == entry_at(head@, pos as int),
{
    let n: usize = head.len();
    let field = copy_range(head, pos + 10, pos + ENTRY_LEN);
    Partition {
        kind: head[pos],
        subkind: head[pos + 1],
        offset: get_le32(head, pos + 2),
        size: get_le32(head, pos + 6),
        name: name_of(field.as_slice()),
    }
}

/// Whether the partition is a valid one on a device of `len` bytes with
/// erase units of `unit` bytes.
fn check_part(p: &Partition, unit: usize, len: usize) -> (r: bool)
    requires
        unit > 0,
    ensures
        r == part_ok(p@, unit as nat, len as nat),
{
    if p.name.len() < 1 || p.name.len() > NAME_LEN {
        return false;
    }
    let mut k: usize = 0;
    while k < p.name.len()
        invariant
            k <= p.name@.len(),
            forall|i: int| 0 <= i < k ==> p.name@[i] != 0,
        decreases p.name@.len() - k,
    {
        if p.name[k] == 0 {
            return false;
        }
        k = k + 1;
    }
    let offset: u64 = p.offset as u64;
    let size: u64 = p.size as u64;
    let half: u64 = size / 2;
    let unit64: u64 = unit as u64;
    offset >= unit64 && offset % unit64 == 0 && size % 2 == 0 && half % unit64 == 0 && half
        >= unit64 && offset + size <= len as u64
}

/// Whether the partition `p` is apart from each of the first `n` of `parts`.
fn check_apart(parts: &Vec<Partition>, n: usize, p: &Partition) -> (r: bool)
    requires
        n <= parts@.len(),
    ensures
        r == (forall|i: int| 0 <= i < n ==> apart(#[trigger] parts@[i]@, p@)),
{
    let mut i: usize = 0;
    while i < n
        invariant
            i <= n <= parts@.len(),
            forall|k: int| 0 <= k < i ==> apart(#[trigger] parts@[k]@, p@),
        decreases n - i,
    {
        let q = &parts[i];
        if same_bytes(q.name.as_slice(), p.name.as_slice()) {
            assert(!apart(parts@[i as int]@, p@));
            return false;
        }
        let q_from: u64 = q.offset as u64;
        let q_to: u64 = q_from + q.size as u64;
        let p_from: u64 = p.offset as u64;
        let p_to: u64 = p_from + p.size as u64;
        if !(q_to <= p_from || p_to <= q_from) {
            assert(!apart(parts@[i as int]@, p@));
            return false;
        }
        i = i + 1;
    }
    true
}

/// Whether `parts` are the partitions of a valid table.
fn check_parts(parts: &Vec<Partition>, unit: usize, len: usize) -> (r: bool)
    requires
        unit > 0,
    ensures
        r == parts_ok(views(parts@), unit as nat, len as nat),
{
    let ghost vs = views(parts@);
    let mut j: usize = 0;
    while j < parts.len()
        invariant
            j <= parts@.len(),
            unit > 0,
            vs == views(parts@),
            forall|i: int| 0 <= i < j ==> part_ok(#[trigger] vs[i], unit as nat, len as nat),
            forall|i: int, k: int| 0 <= i < k < j ==> apart(#[trigger] vs[i], #[trigger] vs[k]),
        decreases parts@.len() - j,
    {
        if !check_part(&parts[j], unit, len) {
            assert(!part_ok(vs[j as int], unit as nat, len as nat));
            return false;
        }
        if !check_apart(parts, j, &parts[j]) {
            proof {
                let i = choose|i: int| 0 <= i < j && !apart(#[trigger] parts@[i]@, parts@[j as int]@);
                assert(!apart(vs[i], vs[j as int]));
            }
            return false;
        }
        proof {
            assert forall|i: int, k: int| 0 <= i < k < j + 1 implies apart(
                #[trigger] vs[i],
                #[trigger] vs[k],
            ) by {
                if k == j {
                    assert(apart(parts@[i]@, parts@[j as int]@));
                }
            }
        }
        j = j + 1;
    }
    true
}

/// An entry's bytes are `ENTRY_LEN` long and read back as the partition.
pub proof fn lemma_entry_round_trip(head: Seq<u8>, pos: int, p: PartitionView)
    requires
        0 <= pos,
        pos + ENTRY_LEN <= head.len(),
        p.name.len() <= NAME_LEN,
        forall|k: int| 0 <= k < p.name.len() ==> p.name[k] != 0,
        p.offset < 0x1_0000_0000,
        p.size < 0x1_0000_0000,
        head.subrange(pos, pos + ENTRY_LEN) == entry_bytes(p),
    ensures
        entry_at(head, pos) == p,
{
    let eb = entry_bytes(p);
    let pad = Seq::new((NAME_LEN - p.name.len()) as nat, |i: int| 0u8);
    lemma_le32_round_trip(p.offset);
    lemma_le32_round_trip(p.size);
    assert(eb.len() == ENTRY_LEN);
    assert forall|k: int| 0 <= k < ENTRY_LEN implies head[pos + k] == eb[k] by {
        assert(head.subrange(pos, pos + ENTRY_LEN)[k] == head[pos + k]);
    }
    assert(head[pos] == eb[0] && head[pos + 1] == eb[1]);
    assert(head[pos + 2] == eb[2] && head[pos + 3] == eb[3] && head[pos + 4] == eb[4] && head[pos
        + 5] == eb[5]);
    assert(head[pos + 6] == eb[6] && head[pos + 7] == eb[7] && head[pos + 8] == eb[8] && head[pos
        + 9] == eb[9]);
    assert(le32(head, pos + 2) == le32(le32_bytes(p.offset), 0));
    assert(le32(head, pos + 6) == le32(le32_bytes(p.size), 0));
    let pre = seq![p.kind, p.subkind] + le32_bytes(p.offset) + le32_bytes(p.size);
    assert(pre.len() == 10);
    assert(eb =~= pre + (p.name + pad));
    assert forall|k: int| 0 <= k < NAME_LEN implies head[pos + 10 + k] == (p.name + pad)[k] by {
        assert(eb[10 + k] == (pre + (p.name + pad))[10 + k]);
    }
    assert(head.subrange(pos + 10, pos + ENTRY_LEN) =~= p.name + pad);
    lemma_cut_padded(p.name, pad);
}

/// The bytes of the entries are `ENTRY_LEN` for each, and each entry's
/// bytes lie at its place.
pub proof fn lemma_entries_bytes(parts: Seq<PartitionView>, i: int)
    requires
        forall|k: int| 0 <= k < parts.len() ==> (#[trigger] parts[k]).name.len() <= NAME_LEN,
        0 <= i < parts.len(),
    ensures
        entries_bytes(parts).len() == ENTRY_LEN * parts.len(),
        entries_bytes(parts).subrange(ENTRY_LEN * i, ENTRY_LEN * i + ENTRY_LEN) == entry_bytes(
            parts[i],
        ),
    decreases parts.len(),
{
    let front = parts.drop_last();
    let last = parts.last();
    assert(entry_bytes(last).len() == ENTRY_LEN);
    lemma_entries_len(front);
    if i == parts.len() - 1 {
        assert(entries_bytes(parts).subrange(ENTRY_LEN * i, ENTRY_LEN * i + ENTRY_LEN)
            =~= entry_bytes(last));
    } else {
        assert(front[i] == parts[i]);
        lemma_entries_bytes(front, i);
        assert(entries_bytes(parts).subrange(ENTRY_LEN * i, ENTRY_LEN * i + ENTRY_LEN)
            =~= entries_bytes(front).subrange(ENTRY_LEN * i, ENTRY_LEN * i + ENTRY_LEN));
    }
}

/// The bytes of the entries are `ENTRY_LEN` for each.
pub proof fn lemma_entries_len(parts: Seq<PartitionView>)
    requires
        forall|k: int| 0 <= k < parts.len() ==> (#[trigger] parts[k]).name.len() <= NAME_LEN,
    ensures
        entries_bytes(parts).len() == ENTRY_LEN * parts.len(),
    decreases parts.len(),
{
    if parts.len() > 0 {
        let front = parts.drop_last();
        assert forall|k: int| 0 <= k < front.len() implies (#[trigger] front[k]).name.len()
            <= NAME_LEN by {
            assert(front[k] == parts[k]);
        }
        lemma_entries_len(front);
        assert(entry_bytes(parts.last()).len() == ENTRY_LEN);
    }
}

/// The pieces of a table that lies at the beginning of `head`.
pub proof fn lemma_table_pieces(head: Seq<u8>, t: Seq<u8>, n: u8, sum: nat, eb: Seq<u8>)
    requires
        t == magic() + seq![n] + le32_bytes(sum) + eb,
        t.len() <= head.len(),
        head.subrange(0, t.len() as int) == t,
        sum < 0x1_0000_0000,
    ensures
        t.len() == TABLE_HEAD + eb.len(),
        head.subrange(0, 4) == magic(),
        head[4] == n,
        le32(head, 5) == sum,
        head.subrange(TABLE_HEAD as int, TABLE_HEAD + eb.len()) == eb,
{
    lemma_le32_round_trip(sum);
    let pre = magic() + seq![n] + le32_bytes(sum);
    assert(pre.len() == TABLE_HEAD);
    assert forall|k: int| 0 <= k < t.len() implies head[k] == t[k] by {
        assert(head.subrange(0, t.len() as int)[k] == head[k]);
    }
    assert(head.subrange(0, 4) =~= magic()) by {
        assert(head[0] == t[0] && head[1] == t[1] && head[2] == t[2] && head[3] == t[3]);
    }
    assert(head[4] == t[4]);
    assert(head[5] == t[5] && head[6] == t[6] && head[7] == t[7] && head[8] == t[8]);
    assert(le32(head, 5) == le32(le32_bytes(sum), 0));
    assert(head.subrange(TABLE_HEAD as int, TABLE_HEAD + eb.len()) =~= eb) by {
        assert forall|k: int| 0 <= k < eb.len() implies head[TABLE_HEAD + k] == eb[k] by {
            assert(t[TABLE_HEAD + k] == (pre + eb)[TABLE_HEAD + k]);
        }
    }
}

/// A first erase unit with magic, count and digest in place, and behind
/// them the entries of valid partitions, holds their table.
pub proof fn lemma_table_round_trip(head: Seq<u8>, parts: Seq<PartitionView>, len: nat)
    requires
        parts.len() <= 255,
        parts_ok(parts, head.len(), len),
        TABLE_HEAD + ENTRY_LEN * parts.len() <= head.len(),
        head.subrange(0, 4) == magic(),
        head[4] == parts.len(),
        le32(head, 5) == digest(entries_bytes(parts)),
        head.subrange(TABLE_HEAD as int, TABLE_HEAD + ENTRY_LEN * parts.len()) == entries_bytes(
            parts,
        ),
    ensures
        head_ok(head, len),
        entries(head) == parts,
{
    let eb = entries_bytes(parts);
    let n = parts.len();
    assert forall|k: int| 0 <= k < parts.len() implies (#[trigger] parts[k]).name.len()
        <= NAME_LEN by {
        assert(part_ok(parts[k], head.len(), len));
    }
    assert forall|i: int| 0 <= i < n implies entry_at(head, TABLE_HEAD + ENTRY_LEN * i)
        == parts[i] by {
        lemma_entries_bytes(parts, i);
        assert(part_ok(parts[i], head.len(), len));
        let pos = TABLE_HEAD + ENTRY_LEN * i;
        assert(head.subrange(pos, pos + ENTRY_LEN) =~= head.subrange(
            TABLE_HEAD as int,
            TABLE_HEAD + ENTRY_LEN * n,
        ).subrange(ENTRY_LEN * i, ENTRY_LEN * i + ENTRY_LEN));
        lemma_entry_round_trip(head, pos, parts[i]);
    }
    assert(entries(head) =~= parts);
}

/// Magic, count and digest, and behind them the entries.
fn frame_table(n: u8, sum: u32, body: &[u8]) -> (table: Vec<u8>)
    ensures
        table@ == magic() + seq![n] + le32_bytes(sum as nat) + body@,
        table@.len() == TABLE_HEAD + body@.len(),
{
    let mut table: Vec<u8> = Vec::new();
    table.push(0x46);
    table.push(0x4B);
    table.push(0x56);
    table.push(0x54);
    table.push(n);
    assert(table@ =~= magic() + seq![n]);
    push_le32(&mut table, sum);
    table.extend_from_slice(body);
    table
}

/// The bytes of the entries for `parts`.
fn encode_entries(parts: &Vec<Partition>) -> (body: Vec<u8>)
    requires
        forall|k: int| 0 <= k < parts@.len() ==> (#[trigger] parts@[k]).name@.len() <= NAME_LEN,
    ensures
        body@ == entries_bytes(views(parts@)),
{
    let ghost vs = views(parts@);
    let mut body: Vec<u8> = Vec::new();
    let mut i: usize = 0;
    assert(vs.take(0) =~= Seq::<PartitionView>::empty());
    while i < parts.len()
        invariant
            i <= parts@.len(),
            vs == views(parts@),
            forall|k: int| 0 <= k < parts@.len() ==> (#[trigger] parts@[k]).name@.len() <= NAME_LEN,
            body@ == entries_bytes(vs.take(i as int)),
        decreases parts@.len() - i,
    {
        let p = &parts[i];
        let ghost before = body@;
        body.push(p.kind);
        body.push(p.subkind);
        push_le32(&mut body, p.offset);
        push_le32(&mut body, p.size);
        body.extend_from_slice(p.name.as_slice());
        let mut k: usize = p.name.len();
        while k < NAME_LEN
            invariant
                p.name@.len() <= k <= NAME_LEN,
                body@ == before + seq![p.kind, p.subkind] + le32_bytes(p.offset as nat)
                    + le32_bytes(p.size as nat) + p.name@ + Seq::new(
                    (k - p.name@.len()) as nat,
                    |i: int| 0u8,
                ),
            decreases NAME_LEN - k,
        {
            body.push(0);
            k = k + 1;
            assert(body@ =~= before + seq![p.kind, p.subkind] + le32_bytes(p.offset as nat)
                + le32_bytes(p.size as nat) + p.name@ + Seq::new(
                (k - p.name@.len()) as nat,
                |i: int| 0u8,
            ));
        }
        proof {
            assert(vs.take(i + 1).drop_last() =~= vs.take(i as int));
            assert(vs.take(i + 1).last() == p@);
            assert(body@ =~= before + entry_bytes(p@));
        }
        i = i + 1;
    }
    assert(vs.take(i as int) =~= vs);
    body
}

impl PartitionTable {
    /// The table is a valid one for a device of `len` bytes with erase units
    /// of `unit` bytes.
    pub open spec fn wf(&self, unit: nat, len: nat) -> bool {
        parts_ok(self@, unit, len)
    }

    /// Reads the partition table in the first erase unit of the device.
    pub fn load(dev: &FlashDevice) -> (r: Result<PartitionTable, StoreError>)
        requires
            dev.wf(),
        ensures
            r is Ok <==> table_ok(dev@),
            r is Err ==> r->Err_0 == StoreError::TableCorrupt,
            r matches Ok(t) ==> t@ == table_of(dev@) && t.wf(dev@.unit, dev@.bytes.len()),
    {
        let unit: usize = dev.unit_size();
        let len: usize = dev.size();
        if len < unit || unit < TABLE_HEAD {
            return Err(StoreError::TableCorrupt);
        }
        let head = dev.read(0, unit).unwrap();
        assert(head@ =~= dev@.bytes.take(unit as int));
        if !(head[0] == 0x46 && head[1] == 0x4B && head[2] == 0x56 && head[3] == 0x54) {
            assert(head@.subrange(0, 4)[0] == head@[0]);
            assert(head@.subrange(0, 4)[1] == head@[1]);
            assert(head@.subrange(0, 4)[2] == head@[2]);
            assert(head@.subrange(0, 4)[3] == head@[3]);
            return Err(StoreError::TableCorrupt);
        }
        assert(head@.subrange(0, 4) =~= magic());
        let count: usize = head[4] as usize;
        let need: usize = TABLE_HEAD + ENTRY_LEN * count;
        if need > unit {
            return Err(StoreError::TableCorrupt);
        }
        let body = copy_range(head.as_slice(), TABLE_HEAD, need);
        if digest_more(DIGEST_SEED, body.as_slice()) != get_le32(head.as_slice(), 5) {
            return Err(StoreError::TableCorrupt);
        }
        let mut parts: Vec<Partition> = Vec::new();
        let mut i: usize = 0;
        while i < count
            invariant
                i <= count,
                count == entry_count(head@),
                TABLE_HEAD + ENTRY_LEN * count <= head@.len(),
                parts@.len() == i,
                forall|k: int|
                    0 <= k < i ==> (#[trigger] parts@[k])@ == entry_at(
                        head@,
                        TABLE_HEAD + ENTRY_LEN * k,
                    ),
            decreases count - i,
        {
            let p = parse_entry(head.as_slice(), TABLE_HEAD + ENTRY_LEN * i);
            parts.push(p);
            i = i + 1;
        }
        assert(views(parts@) =~= entries(head@));
        if !check_parts(&parts, unit, len) {
            return Err(StoreError::TableCorrupt);
        }
        Ok(PartitionTable { parts })
    }

    /// The number of partitions.
    pub fn len(&self) -> (n: usize)
        ensures
            n == self@.len(),
    {
        self.parts.len()
    }

    /// The partition at `i`.
    pub fn get(&self, i: usize) -> (p: &Partition)
        requires
            i < self@.len(),
        ensures
            p@ == self@[i as int],
    {
        &self.parts[i]
    }

    /// Looks for the partition named `name`: an exact match, byte for byte.
    pub fn find(&self, name: &[u8]) -> (r: Option<usize>)
        ensures
            match r {
                Some(i) => i < self@.len() && self@[i as int].name == name@,
                None => forall|i: int| 0 <= i < self@.len() ==> (#[trigger] self@[i]).name != name@,
            },
    {
        let mut i: usize = 0;
        while i < self.parts.len()
            invariant
                i <= self.parts@.len(),
                forall|k: int| 0 <= k < i ==> (#[trigger] self@[k]).name != name@,
            decreases self.parts@.len() - i,
        {
            if same_bytes(self.parts[i].name.as_slice(), name) {
                return Some(i);
            }
            i = i + 1;
        }
        None
    }
    /// Erases the first erase unit of the device and programs a table for
    /// `parts` into it. Partitions that are no valid table are refused
    /// before the device is touched.
    pub fn install(dev: &mut FlashDevice, parts: &Vec<Partition>) -> (r: Result<(), StoreError>)
        requires
            old(dev).wf(),
        ensures
            final(dev).wf(),
            final(dev)@.unit == old(dev)@.unit,
            final(dev)@.bytes.len() == old(dev)@.bytes.len(),
            forall|i: int|
                old(dev)@.unit <= i < old(dev)@.bytes.len() ==> final(dev)@.bytes[i] == old(dev)@.bytes[i],
            ({
                let unit = old(dev)@.unit;
                let len = old(dev)@.bytes.len();
                let valid = unit <= len && TABLE_HEAD + ENTRY_LEN * parts@.len() <= unit
                    && parts@.len() <= 255 && parts_ok(views(parts@), unit, len);
                if !valid {
                    r is Err && r->Err_0 == StoreError::TableCorrupt && final(dev)@ == old(dev)@
                } else if !affords(old(dev)@.budget, 2) {
                    r is Err && r->Err_0 == StoreError::IoError && final(dev)@.budget == Some(0nat)
                } else {
                    &&& r is Ok
                    &&& final(dev)@.budget == spend(old(dev)@.budget, 2)
                    &&& table_ok(final(dev)@)
                    &&& table_of(final(dev)@) == views(parts@)
                }
            }),
    {
        let unit: usize = dev.unit_size();
        let len: usize = dev.size();
        let ghost vs = views(parts@);
        if len < unit || parts.len() > 255 || TABLE_HEAD + ENTRY_LEN * parts.len() > unit {
            return Err(StoreError::TableCorrupt);
        }
        if !check_parts(parts, unit, len) {
            return Err(StoreError::TableCorrupt);
        }
        proof {
            assert forall|k: int| 0 <= k < parts@.len() implies (#[trigger] parts@[k]).name@.len()
                <= NAME_LEN by {
                assert(part_ok(vs[k], unit as nat, len as nat));
            }
            assert forall|k: int| 0 <= k < vs.len() implies (#[trigger] vs[k]).name.len()
                <= NAME_LEN by {
                assert(part_ok(vs[k], unit as nat, len as nat));
            }
            lemma_entries_len(vs);
        }
        let body = encode_entries(parts);
        let sum: u32 = digest_more(DIGEST_SEED, body.as_slice());
        let table = frame_table(parts.len() as u8, sum, body.as_slice());
        let ghost dev0 = dev@;
        proof {
            assert(1 * unit == unit) by (nonlinear_arith);
            assert(0 * unit == 0) by (nonlinear_arith);
            assert(dev0.bytes.len() / (unit as nat) >= 1) by (nonlinear_arith)
                requires
                    dev0.bytes.len() >= unit,
                    unit > 0,
            ;
        }
        match dev.erase(0) {
            Ok(()) => {},
            Err(_) => {
                return Err(StoreError::IoError);
            },
        }
        let ghost dev1 = dev@;
        proof {
            assert forall|i: int| 0 <= i < table@.len() implies programmable(
                dev1.bytes[0 + i],
                #[trigger] table@[i],
            ) by {
                lemma_erased_is_programmable(table@[i]);
            }
        }
        match dev.write(0, table.as_slice()) {
            Ok(()) => {},
            Err(_) => {
                return Err(StoreError::IoError);
            },
        }
        proof {
            let head = dev@.bytes.take(unit as int);
            assert(head.subrange(0, table@.len() as int) =~= table@);
            lemma_table_pieces(head, table@, parts@.len() as u8, sum as nat, body@);
            lemma_table_round_trip(head, vs, len as nat);
        }
        Ok(())
    }
}

} // verus!
