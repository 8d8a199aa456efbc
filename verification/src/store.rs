//! The store: a flash device, its partition table, and the record log of
//! each partition that has been initialised.
//!
//! What a partition holds is what a scan of its cells finds. The index that
//! the store keeps in memory is a cache of that; it is lost with the power,
//! and `init_partition` builds it again.

use vstd::prelude::*;
use vstd::string::StringSliceAdditionalSpecFns;
use crate::device::{affords, spend, DeviceState, FlashDevice};
use crate::error::StoreError;
use crate::layout::{
    active_area,
    capacity,
    compaction_cost,
    fits,
    lemma_ran_means,
    lemma_stored_frame,
    put_cost,
    spare_erased,
    stored,
    tombstone_size,
};
use crate::log::RecordLog;
use crate::names::{cut_at_nul, name_of_str};
use crate::record::{
    as_map,
    drop_key,
    live_size,
    log_end,
    log_ok,
    lookup,
    pair_size,
    pending,
    put,
    records,
    Pair,
};
use crate::table::{
    apart,
    part_ok,
    parts_ok,
    table_of,
    table_ok,
    Partition,
    PartitionTable,
    PartitionView,
};

verus! {

/// `parts[i]` is the partition named `name`.
pub open spec fn named(parts: Seq<PartitionView>, name: Seq<u8>, i: int) -> bool {
    0 <= i < parts.len() && parts[i].name == name
}

/// Where the partition named `name` stands in the table, if it names one.
pub open spec fn part_index(parts: Seq<PartitionView>, name: Seq<u8>) -> Option<int> {
    if exists|i: int| named(parts, name, i) {
        Some(choose|i: int| named(parts, name, i))
    } else {
        None
    }
}

/// Where a partition begins on the device.
pub open spec fn base_of(p: PartitionView) -> int {
    p.offset as int
}

/// The size of one of the two banks of a partition.
pub open spec fn bank_of(p: PartitionView) -> int {
    (p.size / 2) as int
}

/// What the partition `p` holds on a device with the cells `bytes`.
pub open spec fn held(bytes: Seq<u8>, p: PartitionView) -> Seq<Pair> {
    stored(bytes, base_of(p), bank_of(p))
}

/// The partition holds a log of intact records.
pub open spec fn sound(bytes: Seq<u8>, p: PartitionView) -> bool {
    log_ok(active_area(bytes, base_of(p), bank_of(p)))
}

/// In a valid table a name is the name of one partition.
pub proof fn lemma_part_index(parts: Seq<PartitionView>, unit: nat, len: nat, name: Seq<u8>, i: int)
    requires
        parts_ok(parts, unit, len),
        named(parts, name, i),
    ensures
        part_index(parts, name) == Some(i),
{
    let c = choose|c: int| named(parts, name, c);
    if c < i {
        assert(apart(parts[c], parts[i]));
    }
    if i < c {
        assert(apart(parts[i], parts[c]));
    }
}

/// A valid partition is a place for a log.
pub proof fn lemma_part_fits(dev: DeviceState, p: PartitionView)
    requires
        part_ok(p, dev.unit, dev.bytes.len()),
    ensures
        fits(dev, base_of(p), bank_of(p)),
        base_of(p) + 2 * bank_of(p) == p.offset + p.size,
{
}

/// Each partition that has a log has it in its own cells, and the log's
/// index is that of the cells.
spec fn tied(parts: Seq<PartitionView>, logs: Seq<Option<RecordLog>>, dev: DeviceState) -> bool {
    forall|j: int|
        0 <= j < logs.len() ==> ((#[trigger] logs[j]) matches Some(l) ==> l.wf(dev) && l.base()
            == base_of(parts[j]) && l.bank() == bank_of(parts[j]))
}

/// Operations in the cells of one partition leave what the others hold,
/// and their logs.
proof fn lemma_others_keep(
    parts: Seq<PartitionView>,
    logs: Seq<Option<RecordLog>>,
    dev0: DeviceState,
    dev1: DeviceState,
    i: int,
)
    requires
        parts_ok(parts, dev0.unit, dev0.bytes.len()),
        logs.len() == parts.len(),
        0 <= i < parts.len(),
        tied(parts, logs, dev0),
        dev1.unit == dev0.unit,
        dev1.bytes.len() == dev0.bytes.len(),
        forall|k: int|
            0 <= k < dev0.bytes.len() && !(parts[i].offset <= k < parts[i].offset + parts[i].size)
                ==> dev1.bytes[k] == dev0.bytes[k],
    ensures
        forall|j: int|
            0 <= j < parts.len() && j != i ==> held(dev1.bytes, #[trigger] parts[j]) == held(
                dev0.bytes,
                parts[j],
            ) && sound(dev1.bytes, parts[j]) == sound(dev0.bytes, parts[j]) && spare_erased(
                dev1.bytes,
                base_of(parts[j]),
                bank_of(parts[j]),
            ) == spare_erased(dev0.bytes, base_of(parts[j]), bank_of(parts[j])),
        forall|j: int|
            0 <= j < logs.len() && j != i ==> ((#[trigger] logs[j]) matches Some(l) ==> l.wf(dev1)),
{
    assert forall|j: int| 0 <= j < parts.len() && j != i implies held(
        dev1.bytes,
        #[trigger] parts[j],
    ) == held(dev0.bytes, parts[j]) && sound(dev1.bytes, parts[j]) == sound(dev0.bytes, parts[j])
        && spare_erased(dev1.bytes, base_of(parts[j]), bank_of(parts[j])) == spare_erased(
        dev0.bytes,
        base_of(parts[j]),
        bank_of(parts[j]),
    ) by {
        assert(part_ok(parts[j], dev0.unit, dev0.bytes.len()));
        assert(part_ok(parts[i], dev0.unit, dev0.bytes.len()));
        if j < i {
            assert(apart(parts[j], parts[i]));
        } else {
            assert(apart(parts[i], parts[j]));
        }
        lemma_stored_frame(dev0.bytes, dev1.bytes, base_of(parts[j]), bank_of(parts[j]));
    }
    assert forall|j: int| 0 <= j < logs.len() && j != i implies ((#[trigger] logs[j]) matches Some(
        l,
    ) ==> l.wf(dev1)) by {
        if let Some(l) = logs[j] {
            assert(part_ok(parts[j], dev0.unit, dev0.bytes.len()));
            assert(part_ok(parts[i], dev0.unit, dev0.bytes.len()));
            if j < i {
                assert(apart(parts[j], parts[i]));
            } else {
                assert(apart(parts[i], parts[j]));
            }
            l.lemma_wf_frame(dev0, dev1);
        }
    }
}

/// A flash device with its partition table and the logs of its partitions.
pub struct FlashStore {
    dev: FlashDevice,
    table: PartitionTable,
    logs: Vec<Option<RecordLog>>,
}

impl FlashStore {
    /// The device.
    pub closed spec fn device(&self) -> DeviceState {
        self.dev@
    }

    /// The partitions that the table gives.
    pub closed spec fn table(&self) -> Seq<PartitionView>
        recommends
            self.wf(),
    {
        self.table@
    }

    /// The partition at `i` has been initialised.
    pub closed spec fn ready(&self, i: int) -> bool {
        0 <= i < self.logs@.len() && self.logs@[i] is Some
    }

    /// The store knows the idle bank of the partition at `i` to be erased.
    pub closed spec fn spare_blank(&self, i: int) -> bool {
        0 <= i < self.logs@.len() && self.logs@[i] is Some && self.logs@[i]->Some_0.spare_blank()
    }

    /// What the partition at `i` holds.
    pub open spec fn holds(&self, i: int) -> Seq<Pair> {
        held(self.device().bytes, self.table()[i])
    }

    /// What the partition at `i` holds, as a map from namespace and key to
    /// value.
    pub open spec fn contents(&self, i: int) -> Map<(Seq<u8>, Seq<u8>), Seq<u8>> {
        as_map(self.holds(i))
    }

    /// The table is a valid one for the device, and each log is that of
    /// its partition.
    pub closed spec fn wf(&self) -> bool {
        &&& self.dev.wf()
        &&& self.table.wf(self.dev@.unit, self.dev@.bytes.len())
        &&& self.logs@.len() == self.table@.len()
        &&& tied(self.table@, self.logs@, self.dev@)
    }

    /// Neither the device nor what the store knows of it differs.
    pub open spec fn same_as(&self, other: &FlashStore) -> bool {
        &&& self.device() == other.device()
        &&& self.table() == other.table()
        &&& forall|j: int| self.ready(j) == other.ready(j)
        &&& forall|j: int| self.spare_blank(j) == other.spare_blank(j)
    }

    /// Outside the partition at `i` the device has the cells it has in
    /// `other`; the other partitions hold what they held, and are
    /// initialised as they were.
    pub open spec fn others_as(&self, other: &FlashStore, i: int) -> bool {
        &&& self.table() == other.table()
        &&& self.device().unit == other.device().unit
        &&& self.device().bytes.len() == other.device().bytes.len()
        &&& forall|k: int|
            0 <= k < other.device().bytes.len() && !(other.table()[i].offset <= k
                < other.table()[i].offset + other.table()[i].size) ==> self.device().bytes[k]
                == other.device().bytes[k]
        &&& forall|j: int|
            0 <= j < self.table().len() && j != i ==> self.holds(j) == other.holds(j)
        &&& forall|j: int| j != i ==> self.ready(j) == other.ready(j)
        &&& forall|j: int| j != i ==> self.spare_blank(j) == other.spare_blank(j)
    }

    /// What the invariant says to callers.
    pub proof fn lemma_wf_means(&self)
        requires
            self.wf(),
        ensures
            parts_ok(self.table(), self.device().unit, self.device().bytes.len()),
            forall|j: int| self.ready(j) ==> 0 <= j < self.table().len(),
            forall|j: int| self.ready(j) ==> sound(self.device().bytes, #[trigger] self.table()[j]),
            forall|j: int|
                #[trigger] self.spare_blank(j) ==> self.ready(j) && spare_erased(
                    self.device().bytes,
                    base_of(self.table()[j]),
                    bank_of(self.table()[j]),
                ),
    {
        assert forall|j: int| self.ready(j) implies sound(
            self.device().bytes,
            #[trigger] self.table()[j],
        ) by {
            let l = self.logs@[j]->Some_0;
            l.lemma_wf_means(self.dev@);
        }
        assert forall|j: int| #[trigger] self.spare_blank(j) implies self.ready(j) && spare_erased(
            self.device().bytes,
            base_of(self.table()[j]),
            bank_of(self.table()[j]),
        ) by {
            let l = self.logs@[j]->Some_0;
            l.lemma_wf_means(self.dev@);
        }
    }

    /// Loads the partition table of the device. No partition is
    /// initialised yet.
    pub fn open(dev: FlashDevice) -> (r: Result<FlashStore, StoreError>)
        requires
            dev.wf(),
        ensures
            r is Ok <==> table_ok(dev@),
            r is Err ==> r->Err_0 == StoreError::TableCorrupt,
            r matches Ok(s) ==> {
                &&& s.wf()
                &&& s.device() == dev@
                &&& s.table() == table_of(dev@)
                &&& forall|j: int| !s.ready(j)
            },
    {
        let table = match PartitionTable::load(&dev) {
            Ok(table) => table,
            Err(e) => {
                return Err(e);
            },
        };
        let mut logs: Vec<Option<RecordLog>> = Vec::new();
        let mut i: usize = 0;
        while i < table.len()
            invariant
                i <= table@.len(),
                logs@.len() == i,
                forall|j: int| 0 <= j < i ==> logs@[j] is None,
            decreases table@.len() - i,
        {
            logs.push(None);
            i = i + 1;
        }
        Ok(FlashStore { dev, table, logs })
    }

    /// Gives up the store for its device, as a power cut does: what the
    /// store knew of the partitions is lost, the cells stay.
    pub fn into_device(self) -> (dev: FlashDevice)
        requires
            self.wf(),
        ensures
            dev.wf(),
            dev@ == self.device(),
    {
        self.dev
    }

    /// Lets the device carry out `ops` more erase and program operations
    /// and fault on every one after them.
    pub fn fail_after(&mut self, ops: u64)
        requires
            old(self).wf(),
        ensures
            final(self).wf(),
            final(self).device() == (DeviceState {
                budget: Some(ops as nat),
                ..old(self).device()
            }),
            final(self).table() == old(self).table(),
            forall|j: int| final(self).ready(j) == old(self).ready(j),
            forall|j: int| final(self).spare_blank(j) == old(self).spare_blank(j),
    {
        let ghost dev0 = self.dev@;
        self.dev.fail_after(ops);
        proof {
            assert forall|j: int| 0 <= j < self.logs@.len() implies ((#[trigger] self.logs@[j]) matches Some(
                l,
            ) ==> l.wf(self.dev@)) by {
                if let Some(l) = self.logs@[j] {
                    l.lemma_wf_frame(dev0, self.dev@);
                }
            }
        }
    }

    /// Takes a scheduled fault away: the device never faults.
    pub fn restore(&mut self)
        requires
            old(self).wf(),
        ensures
            final(self).wf(),
            final(self).device() == (DeviceState { budget: None, ..old(self).device() }),
            final(self).table() == old(self).table(),
            forall|j: int| final(self).ready(j) == old(self).ready(j),
            forall|j: int| final(self).spare_blank(j) == old(self).spare_blank(j),
    {
        let ghost dev0 = self.dev@;
        self.dev.restore();
        proof {
            assert forall|j: int| 0 <= j < self.logs@.len() implies ((#[trigger] self.logs@[j]) matches Some(
                l,
            ) ==> l.wf(self.dev@)) by {
                if let Some(l) = self.logs@[j] {
                    l.lemma_wf_frame(dev0, self.dev@);
                }
            }
        }
    }

    /// Looks the partition that `name` spells up in the table.
    pub fn locate(&self, name: &str) -> (r: Option<usize>)
        requires
            self.wf(),
        ensures
            match r {
                Some(i) => part_index(self.table(), cut_at_nul(name.spec_bytes())) == Some(
                    i as int,
                ) && i < self.table().len(),
                None => part_index(self.table(), cut_at_nul(name.spec_bytes())) is None,
            },
    {
        let bytes = name_of_str(name);
        let r = self.table.find(bytes.as_slice());
        proof {
            match r {
                Some(i) => {
                    lemma_part_index(
                        self.table@,
                        self.dev@.unit,
                        self.dev@.bytes.len(),
                        bytes@,
                        i as int,
                    );
                },
                None => {
                    assert(forall|i: int| !named(self.table@, bytes@, i));
                },
            }
        }
        r
    }
    /// What the table says of the partition that `name` spells: its kind,
    /// its offset and its size.
    pub fn partition(&self, name: &str) -> (r: Option<&Partition>)
        requires
            self.wf(),
        ensures
            match part_index(self.table(), cut_at_nul(name.spec_bytes())) {
                Some(i) => r is Some && r->Some_0@ == self.table()[i],
                None => r is None,
            },
    {
        match self.locate(name) {
            Some(i) => Some(self.table.get(i)),
            None => None,
        }
    }

    /// What is stored under `ns` and `key` in the partition named
    /// `partition`, as far as the store can tell: nothing where the
    /// partition is unknown or not initialised.
    pub open spec fn found(&self, partition: Seq<u8>, ns: Seq<u8>, key: Seq<u8>) -> Option<
        Seq<u8>,
    > {
        let at = part_index(self.table(), partition);
        if at is Some && self.ready(at->Some_0) {
            lookup(self.holds(at->Some_0), ns, key)
        } else {
            None
        }
    }

    /// The partition named `partition` is known and initialised.
    pub open spec fn usable(&self, partition: Seq<u8>) -> bool {
        let at = part_index(self.table(), partition);
        at is Some && self.ready(at->Some_0)
    }

    /// Where the partition at `i` lies: its offset and the size of a bank.
    fn region(&self, i: usize) -> (r: (usize, usize))
        requires
            self.wf(),
            i < self.table().len(),
        ensures
            r.0 == base_of(self.table()[i as int]),
            r.1 == bank_of(self.table()[i as int]),
            fits(self.device(), r.0 as int, r.1 as int),
            r.0 + 2 * r.1 == self.table()[i as int].offset + self.table()[i as int].size,
    {
        let p = self.table.get(i);
        proof {
            assert(part_ok(self.table@[i as int], self.dev@.unit, self.dev@.bytes.len()));
            lemma_part_fits(self.dev@, self.table@[i as int]);
        }
        (p.offset as usize, (p.size / 2) as usize)
    }

    /// Initialises the partition that `name` spells: scans its cells,
    /// gives up each record that a power cut left without its commit
    /// marker, and builds the index of its log. Such a record counts for
    /// nothing, so each key has the value that was last committed.
    pub fn init_partition(&mut self, name: &str) -> (r: Result<(), StoreError>)
        requires
            old(self).wf(),
        ensures
            final(self).wf(),
            init_post(*old(self), *final(self), cut_at_nul(name.spec_bytes()), r),
    {
        let i = match self.locate(name) {
            Some(i) => i,
            None => {
                return Err(StoreError::PartitionNotFound);
            },
        };
        let (base, bank) = self.region(i);
        let ghost old_logs = self.logs@;
        let ghost dev0 = self.dev@;
        let ghost parts = self.table@;
        proof {
            if old_logs[i as int] is Some {
                old_logs[i as int]->Some_0.lemma_wf_means(self.dev@);
            }
        }
        self.logs[i] = None;
        let opened = RecordLog::open(&mut self.dev, base, bank);
        proof {
            if sound(dev0.bytes, parts[i as int]) {
                let cost = pending(records(active_area(dev0.bytes, base as int, bank as int), 0));
                lemma_ran_means(dev0, self.dev@, base as int, base + 2 * bank, cost, opened is Ok);
            }
            lemma_others_keep(parts, old_logs, dev0, self.dev@, i as int);
            assert forall|j: int| 0 <= j < self.logs@.len() implies ((
            #[trigger] self.logs@[j]) matches Some(l) ==> l.wf(self.dev@) && l.base() == base_of(
                self.table@[j],
            ) && l.bank() == bank_of(self.table@[j])) by {
                if j != i {
                    assert(self.logs@[j] == old_logs[j]);
                }
            }
        }
        match opened {
            Ok(log) => {
                self.logs[i] = Some(log);
                proof {
                    assert forall|j: int| 0 <= j < self.logs@.len() implies ((
                    #[trigger] self.logs@[j]) matches Some(l) ==> l.wf(self.dev@) && l.base()
                        == base_of(self.table@[j]) && l.bank() == bank_of(self.table@[j])) by {
                        if j != i {
                            assert(self.logs@[j] == old_logs[j]);
                        }
                    }
                }
                Ok(())
            },
            Err(e) => Err(e),
        }
    }

    /// Erases every erase unit of the partition that `name` spells. The
    /// partition is initialised afterwards, and holds nothing.
    pub fn erase_partition(&mut self, name: &str) -> (r: Result<(), StoreError>)
        requires
            old(self).wf(),
        ensures
            final(self).wf(),
            erase_post(*old(self), *final(self), cut_at_nul(name.spec_bytes()), r),
    {
        let i = match self.locate(name) {
            Some(i) => i,
            None => {
                return Err(StoreError::PartitionNotFound);
            },
        };
        let (base, bank) = self.region(i);
        let ghost old_logs = self.logs@;
        let ghost dev0 = self.dev@;
        let ghost parts = self.table@;
        self.logs[i] = None;
        let made = RecordLog::format(&mut self.dev, base, bank);
        proof {
            let cost = 2 * ((bank as nat) / dev0.unit);
            lemma_ran_means(dev0, self.dev@, base as int, base + 2 * bank, cost, made is Ok);
            lemma_others_keep(parts, old_logs, dev0, self.dev@, i as int);
        }
        match made {
            Ok(log) => {
                self.logs[i] = Some(log);
                proof {
                    assert forall|j: int| 0 <= j < self.logs@.len() implies ((
                    #[trigger] self.logs@[j]) matches Some(l) ==> l.wf(self.dev@) && l.base()
                        == base_of(self.table@[j]) && l.bank() == bank_of(self.table@[j])) by {
                        if j != i {
                            assert(self.logs@[j] == old_logs[j]);
                        }
                    }
                }
                Ok(())
            },
            Err(e) => {
                proof {
                    assert forall|j: int| 0 <= j < self.logs@.len() implies ((
                    #[trigger] self.logs@[j]) matches Some(l) ==> l.wf(self.dev@) && l.base()
                        == base_of(self.table@[j]) && l.bank() == bank_of(self.table@[j])) by {
                        if j != i {
                            assert(self.logs@[j] == old_logs[j]);
                        }
                    }
                }
                Err(e)
            },
        }
    }

    /// The size of the value stored under `namespace` and `key` in the
    /// partition named `partition`; `None` where there is no such value.
    pub fn key_exists(&self, partition: &str, namespace: &str, key: &str) -> (r: Option<usize>)
        requires
            self.wf(),
        ensures
            r == (match self.found(
                cut_at_nul(partition.spec_bytes()),
                cut_at_nul(namespace.spec_bytes()),
                cut_at_nul(key.spec_bytes()),
            ) {
                Some(v) => Some(v.len() as usize),
                None => None,
            }),
            self.found(
                cut_at_nul(partition.spec_bytes()),
                cut_at_nul(namespace.spec_bytes()),
                cut_at_nul(key.spec_bytes()),
            ) matches Some(v) ==> v.len() <= usize::MAX,
    {
        let i = match self.locate(partition) {
            Some(i) => i,
            None => {
                return None;
            },
        };
        let ns = name_of_str(namespace);
        let k = name_of_str(key);
        match &self.logs[i] {
            Some(log) => log.size_of(&self.dev, ns.as_slice(), k.as_slice()),
            None => None,
        }
    }

    /// Reads the value stored under `namespace` and `key` in the partition
    /// named `partition`, for a caller who knows its size.
    pub fn read(&self, partition: &str, namespace: &str, key: &str, size: usize) -> (r: Result<
        Vec<u8>,
        StoreError,
    >)
        requires
            self.wf(),
        ensures
            read_post(
                *self,
                cut_at_nul(partition.spec_bytes()),
                cut_at_nul(namespace.spec_bytes()),
                cut_at_nul(key.spec_bytes()),
                size,
                r,
            ),
    {
        let i = match self.locate(partition) {
            Some(i) => i,
            None => {
                return Err(StoreError::PartitionNotFound);
            },
        };
        let ns = name_of_str(namespace);
        let k = name_of_str(key);
        match &self.logs[i] {
            Some(log) => log.read(&self.dev, ns.as_slice(), k.as_slice(), size),
            None => Err(StoreError::PartitionNotFound),
        }
    }

    /// The value stored under `namespace` and `key` in the partition named
    /// `partition`, whatever its size.
    pub fn get(&self, partition: &str, namespace: &str, key: &str) -> (r: Result<
        Vec<u8>,
        StoreError,
    >)
        requires
            self.wf(),
        ensures
            ({
                let name = cut_at_nul(partition.spec_bytes());
                let found = self.found(
                    name,
                    cut_at_nul(namespace.spec_bytes()),
                    cut_at_nul(key.spec_bytes()),
                );
                if !self.usable(name) {
                    r is Err && r->Err_0 == StoreError::PartitionNotFound
                } else if found is None {
                    r is Err && r->Err_0 == StoreError::KeyNotFound
                } else {
                    r is Ok && r->Ok_0@ == found->Some_0
                }
            }),
    {
        let i = match self.locate(partition) {
            Some(i) => i,
            None => {
                return Err(StoreError::PartitionNotFound);
            },
        };
        let ns = name_of_str(namespace);
        let k = name_of_str(key);
        match &self.logs[i] {
            Some(log) => {
                match log.size_of(&self.dev, ns.as_slice(), k.as_slice()) {
                    Some(size) => log.read(&self.dev, ns.as_slice(), k.as_slice(), size),
                    None => Err(StoreError::KeyNotFound),
                }
            },
            None => Err(StoreError::PartitionNotFound),
        }
    }

    /// Stores `data` under `namespace` and `key` in the partition named
    /// `partition`. The value counts from the moment the commit marker of
    /// its record is programmed; until then, and if the device faults before
    /// then, the key has the value it had.
    pub fn write(&mut self, partition: &str, namespace: &str, key: &str, data: &[u8]) -> (r:
        Result<(), StoreError>)
        requires
            old(self).wf(),
        ensures
            final(self).wf(),
            write_post(
                *old(self),
                *final(self),
                cut_at_nul(partition.spec_bytes()),
                Pair {
                    ns: cut_at_nul(namespace.spec_bytes()),
                    key: cut_at_nul(key.spec_bytes()),
                    value: data@,
                },
                r,
            ),
    {
        let i = match self.locate(partition) {
            Some(i) => i,
            None => {
                return Err(StoreError::PartitionNotFound);
            },
        };
        let ns = name_of_str(namespace);
        let k = name_of_str(key);
        let ghost (base, bank) = (base_of(self.table@[i as int]), bank_of(self.table@[i as int]));
        let ghost old_logs = self.logs@;
        let ghost dev0 = self.dev@;
        let ghost parts = self.table@;
        let ghost p = Pair { ns: ns@, key: k@, value: data@ };
        let r = match &mut self.logs[i] {
            Some(log) => log.put(&mut self.dev, ns.as_slice(), k.as_slice(), data),
            None => {
                return Err(StoreError::PartitionNotFound);
            },
        };
        proof {
            assert(part_ok(parts[i as int], dev0.unit, dev0.bytes.len()));
            lemma_part_fits(dev0, parts[i as int]);
            if live_size(stored(dev0.bytes, base, bank)) + pair_size(p) <= capacity(bank) {
                let cost = put_cost(
                    dev0,
                    base,
                    bank,
                    old_logs[i as int]->Some_0.spare_blank(),
                    pair_size(p),
                );
                lemma_ran_means(dev0, self.dev@, base, base + 2 * bank, cost, r is Ok);
            }
            lemma_others_keep(parts, old_logs, dev0, self.dev@, i as int);
            assert forall|j: int| 0 <= j < self.logs@.len() implies ((
            #[trigger] self.logs@[j]) matches Some(l) ==> l.wf(self.dev@) && l.base() == base_of(
                self.table@[j],
            ) && l.bank() == bank_of(self.table@[j])) by {
                if j != i {
                    assert(self.logs@[j] == old_logs[j]);
                }
            }
        }
        r
    }

    /// Removes what is stored under `namespace` and `key` in the partition
    /// named `partition`. The value is gone from the moment the commit
    /// marker of its tombstone is programmed; if the device faults before
    /// then, the key has the value it had.
    pub fn remove(&mut self, partition: &str, namespace: &str, key: &str) -> (r: Result<
        (),
        StoreError,
    >)
        requires
            old(self).wf(),
        ensures
            final(self).wf(),
            remove_post(
                *old(self),
                *final(self),
                cut_at_nul(partition.spec_bytes()),
                cut_at_nul(namespace.spec_bytes()),
                cut_at_nul(key.spec_bytes()),
                r,
            ),
    {
        let i = match self.locate(partition) {
            Some(i) => i,
            None => {
                return Err(StoreError::PartitionNotFound);
            },
        };
        let ns = name_of_str(namespace);
        let k = name_of_str(key);
        let ghost (base, bank) = (base_of(self.table@[i as int]), bank_of(self.table@[i as int]));
        let ghost old_logs = self.logs@;
        let ghost dev0 = self.dev@;
        let ghost parts = self.table@;
        let r = match &mut self.logs[i] {
            Some(log) => log.remove(&mut self.dev, ns.as_slice(), k.as_slice()),
            None => {
                return Err(StoreError::PartitionNotFound);
            },
        };
        proof {
            assert(part_ok(parts[i as int], dev0.unit, dev0.bytes.len()));
            lemma_part_fits(dev0, parts[i as int]);
            let size = tombstone_size(ns@, k@);
            if lookup(stored(dev0.bytes, base, bank), ns@, k@) is Some && live_size(
                stored(dev0.bytes, base, bank),
            ) + size <= capacity(bank) {
                let cost = put_cost(
                    dev0,
                    base,
                    bank,
                    old_logs[i as int]->Some_0.spare_blank(),
                    size,
                );
                lemma_ran_means(dev0, self.dev@, base, base + 2 * bank, cost, r is Ok);
            }
            lemma_others_keep(parts, old_logs, dev0, self.dev@, i as int);
            assert forall|j: int| 0 <= j < self.logs@.len() implies ((
            #[trigger] self.logs@[j]) matches Some(l) ==> l.wf(self.dev@) && l.base() == base_of(
                self.table@[j],
            ) && l.bank() == bank_of(self.table@[j])) by {
                if j != i {
                    assert(self.logs@[j] == old_logs[j]);
                }
            }
        }
        r
    }

    /// Compacts the partition named `partition`: its log moves to the idle
    /// bank with one record for each stored value, and the bank that held
    /// it is erased. What the partition holds stays, whether the device
    /// faults or not.
    pub fn compact_partition(&mut self, partition: &str) -> (r: Result<(), StoreError>)
        requires
            old(self).wf(),
        ensures
            final(self).wf(),
            compact_post(*old(self), *final(self), cut_at_nul(partition.spec_bytes()), r),
    {
        let i = match self.locate(partition) {
            Some(i) => i,
            None => {
                return Err(StoreError::PartitionNotFound);
            },
        };
        let ghost (base, bank) = (base_of(self.table@[i as int]), bank_of(self.table@[i as int]));
        let ghost old_logs = self.logs@;
        let ghost dev0 = self.dev@;
        let ghost parts = self.table@;
        let r = match &mut self.logs[i] {
            Some(log) => log.compact(&mut self.dev),
            None => {
                return Err(StoreError::PartitionNotFound);
            },
        };
        proof {
            assert(part_ok(parts[i as int], dev0.unit, dev0.bytes.len()));
            lemma_part_fits(dev0, parts[i as int]);
            let cost = compaction_cost(dev0, base, bank, old_logs[i as int]->Some_0.spare_blank());
            lemma_ran_means(dev0, self.dev@, base, base + 2 * bank, cost, r is Ok);
            lemma_others_keep(parts, old_logs, dev0, self.dev@, i as int);
            assert forall|j: int| 0 <= j < self.logs@.len() implies ((
            #[trigger] self.logs@[j]) matches Some(l) ==> l.wf(self.dev@) && l.base() == base_of(
                self.table@[j],
            ) && l.bank() == bank_of(self.table@[j])) by {
                if j != i {
                    assert(self.logs@[j] == old_logs[j]);
                }
            }
        }
        r
    }
}

/// The program operations that initialising the partition `part` takes:
/// one for each record without commit marker that is not given up yet.
pub open spec fn init_cost(dev: DeviceState, part: PartitionView) -> nat {
    pending(records(active_area(dev.bytes, base_of(part), bank_of(part)), 0))
}

/// What `init_partition` leaves: the partition holds what it held, and is
/// initialised if it holds a log of intact records and the device did not
/// fault.
pub open spec fn init_post(
    before: FlashStore,
    after: FlashStore,
    name: Seq<u8>,
    r: Result<(), StoreError>,
) -> bool {
    &&& after.table() == before.table()
    &&& match part_index(before.table(), name) {
        None => r is Err && r->Err_0 == StoreError::PartitionNotFound && after.same_as(&before),
        Some(i) => {
            let part = before.table()[i];
            let cost = init_cost(before.device(), part);
            &&& after.others_as(&before, i)
            &&& after.holds(i) == before.holds(i)
            &&& sound(after.device().bytes, part) == sound(before.device().bytes, part)
            &&& if !sound(before.device().bytes, part) {
                &&& r is Err
                &&& r->Err_0 == StoreError::Corrupt
                &&& !after.ready(i)
                &&& after.device() == before.device()
            } else if affords(before.device().budget, cost) {
                &&& r is Ok
                &&& after.ready(i)
                &&& after.spare_blank(i) == spare_erased(
                    before.device().bytes,
                    base_of(part),
                    bank_of(part),
                )
                &&& after.device().budget == spend(before.device().budget, cost)
                &&& init_cost(after.device(), part) == 0
            } else {
                &&& r is Err
                &&& r->Err_0 == StoreError::IoError
                &&& !after.ready(i)
                &&& after.device().budget == Some(0nat)
            }
        },
    }
}

/// The erase operations that erasing the partition `part` takes: one for
/// each of its erase units.
pub open spec fn erase_cost(dev: DeviceState, part: PartitionView) -> nat {
    2 * ((bank_of(part) as nat) / dev.unit)
}

/// What `erase_partition` leaves: the partition initialised and empty, or,
/// where the device faulted, not initialised.
pub open spec fn erase_post(
    before: FlashStore,
    after: FlashStore,
    name: Seq<u8>,
    r: Result<(), StoreError>,
) -> bool {
    &&& after.table() == before.table()
    &&& match part_index(before.table(), name) {
        None => r is Err && r->Err_0 == StoreError::PartitionNotFound && after.same_as(&before),
        Some(i) => {
            let cost = erase_cost(before.device(), before.table()[i]);
            &&& after.others_as(&before, i)
            &&& if affords(before.device().budget, cost) {
                &&& r is Ok
                &&& after.ready(i)
                &&& after.spare_blank(i)
                &&& after.holds(i) == Seq::<Pair>::empty()
                &&& after.device().budget == spend(before.device().budget, cost)
            } else {
                &&& r is Err
                &&& r->Err_0 == StoreError::IoError
                &&& !after.ready(i)
                &&& after.device().budget == Some(0nat)
            }
        },
    }
}

/// What `read` returns.
pub open spec fn read_post(
    store: FlashStore,
    partition: Seq<u8>,
    ns: Seq<u8>,
    key: Seq<u8>,
    size: usize,
    r: Result<Vec<u8>, StoreError>,
) -> bool {
    if !store.usable(partition) {
        r is Err && r->Err_0 == StoreError::PartitionNotFound
    } else {
        match store.found(partition, ns, key) {
            None => r is Err && r->Err_0 == StoreError::KeyNotFound,
            Some(v) => if v.len() != size {
                r is Err && r->Err_0 == StoreError::SizeMismatch
            } else {
                r is Ok && r->Ok_0@ == v
            },
        }
    }
}

/// What `write` leaves: the value stored, or, where the partition is full
/// or the device faulted, what the partition held.
pub open spec fn write_post(
    before: FlashStore,
    after: FlashStore,
    partition: Seq<u8>,
    p: Pair,
    r: Result<(), StoreError>,
) -> bool {
    &&& after.table() == before.table()
    &&& if !before.usable(partition) {
        r is Err && r->Err_0 == StoreError::PartitionNotFound && after.same_as(&before)
    } else {
        let i = part_index(before.table(), partition)->Some_0;
        let part = before.table()[i];
        let held_before = before.holds(i);
        let in_tail = log_end(
            active_area(before.device().bytes, base_of(part), bank_of(part)),
            0,
        ) + pair_size(p) <= capacity(bank_of(part));
        let squeeze = compaction_cost(
            before.device(),
            base_of(part),
            bank_of(part),
            before.spare_blank(i),
        );
        let cost = put_cost(
            before.device(),
            base_of(part),
            bank_of(part),
            before.spare_blank(i),
            pair_size(p),
        );
        &&& after.others_as(&before, i)
        &&& after.ready(i)
        &&& if live_size(held_before) + pair_size(p) > capacity(bank_of(part)) {
            &&& r is Err
            &&& r->Err_0 == StoreError::PartitionFull
            &&& after.device() == before.device()
            &&& after.spare_blank(i) == before.spare_blank(i)
        } else {
            &&& after.spare_blank(i) == (if in_tail {
                before.spare_blank(i)
            } else {
                affords(before.device().budget, squeeze)
            })
            &&& if affords(before.device().budget, cost) {
                &&& r is Ok
                &&& after.holds(i) == put(held_before, p)
                &&& after.device().budget == spend(before.device().budget, cost)
            } else {
                &&& r is Err
                &&& r->Err_0 == StoreError::IoError
                &&& after.holds(i) == held_before
                &&& after.device().budget == Some(0nat)
            }
        }
    }
}

/// What `remove` leaves: the value gone, or, where there was none, the
/// partition is full or the device faulted, what the partition held.
pub open spec fn remove_post(
    before: FlashStore,
    after: FlashStore,
    partition: Seq<u8>,
    ns: Seq<u8>,
    key: Seq<u8>,
    r: Result<(), StoreError>,
) -> bool {
    &&& after.table() == before.table()
    &&& if !before.usable(partition) {
        r is Err && r->Err_0 == StoreError::PartitionNotFound && after.same_as(&before)
    } else {
        let i = part_index(before.table(), partition)->Some_0;
        let part = before.table()[i];
        let held_before = before.holds(i);
        let size = tombstone_size(ns, key);
        let in_tail = log_end(
            active_area(before.device().bytes, base_of(part), bank_of(part)),
            0,
        ) + size <= capacity(bank_of(part));
        let squeeze = compaction_cost(
            before.device(),
            base_of(part),
            bank_of(part),
            before.spare_blank(i),
        );
        let cost = put_cost(
            before.device(),
            base_of(part),
            bank_of(part),
            before.spare_blank(i),
            size,
        );
        &&& after.others_as(&before, i)
        &&& after.ready(i)
        &&& if lookup(held_before, ns, key) is None {
            &&& r is Err
            &&& r->Err_0 == StoreError::KeyNotFound
            &&& after.device() == before.device()
            &&& after.spare_blank(i) == before.spare_blank(i)
        } else if live_size(held_before) + size > capacity(bank_of(part)) {
            &&& r is Err
            &&& r->Err_0 == StoreError::PartitionFull
            &&& after.device() == before.device()
            &&& after.spare_blank(i) == before.spare_blank(i)
        } else {
            &&& after.spare_blank(i) == (if in_tail {
                before.spare_blank(i)
            } else {
                affords(before.device().budget, squeeze)
            })
            &&& if affords(before.device().budget, cost) {
                &&& r is Ok
                &&& after.holds(i) == drop_key(held_before, ns, key)
                &&& after.device().budget == spend(before.device().budget, cost)
            } else {
                &&& r is Err
                &&& r->Err_0 == StoreError::IoError
                &&& after.holds(i) == held_before
                &&& after.device().budget == Some(0nat)
            }
        }
    }
}

/// What `compact_partition` leaves: the partition holds what it held, with
/// no cell of the log given to a record that no longer counts.
pub open spec fn compact_post(
    before: FlashStore,
    after: FlashStore,
    partition: Seq<u8>,
    r: Result<(), StoreError>,
) -> bool {
    &&& after.table() == before.table()
    &&& if !before.usable(partition) {
        r is Err && r->Err_0 == StoreError::PartitionNotFound && after.same_as(&before)
    } else {
        let i = part_index(before.table(), partition)->Some_0;
        let part = before.table()[i];
        let cost = compaction_cost(
            before.device(),
            base_of(part),
            bank_of(part),
            before.spare_blank(i),
        );
        &&& after.others_as(&before, i)
        &&& after.ready(i)
        &&& after.holds(i) == before.holds(i)
        &&& after.spare_blank(i) == (r is Ok)
        &&& if affords(before.device().budget, cost) {
            &&& r is Ok
            &&& after.device().budget == spend(before.device().budget, cost)
            &&& log_end(active_area(after.device().bytes, base_of(part), bank_of(part)), 0)
                == live_size(before.holds(i))
        } else {
            &&& r is Err
            &&& r->Err_0 == StoreError::IoError
            &&& after.device().budget == Some(0nat)
        }
    }
}

} // verus!
