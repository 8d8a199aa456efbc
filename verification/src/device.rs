//! The flash array: cells that are erased a whole unit at a time and
//! programmed by clearing bits.

use vstd::prelude::*;

verus! {

/// The value of a cell whose unit has been erased.
pub const ERASED: u8 = 0xFF;

/// Why a device operation did not take place.
#[derive(Clone, Copy, Debug, PartialEq, Eq, Structural)]
pub enum DeviceError {
    /// The operation reaches beyond the end of the array.
    OutOfRange,
    /// The device faulted; the array is as it was before the operation.
    IoError,
}

/// What a device is, to its callers: the cells, the size of an erase unit,
/// and how many more erase and program operations it will carry out before
/// it faults (`None`: it never faults).
pub struct DeviceState {
    pub bytes: Seq<u8>,
    pub unit: nat,
    pub budget: Option<nat>,
}

/// A flash array held in memory.
pub struct FlashDevice {
    cells: Vec<u8>,
    unit: usize,
    budget: Option<u64>,
}

/// Programming can only clear bits: `new` may be written over `old` when
/// every bit set in `new` is still set in `old`.
pub open spec fn programmable(old_byte: u8, new_byte: u8) -> bool {
    old_byte & new_byte == new_byte
}

/// Every byte of `data` may be programmed at its place from `offset` on.
pub open spec fn region_programmable(cells: Seq<u8>, offset: int, data: Seq<u8>) -> bool {
    forall|i: int| 0 <= i < data.len() ==> programmable(cells[offset + i], #[trigger] data[i])
}

/// Every cell of `cells` in `[from, to)` is erased.
pub open spec fn region_erased(cells: Seq<u8>, from: int, to: int) -> bool {
    forall|i: int| from <= i < to ==> #[trigger] cells[i] == ERASED
}

/// `cells` with `data` in place from `offset` on.
pub open spec fn overwrite(cells: Seq<u8>, offset: int, data: Seq<u8>) -> Seq<u8> {
    Seq::new(
        cells.len(),
        |i: int|
            if offset <= i < offset + data.len() {
                data[i - offset]
            } else {
                cells[i]
            },
    )
}

/// `cells` with every cell in `[from, to)` erased.
pub open spec fn wipe(cells: Seq<u8>, from: int, to: int) -> Seq<u8> {
    Seq::new(
        cells.len(),
        |i: int|
            if from <= i < to {
                ERASED
            } else {
                cells[i]
            },
    )
}

/// The budget allows `n` more erase or program operations.
pub open spec fn affords(budget: Option<nat>, n: nat) -> bool {
    match budget {
        Some(b) => n <= b,
        None => true,
    }
}

/// The budget after `n` operations were carried out.
pub open spec fn spend(budget: Option<nat>, n: nat) -> Option<nat>
    recommends
        affords(budget, n),
{
    match budget {
        Some(b) => Some((b - n) as nat),
        None => None,
    }
}

/// An erased byte takes any value.
pub proof fn lemma_erased_is_programmable(new_byte: u8)
    ensures
        programmable(ERASED, new_byte),
{
    assert(0xFFu8 & new_byte == new_byte) by (bit_vector);
}

impl View for FlashDevice {
    type V = DeviceState;

    closed spec fn view(&self) -> DeviceState {
        DeviceState {
            bytes: self.cells@,
            unit: self.unit as nat,
            budget: match self.budget {
                Some(b) => Some(b as nat),
                None => None,
            },
        }
    }
}

impl FlashDevice {
    /// The array is a whole number of erase units.
    pub open spec fn wf(&self) -> bool {
        &&& self@.unit > 0
        &&& self@.bytes.len() % self@.unit == 0
        &&& self@.bytes.len() <= usize::MAX
    }

    /// The number of erase units.
    pub open spec fn units(&self) -> nat {
        self@.bytes.len() / self@.unit
    }

    /// A device of `units` erase units of `unit_size` bytes, all erased, that
    /// never faults. `None` when `unit_size` is zero or the size does not fit.
    pub fn new(units: usize, unit_size: usize) -> (r: Option<FlashDevice>)
        ensures
            r is Some <==> unit_size > 0 && units * unit_size <= usize::MAX,
            r matches Some(d) ==> {
                &&& d.wf()
                &&& d@.unit == unit_size
                &&& d@.bytes.len() == units * unit_size
                &&& region_erased(d@.bytes, 0, d@.bytes.len() as int)
                &&& d@.budget is None
            },
    {
        if unit_size == 0 {
            return None;
        }
        let total: usize = match units.checked_mul(unit_size) {
            Some(t) => t,
            None => {
                return None;
            },
        };
        let mut cells: Vec<u8> = Vec::new();
        let mut i: usize = 0;
        while i < total
            invariant
                i <= total,
                cells@.len() == i,
                forall|k: int| 0 <= k < i ==> #[trigger] cells@[k] == ERASED,
            decreases total - i,
        {
            cells.push(ERASED);
            i = i + 1;
        }
        assert((units * unit_size) % (unit_size as int) == 0) by (nonlinear_arith)
            requires
                unit_size > 0,
        ;
        Some(FlashDevice { cells, unit: unit_size, budget: None })
    }

    /// A device over an existing image. `None` when `unit_size` is zero or the
    /// image is not a whole number of units.
    pub fn from_image(image: Vec<u8>, unit_size: usize) -> (r: Option<FlashDevice>)
        ensures
            r is Some <==> unit_size > 0 && image@.len() % (unit_size as nat) == 0,
            r matches Some(d) ==> {
                &&& d.wf()
                &&& d@.unit == unit_size
                &&& d@.bytes == image@
                &&& d@.budget is None
            },
    {
        if unit_size == 0 || image.len() % unit_size != 0 {
            return None;
        }
        Some(FlashDevice { cells: image, unit: unit_size, budget: None })
    }

    /// Gives up the device for its cells.
    pub fn into_image(self) -> (image: Vec<u8>)
        ensures
            image@ == self@.bytes,
    {
        self.cells
    }

    /// The size of an erase unit, in bytes.
    pub fn unit_size(&self) -> (n: usize)
        ensures
            n == self@.unit,
    {
        self.unit
    }

    /// The size of the array, in bytes.
    pub fn size(&self) -> (n: usize)
        ensures
            n == self@.bytes.len(),
    {
        self.cells.len()
    }

    /// Lets the device carry out `ops` more erase and program operations and
    /// fault on every one after them, as a power cut would.
    pub fn fail_after(&mut self, ops: u64)
        ensures
            final(self)@ == (DeviceState { budget: Some(ops as nat), ..old(self)@ }),
    {
        self.budget = Some(ops);
    }

    /// Takes a scheduled fault away: the device never faults.
    pub fn restore(&mut self)
        ensures
            final(self)@ == (DeviceState { budget: None, ..old(self)@ }),
    {
        self.budget = None;
    }

    /// Erases the unit `unit_index`.
    pub fn erase(&mut self, unit_index: usize) -> (r: Result<(), DeviceError>)
        requires
            old(self).wf(),
        ensures
            final(self).wf(),
            final(self)@.unit == old(self)@.unit,
            unit_index >= old(self).units() ==> r == Err::<(), DeviceError>(DeviceError::OutOfRange),
            unit_index < old(self).units() && !affords(old(self)@.budget, 1) ==> r == Err::<
                (),
                DeviceError,
            >(DeviceError::IoError),
            unit_index < old(self).units() && affords(old(self)@.budget, 1) ==> r is Ok,
            r is Err ==> final(self)@ == old(self)@,
            r is Ok ==> final(self)@ == (DeviceState {
                bytes: wipe(
                    old(self)@.bytes,
                    unit_index * old(self)@.unit,
                    (unit_index + 1) * old(self)@.unit,
                ),
                budget: spend(old(self)@.budget, 1),
                ..old(self)@
            }),
    {
        let units: usize = self.cells.len() / self.unit;
        if unit_index >= units {
            return Err(DeviceError::OutOfRange);
        }
        match self.budget {
            Some(b) => {
                if b == 0 {
                    return Err(DeviceError::IoError);
                }
                self.budget = Some(b - 1);
            },
            None => {},
        }
        let ghost before = self.cells@;
        let ghost budget_now = self.budget;
        let unit: usize = self.unit;
        assert((unit_index + 1) * unit <= units * unit <= before.len()) by (nonlinear_arith)
            requires
                unit_index < units,
                units == before.len() / (unit as nat),
                unit > 0,
        ;
        assert(unit_index * unit + unit == (unit_index + 1) * unit) by (nonlinear_arith);
        let start: usize = unit_index * unit;
        let end: usize = start + unit;
        let mut i: usize = start;
        while i < end
            invariant
                start <= i <= end <= before.len(),
                self.cells@.len() == before.len(),
                self.unit == unit,
                self.budget == budget_now,
                before.len() <= usize::MAX,
                forall|k: int| 0 <= k < before.len() ==> #[trigger] self.cells@[k] == (if start <= k < i {
                    ERASED
                } else {
                    before[k]
                }),
            decreases end - i,
        {
            self.cells.set(i, ERASED);
            i = i + 1;
        }
        assert(self.cells@ =~= wipe(before, start as int, end as int));
        Ok(())
    }

    /// Reads `len` bytes from `offset` on.
    pub fn read(&self, offset: usize, len: usize) -> (r: Result<Vec<u8>, DeviceError>)
        ensures
            offset + len > self@.bytes.len() ==> r == Err::<Vec<u8>, DeviceError>(
                DeviceError::OutOfRange,
            ),
            offset + len <= self@.bytes.len() ==> r is Ok && r->Ok_0@ == self@.bytes.subrange(
                offset as int,
                offset + len,
            ),
    {
        if offset > self.cells.len() || len > self.cells.len() - offset {
            return Err(DeviceError::OutOfRange);
        }
        let mut out: Vec<u8> = Vec::new();
        let mut i: usize = 0;
        while i < len
            invariant
                i <= len,
                offset + len <= self.cells@.len() <= usize::MAX,
                out@.len() == i,
                forall|k: int| 0 <= k < i ==> #[trigger] out@[k] == self.cells@[offset + k],
            decreases len - i,
        {
            out.push(self.cells[offset + i]);
            i = i + 1;
        }
        assert(out@ =~= self.cells@.subrange(offset as int, offset + len));
        Ok(out)
    }

    /// Programs `data` into the cells from `offset` on. The caller sees to it
    /// that the cells can take the data.
    pub fn write(&mut self, offset: usize, data: &[u8]) -> (r: Result<(), DeviceError>)
        requires
            offset + data@.len() <= old(self)@.bytes.len() ==> region_programmable(
                old(self)@.bytes,
                offset as int,
                data@,
            ),
        ensures
            final(self).wf() == old(self).wf(),
            offset + data@.len() > old(self)@.bytes.len() ==> r == Err::<(), DeviceError>(
                DeviceError::OutOfRange,
            ),
            offset + data@.len() <= old(self)@.bytes.len() && !affords(old(self)@.budget, 1) ==> r
                == Err::<(), DeviceError>(DeviceError::IoError),
            offset + data@.len() <= old(self)@.bytes.len() && affords(old(self)@.budget, 1) ==> r is Ok,
            r is Err ==> final(self)@ == old(self)@,
            r is Ok ==> final(self)@ == (DeviceState {
                bytes: overwrite(old(self)@.bytes, offset as int, data@),
                budget: spend(old(self)@.budget, 1),
                ..old(self)@
            }),
    {
        let len: usize = data.len();
        if offset > self.cells.len() || len > self.cells.len() - offset {
            return Err(DeviceError::OutOfRange);
        }
        match self.budget {
            Some(b) => {
                if b == 0 {
                    return Err(DeviceError::IoError);
                }
                self.budget = Some(b - 1);
            },
            None => {},
        }
        let ghost before = self.cells@;
        let ghost budget_now = self.budget;
        let mut i: usize = 0;
        while i < len
            invariant
                i <= len,
                len == data@.len(),
                offset + len <= before.len(),
                self.cells@.len() == before.len(),
                self.unit == old(self).unit,
                self.budget == budget_now,
                before.len() <= usize::MAX,
                forall|k: int|
                    0 <= k < before.len() ==> #[trigger] self.cells@[k] == (if offset <= k < offset
                        + i {
                    data@[k - offset]
                } else {
                    before[k]
                }),
            decreases len - i,
        {
            self.cells.set(offset + i, data[i]);
            i = i + 1;
        }
        assert(self.cells@ =~= overwrite(before, offset as int, data@));
        Ok(())
    }
}

} // verus!
