//! The ways in which an operation of the store can fail.

use vstd::prelude::*;

verus! {

/// Why an operation of the store failed.
#[derive(Clone, Copy, Debug, PartialEq, Eq, Structural)]
pub enum StoreError {
    /// The partition table names no such partition, or the partition has
    /// not been initialised.
    PartitionNotFound,
    /// The partition table on the device is not a valid one.
    TableCorrupt,
    /// Nothing is stored under the namespace and key.
    KeyNotFound,
    /// The size that the caller gave is not that of the stored value.
    SizeMismatch,
    /// The partition has no room for the record.
    PartitionFull,
    /// The device faulted.
    IoError,
    /// The partition does not hold a log of intact records.
    Corrupt,
}

/// The status code of an error: never zero, which stands for success.
pub open spec fn code_of(e: StoreError) -> u8 {
    match e {
        StoreError::PartitionNotFound => 1,
        StoreError::TableCorrupt => 2,
        StoreError::KeyNotFound => 3,
        StoreError::SizeMismatch => 4,
        StoreError::PartitionFull => 5,
        StoreError::IoError => 6,
        StoreError::Corrupt => 7,
    }
}

/// The status code of success.
pub const STATUS_OK: u8 = 0;

impl StoreError {
    /// The error's status code.
    pub fn code(&self) -> (c: u8)
        ensures
            c == code_of(*self),
            c != STATUS_OK,
    {
        match self {
            StoreError::PartitionNotFound => 1,
            StoreError::TableCorrupt => 2,
            StoreError::KeyNotFound => 3,
            StoreError::SizeMismatch => 4,
            StoreError::PartitionFull => 5,
            StoreError::IoError => 6,
            StoreError::Corrupt => 7,
        }
    }
}

/// The status code of an operation's outcome.
pub fn status_of(r: &Result<(), StoreError>) -> (c: u8)
    ensures
        c == (match *r {
            Ok(()) => STATUS_OK,
            Err(e) => code_of(e),
        }),
{
    match r {
        Ok(()) => STATUS_OK,
        Err(e) => e.code(),
    }
}

} // verus!
