//! The operations of the store as free functions that give status codes in
//! place of results, for callers that bind the store to another language:
//! `0` for success, and for each way of failing the code that `code_of`
//! gives.

use vstd::prelude::*;
use vstd::slice::slice_subrange;
use vstd::string::StringSliceAdditionalSpecFns;
use crate::error::{code_of, status_of, StoreError};
use crate::names::cut_at_nul;
use crate::record::Pair;
use crate::store::{erase_post, init_post, write_post, FlashStore};

verus! {

/// The outcome that a status code stands for.
pub open spec fn outcome_of(code: u8) -> Result<(), StoreError> {
    if code == 0 {
        Ok(())
    } else if code == 1 {
        Err(StoreError::PartitionNotFound)
    } else if code == 2 {
        Err(StoreError::TableCorrupt)
    } else if code == 3 {
        Err(StoreError::KeyNotFound)
    } else if code == 4 {
        Err(StoreError::SizeMismatch)
    } else if code == 5 {
        Err(StoreError::PartitionFull)
    } else if code == 6 {
        Err(StoreError::IoError)
    } else {
        Err(StoreError::Corrupt)
    }
}

/// Initialises the partition that `s` spells and gives the status.
#[allow(non_snake_case)]
pub fn initPartitionByName(store: &mut FlashStore, s: &str) -> (code: u8)
    requires
        old(store).wf(),
    ensures
        final(store).wf(),
        code <= 7,
        init_post(*old(store), *final(store), cut_at_nul(s.spec_bytes()), outcome_of(code)),
{
    let r = store.init_partition(s);
    status_of(&r)
}

/// Erases the partition that `s` spells and gives the status.
#[allow(non_snake_case)]
pub fn erasePartitionByName(store: &mut FlashStore, s: &str) -> (code: u8)
    requires
        old(store).wf(),
    ensures
        final(store).wf(),
        code <= 7,
        erase_post(*old(store), *final(store), cut_at_nul(s.spec_bytes()), outcome_of(code)),
{
    let r = store.erase_partition(s);
    status_of(&r)
}

/// The size of the value stored under `namespace` and `blob` in
/// `partition`; `0` where there is none, as for a value of no bytes.
#[allow(non_snake_case)]
pub fn askIfKeyExists(store: &FlashStore, partition: &str, namespace: &str, blob: &str) -> (size:
    usize)
    requires
        store.wf(),
    ensures
        size == (match store.found(
            cut_at_nul(partition.spec_bytes()),
            cut_at_nul(namespace.spec_bytes()),
            cut_at_nul(blob.spec_bytes()),
        ) {
            Some(v) => v.len() as usize,
            None => 0usize,
        }),
        store.found(
            cut_at_nul(partition.spec_bytes()),
            cut_at_nul(namespace.spec_bytes()),
            cut_at_nul(blob.spec_bytes()),
        ) matches Some(v) ==> v.len() <= usize::MAX,
{
    match store.key_exists(partition, namespace, blob) {
        Some(size) => size,
        None => 0,
    }
}

/// Stores the first `size` bytes of `data` under `namespace` and `blob` in
/// `partition` and gives the status. Where `data` has fewer than `size`
/// bytes nothing is stored, and the status is that of a size mismatch.
#[allow(non_snake_case)]
pub fn writeBlobToKey(
    store: &mut FlashStore,
    partition: &str,
    namespace: &str,
    blob: &str,
    data: Vec<u8>,
    size: usize,
) -> (code: u8)
    requires
        old(store).wf(),
    ensures
        final(store).wf(),
        code <= 7,
        size > data@.len() ==> code == code_of(StoreError::SizeMismatch) && final(store).same_as(
            old(store),
        ),
        size <= data@.len() ==> write_post(
            *old(store),
            *final(store),
            cut_at_nul(partition.spec_bytes()),
            Pair {
                ns: cut_at_nul(namespace.spec_bytes()),
                key: cut_at_nul(blob.spec_bytes()),
                value: data@.subrange(0, size as int),
            },
            outcome_of(code),
        ),
{
    if size > data.len() {
        return StoreError::SizeMismatch.code();
    }
    let r = store.write(partition, namespace, blob, slice_subrange(data.as_slice(), 0, size));
    status_of(&r)
}

/// The value stored under `namespace` and `blob` in `partition`, for a
/// caller who knows its size; no bytes where there is no such value or its
/// size is another.
#[allow(non_snake_case)]
pub fn readBlobFromKey(
    store: &FlashStore,
    partition: &str,
    namespace: &str,
    blob: &str,
    size: usize,
) -> (bytes: Vec<u8>)
    requires
        store.wf(),
    ensures
        bytes@ == (match store.found(
            cut_at_nul(partition.spec_bytes()),
            cut_at_nul(namespace.spec_bytes()),
            cut_at_nul(blob.spec_bytes()),
        ) {
            Some(v) => if v.len() == size {
                v
            } else {
                Seq::<u8>::empty()
            },
            None => Seq::<u8>::empty(),
        }),
{
    match store.read(partition, namespace, blob, size) {
        Ok(bytes) => bytes,
        Err(_) => Vec::new(),
    }
}

} // verus!
