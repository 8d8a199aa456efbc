//! A partitioned, namespaced key-value store on block-erasable flash memory.
//!
//! The flash array is divided into named partitions by a table in its first
//! erase unit. Each partition holds an append-only log of records; a record
//! becomes visible only when its commit marker has been programmed, so a
//! power cut at any instant leaves the previously stored values readable.
//!
//! - `device`: the flash array, erased by the unit and programmed by
//!   clearing bits, with a scheduled fault for power cuts.
//! - `table`: the partition table in the first erase unit.
//! - `record`: how a record lies in flash, and what a log of records holds.
//! - `layout`, `growth`: the banks of a partition, and what each step of a
//!   write makes of its log.
//! - `log`: the record log of one partition, with its index.
//! - `store`: device, table and logs together; `spi_flash`: the same
//!   operations with status codes.
//! - `laws`: what holds of the store, whatever is stored in it.

#![allow(non_snake_case)]

pub mod codec;
pub mod device;
pub mod error;
pub mod growth;
mod index;
pub mod laws;
pub mod layout;
pub mod log;
pub mod names;
pub mod record;
mod settle;
pub mod spi_flash;
pub mod store;
pub mod table;
