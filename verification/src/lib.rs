//! The physics layer of a C64/6502 address-space model: a flat 64 KiB
//! byte array with a PRG loader, a packed bitmask over the address space,
//! and a store that joins the bytes with named masks.

pub mod fixtures;
pub mod mask;
pub mod memory;
pub mod row_store;

pub use mask::AddressMask;
pub use memory::{LoadError, Memory, ADDRESS_SPACE_SIZE};
pub use row_store::{Lane, RowStore};
