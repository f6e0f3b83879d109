//! A FAT-style filesystem simulated over a fixed-size in-memory block device.
//!
//! A block allocation table tracks free blocks and cluster chains, a virtual
//! block store holds the raw bytes, and a directory / file-control-block model
//! is serialized onto those chains to provide a hierarchical namespace with
//! create, read, delete, rename, move and copy operations.

pub mod codec;
pub mod definitions;
pub mod disk_info;
pub mod laws;
