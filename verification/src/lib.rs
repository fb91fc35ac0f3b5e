//! A loopback block-device driver core with an ISO9660 live-patching planner.
//!
//! The crate models the driver's state machines over plain data: a loop
//! controller that hands out child devices by unit number, per-device mapping
//! tables that splice zero-fill, pool-backed and file-backed segments into one
//! logical volume, a device-owned pool allocator, a protocol-database model of
//! firmware handle installs, an ISO9660 directory walker, and the patch
//! planner that rewrites an image without copying it.

pub mod block_io;
pub mod controller;
pub mod cpio;
pub mod dev_path;
pub mod device;
pub mod iso;
pub mod laws;
pub mod mapping;
pub mod planner;
pub mod pool;
pub mod protodb;
pub mod rules;
pub mod shell_split;
pub mod status;
pub mod store;

use vstd::prelude::*;

verus! {

/// Size of a logical sector in bytes.
pub const SECTOR_SIZE: usize = 512;

/// Size of an ISO9660 logical block in bytes.
pub const ISO_BLOCK_SIZE: usize = 2048;

} // verus!
