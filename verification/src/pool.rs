//! The device-owned pool allocator, modeled with handles instead of raw
//! pointers.
//!
//! A pool is a device-scoped allocation. In the driver's memory convention
//! each allocation carries a self-describing header whose back-pointer names
//! the owning device; here that back-pointer is the `owner` field of the
//! [`PoolHandle`] the allocator hands out, so misuse (freeing through the
//! wrong device, or a foreign handle) is detectable. Embedding the handle in
//! a mapping-table item transfers ownership back to the device.

use vstd::prelude::*;

verus! {

/// The caller-visible name of a pool allocation: the id of the owning device
/// and the slot index within it.
#[derive(Clone, Copy, PartialEq, Eq, Structural, Debug)]
pub struct PoolHandle {
    pub owner: u64,
    pub index: usize,
}

/// Who may touch a pool slot at the moment.
#[derive(Clone, Copy, PartialEq, Eq, Structural, Debug)]
pub enum PoolState {
    /// Handed out by `alloc_pool`; the caller reads and writes it.
    CallerOwned,
    /// Embedded in the active mapping table; the device owns it again.
    Attached,
    /// Released; the handle naming it is dangling.
    Freed,
}

/// One allocation owned by a loopback device.
pub struct PoolSlot {
    pub data: Vec<u8>,
    pub state: PoolState,
}

} // verus!
