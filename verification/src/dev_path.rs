//! Device-path nodes identifying the controller bus and each child unit.
//!
//! The controller's path is one vendor-hardware node with the driver's
//! vendor GUID, closed by an end node. A child's path extends it with a
//! vendor-messaging node carrying the unit number in little-endian. Paths
//! are compared by exact byte content.

use vstd::prelude::*;

verus! {

/// The vendor-hardware node and end marker of the controller's path.
pub open spec fn spec_control_path() -> Seq<u8> {
    seq![0x01u8, 0x04, 0x14, 0x00, 0x02, 0xa2, 0x70, 0x64, 0x97, 0x45, 0xee, 0x11, 0xae, 0x06, 0x2c, 0xf0, 0x5d, 0x73, 0xe0, 0xd3, 0x7f, 0xff, 0x04, 0x00]
}

/// A child's path: the vendor-hardware node, a vendor-messaging node with
/// the unit number in little-endian, and the end marker.
pub open spec fn spec_loopback_path(unit: u32) -> Seq<u8> {
    seq![0x01u8, 0x04, 0x14, 0x00, 0x02, 0xa2, 0x70, 0x64, 0x97, 0x45, 0xee, 0x11, 0xae, 0x06, 0x2c, 0xf0, 0x5d, 0x73, 0xe0, 0xd3] + seq![0x03u8, 0x0a, 0x18, 0x00, 0x20, 0xf1, 0x11, 0x27, 0xb7, 0x45, 0xee, 0x11, 0x8e, 0x7b, 0x2c, 0xf0, 0x5d, 0x73, 0xe0, 0xd3] + seq![
        (unit & 0xff) as u8,
        ((unit >> 8u32) & 0xff) as u8,
        ((unit >> 16u32) & 0xff) as u8,
        ((unit >> 24u32) & 0xff) as u8,
    ] + seq![0x7fu8, 0xff, 0x04, 0x00]
}

/// The controller's packed device path.
pub struct LoopControlPath {
    pub bytes: Vec<u8>,
}

impl LoopControlPath {
    /// Build the controller's path.
    pub fn new() -> (r: LoopControlPath)
        ensures
            r.bytes@ == spec_control_path(),
    {
        let mut b: Vec<u8> = Vec::new();
        b.push(0x01u8);
        b.push(0x04u8);
        b.push(0x14u8);
        b.push(0x00u8);
        b.push(0x02u8);
        b.push(0xa2u8);
        b.push(0x70u8);
        b.push(0x64u8);
        b.push(0x97u8);
        b.push(0x45u8);
        b.push(0xeeu8);
        b.push(0x11u8);
        b.push(0xaeu8);
        b.push(0x06u8);
        b.push(0x2cu8);
        b.push(0xf0u8);
        b.push(0x5du8);
        b.push(0x73u8);
        b.push(0xe0u8);
        b.push(0xd3u8);
        b.push(0x7fu8);
        b.push(0xffu8);
        b.push(0x04u8);
        b.push(0x00u8);
        proof {
            assert(b@ =~= spec_control_path());
        }
        LoopControlPath { bytes: b }
    }
}

/// A child's packed device path.
pub struct LoopbackPath {
    pub bytes: Vec<u8>,
}

impl LoopbackPath {
    /// Build the path of the child with the given unit number.
    pub fn new(unit: u32) -> (r: LoopbackPath)
        ensures
            r.bytes@ == spec_loopback_path(unit),
    {
        let mut b: Vec<u8> = Vec::new();
        b.push(0x01u8);
        b.push(0x04u8);
        b.push(0x14u8);
        b.push(0x00u8);
        b.push(0x02u8);
        b.push(0xa2u8);
        b.push(0x70u8);
        b.push(0x64u8);
        b.push(0x97u8);
        b.push(0x45u8);
        b.push(0xeeu8);
        b.push(0x11u8);
        b.push(0xaeu8);
        b.push(0x06u8);
        b.push(0x2cu8);
        b.push(0xf0u8);
        b.push(0x5du8);
        b.push(0x73u8);
        b.push(0xe0u8);
        b.push(0xd3u8);
        b.push(0x03u8);
        b.push(0x0au8);
        b.push(0x18u8);
        b.push(0x00u8);
        b.push(0x20u8);
        b.push(0xf1u8);
        b.push(0x11u8);
        b.push(0x27u8);
        b.push(0xb7u8);
        b.push(0x45u8);
        b.push(0xeeu8);
        b.push(0x11u8);
        b.push(0x8eu8);
        b.push(0x7bu8);
        b.push(0x2cu8);
        b.push(0xf0u8);
        b.push(0x5du8);
        b.push(0x73u8);
        b.push(0xe0u8);
        b.push(0xd3u8);
        b.push((unit & 0xff) as u8);
        b.push(((unit >> 8u32) & 0xff) as u8);
        b.push(((unit >> 16u32) & 0xff) as u8);
        b.push(((unit >> 24u32) & 0xff) as u8);
        b.push(0x7fu8);
        b.push(0xffu8);
        b.push(0x04u8);
        b.push(0x00u8);
        proof {
            assert(b@ =~= spec_loopback_path(unit));
        }
        LoopbackPath { bytes: b }
    }
}

} // verus!
