//! The loop controller: a bus-like service that hands out, finds and
//! retires loopback child devices by stable unit number.
//!
//! The controller keeps its children sorted by unit number. A child is
//! created by `add` (explicit unit) or `get_free` (first free child, or the
//! smallest unused unit), and destroyed by `remove`, which uninstalls the
//! child's protocols and breaks the parent back-edge.

use vstd::prelude::*;
use vstd::string::StringSliceAdditionalSpecFns;
use crate::device::{LoopProtocol, create_default_media, default_media};
use crate::protodb::ProtocolDb;
use crate::status::LoopError;

verus! {

/// Identity of the device-path protocol.
pub const DEVICE_PATH_PROTOCOL_GUID: u128 = 0x09576e91_6d3f_11d2_8e39_00a0c969723b;

/// Identity of the block-I/O protocol.
pub const BLOCK_IO_PROTOCOL_GUID: u128 = 0x964e5b21_6459_11d2_8e39_00a0c969723b;

/// Identity of the driver-binding protocol.
pub const DRIVER_BINDING_PROTOCOL_GUID: u128 = 0x18a031ab_b443_4d1a_a5c0_0c09261e9f71;

/// Identity of the component-name protocol.
pub const COMPONENT_NAME2_PROTOCOL_GUID: u128 = 0x6a7a5cff_e8d9_4f70_bada_75ab3025ce14;

/// Identity of the loopback protocol each child exposes.
pub const LOOP_PROTOCOL_GUID: u128 = 0x8826fb7e_438f_11ee_879a_2cf05d73e0d3;

/// Identity of the loop-control protocol the controller exposes.
pub const LOOP_CONTROL_PROTOCOL_GUID: u128 = 0xff0e5a30_438e_11ee_9113_2cf05d73e0d3;

/// One child of the controller: its stable unit number, its handle, the
/// open back-edge to the parent, and the device state itself.
pub struct ChildEntry {
    pub unit: u32,
    pub handle: u64,
    pub ctl_open: bool,
    pub device: LoopProtocol,
}

/// The controller bus: its own handle, the database of installed protocol
/// interfaces, and the sorted child list.
pub struct LoopControlProtocol {
    pub bus_handle: u64,
    pub next_device_id: u64,
    pub children: Vec<ChildEntry>,
    pub db: ProtocolDb,
}

/// Create a fresh, empty controller, not yet installed on any handle.
pub fn create_loop_control() -> (r: LoopControlProtocol)
    ensures
        r.wf(),
        r.children@.len() == 0,
        r.bus_handle == 0,
        r.db.entries@.len() == 0,
{
    LoopControlProtocol {
        bus_handle: 0,
        next_device_id: 1,
        children: Vec::new(),
        db: ProtocolDb::new(),
    }
}

/// Create a fresh, unbound loopback device carrying no identity yet; the
/// controller assigns the unit number and device id when it installs one.
pub fn create_loopback() -> (r: LoopProtocol)
    ensures
        r.wf(),
        r.device_id == 0,
        r.unit_number == 0,
        r.media == default_media(),
        r.table@.len() == 0,
        r.pools@.len() == 0,
{
    LoopProtocol {
        device_id: 0,
        unit_number: 0,
        media: create_default_media(),
        table: Vec::new(),
        pools: Vec::new(),
    }
}

/// The driver-binding record registered with the firmware.
#[derive(Clone, Copy, PartialEq, Eq, Structural, Debug)]
pub struct DriverBindingProtocol {
    pub version: u32,
    pub image_handle: u64,
    pub driver_binding_handle: u64,
}

/// Build the driver-binding record for a bus handle, at interface version
/// 0x10.
pub fn create_driver_binding(bus_handle: u64) -> (r: DriverBindingProtocol)
    ensures
        r.version == 0x10,
        r.image_handle == bus_handle,
        r.driver_binding_handle == bus_handle,
{
    DriverBindingProtocol { version: 0x10, image_handle: bus_handle, driver_binding_handle: bus_handle }
}

impl LoopControlProtocol {
    /// Index of the child carrying `unit`, if any.
    pub open spec fn spec_find_unit(&self, unit: u32) -> Option<int> {
        if exists|i: int| 0 <= i < self.children.len() && self.children[i].unit == unit {
            Some(choose|i: int| 0 <= i < self.children.len() && self.children[i].unit == unit)
        } else {
            None
        }
    }

    /// Index of the child carrying `handle`, if any.
    pub open spec fn spec_find_handle(&self, handle: u64) -> Option<int> {
        spec_find_handle_in(self.children@, handle)
    }

    /// The controller invariant. Children are strictly sorted by unit
    /// number; each child's device is well-formed, numbered consistently,
    /// holds the parent back-edge open, and its handle carries the three
    /// child protocols in the database.
    pub open spec fn wf(&self) -> bool {
        &&& self.db.wf()
        &&& forall|i: int, j: int|
            0 <= i < j < self.children.len() ==> self.children[i].unit < self.children[j].unit
        &&& forall|i: int| 0 <= i < self.children.len() ==> (#[trigger] self.children[i]).device.wf()
        &&& forall|i: int|
            0 <= i < self.children.len() ==> (#[trigger] self.children[i]).device.unit_number
                == self.children[i].unit
        &&& forall|i: int| 0 <= i < self.children.len() ==> (#[trigger] self.children[i]).ctl_open
        &&& forall|i: int| 0 <= i < self.children.len() ==> (#[trigger] self.children[i]).handle != 0
        &&& forall|i: int, j: int|
            0 <= i < j < self.children.len() ==> self.children[i].handle
                != self.children[j].handle
        &&& forall|i: int|
            0 <= i < self.children.len() ==> (#[trigger] self.children[i]).device.device_id != 0
                && self.children[i].device.device_id < self.next_device_id
        &&& forall|i: int, j: int|
            0 <= i < j < self.children.len() ==> self.children[i].device.device_id
                != self.children[j].device.device_id
        &&& forall|i: int|
            0 <= i < self.children.len() ==> self.db.spec_has(
                (#[trigger] self.children[i]).handle,
                LOOP_PROTOCOL_GUID,
            ) && self.db.spec_has(self.children[i].handle, DEVICE_PATH_PROTOCOL_GUID)
                && self.db.spec_has(self.children[i].handle, BLOCK_IO_PROTOCOL_GUID)
        &&& forall|i: int|
            0 <= i < self.children.len() ==> (#[trigger] self.children[i]).handle
                != self.bus_handle
        &&& (self.bus_handle != 0 ==> self.bus_handle < self.db.next_handle)
        &&& self.next_device_id >= 1
    }
}

/// Index of the entry carrying `handle` in a child list, if any.
pub open spec fn spec_find_handle_in(s: Seq<ChildEntry>, handle: u64) -> Option<int> {
    if exists|i: int| 0 <= i < s.len() && s[i].handle == handle {
        Some(choose|i: int| 0 <= i < s.len() && s[i].handle == handle)
    } else {
        None
    }
}

/// The child-list trajectory of a `stop` sweep: each listed handle's entry
/// is removed in order; a zero or unknown handle stops the sweep, leaving
/// the state reached so far.
pub open spec fn spec_stop_children(s: Seq<ChildEntry>, hs: Seq<u64>, k: int) -> Result<
    Seq<ChildEntry>,
    (int, Seq<ChildEntry>),
>
    decreases hs.len() - k,
{
    if k < 0 || k >= hs.len() {
        Ok(s)
    } else if hs[k] == 0 {
        Err((k, s))
    } else {
        match spec_find_handle_in(s, hs[k]) {
            None => Err((k, s)),
            Some(i) => spec_stop_children(s.remove(i), hs, k + 1),
        }
    }
}

/// Number of leading entries with a unit below `unit` in a sorted list.
pub open spec fn spec_pos_in(s: Seq<ChildEntry>, unit: u32) -> int
    decreases s.len(),
{
    if s.len() == 0 {
        0
    } else if s[0].unit < unit {
        1 + spec_pos_in(s.drop_first(), unit)
    } else {
        0
    }
}


/// The child list gained one entry for `unit` under handle `h`: a fresh,
/// free device with the next device id, inserted at its sorted position,
/// its three protocols installed on the new handle.
pub open spec fn child_added(
    pre: LoopControlProtocol,
    post: LoopControlProtocol,
    unit: u32,
    h: u64,
) -> bool {
    let pos = spec_pos_in(pre.children@, unit);
    &&& h == pre.db.next_handle
    &&& h != 0
    &&& post.children@.len() == pre.children@.len() + 1
    &&& post.children@ == pre.children@.insert(pos, post.children@[pos])
    &&& post.children@[pos].unit == unit
    &&& post.children@[pos].handle == h
    &&& post.children@[pos].ctl_open
    &&& post.children@[pos].device.unit_number == unit
    &&& post.children@[pos].device.device_id == pre.next_device_id
    &&& post.children@[pos].device.media == default_media()
    &&& post.children@[pos].device.table@.len() == 0
    &&& post.children@[pos].device.pools@.len() == 0
    &&& post.next_device_id == pre.next_device_id + 1
    &&& post.bus_handle == pre.bus_handle
    &&& forall|h2: u64, g: u128|
        h2 != h ==> #[trigger] post.db.spec_has(h2, g) == pre.db.spec_has(h2, g)
    &&& post.db.spec_has(h, LOOP_PROTOCOL_GUID)
    &&& post.db.spec_has(h, DEVICE_PATH_PROTOCOL_GUID)
    &&& post.db.spec_has(h, BLOCK_IO_PROTOCOL_GUID)
}

/// The unit-number scan of `get_free`: return the first free child, or the
/// smallest unit number not yet in use; fail only if the 32-bit space is
/// exhausted.
pub open spec fn spec_scan_free(s: Seq<ChildEntry>, k: int, cand: int) -> Result<
    (bool, int),
    LoopError,
>
    decreases s.len() - k,
{
    if k < 0 || k >= s.len() {
        Ok((false, cand))
    } else if s[k].device.spec_is_free() {
        Ok((true, k))
    } else if s[k].unit == cand {
        if cand == u32::MAX {
            Err(LoopError::Aborted)
        } else {
            spec_scan_free(s, k + 1, cand + 1)
        }
    } else {
        spec_scan_free(s, k + 1, cand)
    }
}

/// When the scan proposes a new unit, that unit is unused: it is at least
/// the running candidate, and no remaining child carries it.
pub proof fn lemma_scan_fresh(s: Seq<ChildEntry>, k: int, cand: int)
    requires
        forall|i: int, j: int| 0 <= i < j < s.len() ==> s[i].unit < s[j].unit,
        0 <= k <= s.len(),
        0 <= cand,
    ensures
        spec_scan_free(s, k, cand) matches Ok((false, r)) ==> {
            &&& r >= cand
            &&& forall|i: int| k <= i < s.len() ==> (#[trigger] s[i]).unit != r
        },
        (spec_scan_free(s, k, cand) matches Ok((false, r)) && (forall|i: int|
            k <= i < s.len() ==> (#[trigger] s[i]).unit != cand)) ==> spec_scan_free(s, k, cand)
            == Ok::<(bool, int), LoopError>((false, cand)),
    decreases s.len() - k,
{
    if k >= s.len() {
    } else if s[k].device.spec_is_free() {
    } else if s[k].unit == cand {
        if cand != u32::MAX {
            lemma_scan_fresh(s, k + 1, cand + 1);
        }
    } else {
        lemma_scan_fresh(s, k + 1, cand);
        match spec_scan_free(s, k + 1, cand) {
            Ok((false, r)) => {
                if s[k].unit > cand {
                    assert forall|i: int| k <= i < s.len() implies (#[trigger] s[i]).unit != cand
                        by {
                        if i > k {
                            assert(s[k].unit < s[i].unit);
                        }
                    }
                    assert(r == cand);
                }
            },
            _ => {},
        }
    }
}

/// Where a fresh unit lands in a sorted child list: right after the prefix
/// of smaller units.
proof fn lemma_pos_in(s: Seq<ChildEntry>, unit: u32, p: int)
    requires
        forall|i: int, j: int| 0 <= i < j < s.len() ==> s[i].unit < s[j].unit,
        0 <= p <= s.len(),
        forall|k: int| 0 <= k < p ==> (#[trigger] s[k]).unit < unit,
        p < s.len() ==> s[p].unit >= unit,
    ensures
        spec_pos_in(s, unit) == p,
    decreases s.len(),
{
    if s.len() == 0 {
    } else if s[0].unit < unit {
        assert(p >= 1);
        let d = s.drop_first();
        assert(forall|i: int, j: int| 0 <= i < j < d.len() ==> d[i].unit < d[j].unit) by {
            assert(forall|i: int| 0 <= i < d.len() ==> d[i] == s[i + 1]);
        }
        assert(forall|k: int| 0 <= k < p - 1 ==> (#[trigger] d[k]).unit < unit) by {
            assert(forall|k: int| 0 <= k < d.len() ==> d[k] == s[k + 1]);
        }
        assert(p - 1 < d.len() ==> d[p - 1].unit >= unit);
        lemma_pos_in(d, unit, p - 1);
    } else {
        assert(p == 0) by {
            if p > 0 {
                assert(s[0].unit < unit);
            }
        }
    }
}

impl LoopControlProtocol {
    /// Install a new child device with the given unused unit number.
    fn add_loopback(&mut self, unit: u32) -> (r: Result<u64, LoopError>)
        requires
            old(self).wf(),
            old(self).spec_find_unit(unit) is None,
        ensures
            final(self).wf(),
            match r {
                Ok(h) => child_added(*old(self), *final(self), unit, h),
                Err(e) => {
                    &&& e == LoopError::Aborted
                    &&& *final(self) == *old(self)
                    &&& (old(self).next_device_id == u64::MAX || old(self).db.next_handle
                        == u64::MAX)
                },
            },
    {
        if self.next_device_id == u64::MAX {
            return Err(LoopError::Aborted);
        }
        let mut guids: Vec<u128> = Vec::new();
        guids.push(DEVICE_PATH_PROTOCOL_GUID);
        guids.push(LOOP_PROTOCOL_GUID);
        guids.push(BLOCK_IO_PROTOCOL_GUID);
        let h = match self.db.install_multiple_protocols(0, &guids) {
            Err((k, e)) => {
                proof {
                    assert(guids@[0] != guids@[1] && guids@[0] != guids@[2] && guids@[1]
                        != guids@[2]);
                    if self.db.next_handle != u64::MAX {
                        // a failing index would name a duplicate entry
                        assert(crate::protodb::spec_install_bad(self.db, 0, guids@, k as int));
                        let w = choose|j2: int|
                            k < j2 < guids@.len() && #[trigger] guids@[j2] == guids@[k as int];
                        assert(guids@[w] == guids@[k as int]);
                        assert(false);
                    }
                    assert(e == LoopError::Aborted);
                }
                return Err(LoopError::Aborted);
            },
            Ok(h) => h,
        };
        let mut dev = create_loopback();
        dev.unit_number = unit;
        dev.device_id = self.next_device_id;
        self.next_device_id = self.next_device_id + 1;
        let mut pos: usize = 0;
        while pos < self.children.len() && self.children[pos].unit < unit
            invariant
                pos <= self.children@.len(),
                forall|k: int| 0 <= k < pos ==> (#[trigger] self.children@[k]).unit < unit,
                forall|i: int, j: int|
                    0 <= i < j < self.children@.len() ==> self.children@[i].unit
                        < self.children@[j].unit,
            decreases self.children@.len() - pos,
        {
            pos = pos + 1;
        }
        proof {
            lemma_pos_in(self.children@, unit, pos as int);
            assert(guids@[0] == DEVICE_PATH_PROTOCOL_GUID);
            assert(guids@[1] == LOOP_PROTOCOL_GUID);
            assert(guids@[2] == BLOCK_IO_PROTOCOL_GUID);
        }
        let entry = ChildEntry { unit, handle: h, ctl_open: true, device: dev };
        self.children.insert(pos, entry);
        proof {
            let pre = old(self);
            let posi = pos as int;
            assert(self.children@ == pre.children@.insert(posi, self.children@[posi]));
            assert forall|i: int, j: int|
                0 <= i < j < self.children@.len() implies self.children@[i].unit
                < self.children@[j].unit by {
                lemma_insert_keeps_sorted(pre.children@, self.children@, posi, unit, i, j);
            }
            assert forall|i: int, j: int|
                0 <= i < j < self.children@.len() implies self.children@[i].handle
                != self.children@[j].handle && self.children@[i].device.device_id
                != self.children@[j].device.device_id by {
                if i != posi && j != posi {
                    let i0 = if i < posi {
                        i
                    } else {
                        i - 1
                    };
                    let j0 = if j < posi {
                        j
                    } else {
                        j - 1
                    };
                    assert(self.children@[i] == pre.children@[i0]);
                    assert(self.children@[j] == pre.children@[j0]);
                    assert(pre.children@[i0].handle < pre.db.next_handle);
                } else if i == posi {
                    let j0 = j - 1;
                    assert(self.children@[j] == pre.children@[j0]);
                    assert(pre.children@[j0].handle < pre.db.next_handle);
                } else {
                    let i0 = if i < posi {
                        i
                    } else {
                        i - 1
                    };
                    assert(self.children@[i] == pre.children@[i0]);
                    assert(pre.children@[i0].handle < pre.db.next_handle);
                }
            }
            assert forall|i: int|
                0 <= i < self.children@.len() implies (#[trigger] self.children@[i]).device.wf()
                && self.children@[i].device.unit_number == self.children@[i].unit
                && self.children@[i].ctl_open && self.children@[i].handle != 0
                && self.children@[i].handle < self.db.next_handle
                && self.children@[i].handle != self.bus_handle
                && self.children@[i].device.device_id != 0
                && self.children@[i].device.device_id < self.next_device_id && self.db.spec_has(
                self.children@[i].handle,
                LOOP_PROTOCOL_GUID,
            ) && self.db.spec_has(self.children@[i].handle, DEVICE_PATH_PROTOCOL_GUID)
                && self.db.spec_has(self.children@[i].handle, BLOCK_IO_PROTOCOL_GUID) by {
                if i != posi {
                    let i0 = if i < posi {
                        i
                    } else {
                        i - 1
                    };
                    assert(self.children@[i] == pre.children@[i0]);
                    assert(pre.children@[i0].handle < pre.db.next_handle);
                    assert(pre.children@[i0].handle != h);
                } else {
                    assert(self.children@[i].handle == pre.db.next_handle);
                }
            }
        }
        Ok(h)
    }
}

/// Inserting an entry at its sorted position keeps the list sorted, when
/// the new unit exceeds everything before the position and falls below
/// everything after it.
proof fn lemma_insert_keeps_sorted(
    pre: Seq<ChildEntry>,
    post: Seq<ChildEntry>,
    pos: int,
    unit: u32,
    i: int,
    j: int,
)
    requires
        forall|a: int, b: int| 0 <= a < b < pre.len() ==> pre[a].unit < pre[b].unit,
        0 <= pos <= pre.len(),
        forall|k: int| 0 <= k < pos ==> (#[trigger] pre[k]).unit < unit,
        pos < pre.len() ==> pre[pos].unit > unit,
        post.len() == pre.len() + 1,
        post == pre.insert(pos, post[pos]),
        post[pos].unit == unit,
        0 <= i < j < post.len(),
    ensures
        post[i].unit < post[j].unit,
{
    if i != pos && j != pos {
        let i0 = if i < pos {
            i
        } else {
            i - 1
        };
        let j0 = if j < pos {
            j
        } else {
            j - 1
        };
        assert(post[i] == pre[i0]);
        assert(post[j] == pre[j0]);
    } else if i == pos {
        let j0 = j - 1;
        assert(post[j] == pre[j0]);
        assert(pre[pos].unit > unit);
        if j0 > pos {
            assert(pre[pos].unit < pre[j0].unit);
        }
    } else {
        assert(post[i] == pre[i]);
    }
}


impl LoopControlProtocol {
    /// Install a child with an explicitly chosen unit number; a unit
    /// already in use is rejected.
    pub fn add(&mut self, unit_number: u32) -> (r: Result<u64, LoopError>)
        requires
            old(self).wf(),
        ensures
            final(self).wf(),
            match r {
                Ok(h) => old(self).spec_find_unit(unit_number) is None && child_added(
                    *old(self),
                    *final(self),
                    unit_number,
                    h,
                ),
                Err(e) => {
                    &&& *final(self) == *old(self)
                    &&& if old(self).spec_find_unit(unit_number) is Some {
                        e == LoopError::InvalidParameter
                    } else {
                        e == LoopError::Aborted && (old(self).next_device_id == u64::MAX || old(
                            self,
                        ).db.next_handle == u64::MAX)
                    }
                },
            },
    {
        match self.find(unit_number) {
            Ok(_) => {
                return Err(LoopError::InvalidParameter);
            },
            Err(_) => {},
        }
        self.add_loopback(unit_number)
    }

    /// Find the handle of the child with the given unit number.
    pub fn find(&self, unit_number: u32) -> (r: Result<u64, LoopError>)
        requires
            self.wf(),
        ensures
            match self.spec_find_unit(unit_number) {
                Some(i) => r == Ok::<u64, LoopError>(self.children@[i].handle),
                None => r == Err::<u64, LoopError>(LoopError::NotFound),
            },
    {
        let mut lo: usize = 0;
        let mut hi: usize = self.children.len();
        while lo < hi
            invariant
                self.wf(),
                lo <= hi <= self.children@.len(),
                forall|k: int| 0 <= k < lo ==> (#[trigger] self.children@[k]).unit < unit_number,
                forall|k: int|
                    hi <= k < self.children@.len() ==> (#[trigger] self.children@[k]).unit
                        > unit_number,
            decreases hi - lo,
        {
            let mid = lo + (hi - lo) / 2;
            if self.children[mid].unit < unit_number {
                lo = mid + 1;
            } else if self.children[mid].unit > unit_number {
                hi = mid;
            } else {
                proof {
                    assert(self.spec_find_unit(unit_number) is Some);
                    let w = self.spec_find_unit(unit_number).unwrap();
                    assert(self.children[w].unit == unit_number);
                    if w != mid as int {
                        assert(false);
                    }
                }
                return Ok(self.children[mid].handle);
            }
        }
        proof {
            if self.spec_find_unit(unit_number) is Some {
                let w = self.spec_find_unit(unit_number).unwrap();
                assert(self.children[w].unit == unit_number);
            }
        }
        Err(LoopError::NotFound)
    }

    /// Hand out a free child: the first child whose media is absent, or a
    /// newly installed child carrying the smallest unused unit number.
    pub fn get_free(&mut self) -> (r: Result<u64, LoopError>)
        requires
            old(self).wf(),
        ensures
            final(self).wf(),
            ({
                let scan = spec_scan_free(old(self).children@, 0, 0);
                match r {
                    Ok(h) => match scan {
                        Ok((existing, v)) => {
                            if existing {
                                &&& h == old(self).children@[v].handle
                                &&& *final(self) == *old(self)
                            } else {
                                child_added(*old(self), *final(self), v as u32, h)
                            }
                        },
                        Err(_) => false,
                    },
                    Err(e) => {
                        &&& *final(self) == *old(self)
                        &&& e == LoopError::Aborted
                        &&& (scan is Err || old(self).next_device_id == u64::MAX || old(
                            self,
                        ).db.next_handle == u64::MAX)
                    },
                }
            }),
    {
        let ghost s = self.children@;
        let ghost scan = spec_scan_free(s, 0, 0);
        let mut free_number: u32 = 0;
        let mut k: usize = 0;
        while k < self.children.len()
            invariant
                old(self).wf(),
                *self == *old(self),
                s == self.children@,
                scan == spec_scan_free(s, 0, 0),
                k <= s.len(),
                spec_scan_free(s, k as int, free_number as int) == scan,
                forall|i: int| 0 <= i < k ==> !(#[trigger] s[i]).device.spec_is_free(),
            decreases s.len() - k,
        {
            if self.children[k].device.is_free() {
                return Ok(self.children[k].handle);
            }
            if self.children[k].unit == free_number {
                if free_number == u32::MAX {
                    proof {
                        assert(spec_scan_free(s, k as int, free_number as int)
                            == Err::<(bool, int), LoopError>(LoopError::Aborted));
                    }
                    return Err(LoopError::Aborted);
                }
                free_number = free_number + 1;
            }
            k = k + 1;
        }
        proof {
            lemma_scan_fresh(s, 0, 0);
            assert(scan == Ok::<(bool, int), LoopError>((false, free_number as int)));
            assert(self.spec_find_unit(free_number) is None) by {
                if self.spec_find_unit(free_number) is Some {
                    let w = self.spec_find_unit(free_number).unwrap();
                    assert(s[w].unit == free_number);
                }
            }
        }
        self.add_loopback(free_number)
    }

    /// Retire the child carrying `handle`: break the parent back-edge,
    /// uninstall its protocols, release its state and drop the list entry.
    pub fn remove(&mut self, handle: u64) -> (r: Result<(), LoopError>)
        requires
            old(self).wf(),
        ensures
            final(self).wf(),
            match r {
                Ok(()) => {
                    &&& old(self).spec_find_handle(handle) is Some
                    &&& {
                        let idx = old(self).spec_find_handle(handle).unwrap();
                        final(self).children@ == old(self).children@.remove(idx)
                    }
                    &&& final(self).bus_handle == old(self).bus_handle
                    &&& final(self).next_device_id == old(self).next_device_id
                    &&& !final(self).db.spec_has(handle, LOOP_PROTOCOL_GUID)
                    &&& !final(self).db.spec_has(handle, DEVICE_PATH_PROTOCOL_GUID)
                    &&& !final(self).db.spec_has(handle, BLOCK_IO_PROTOCOL_GUID)
                    &&& forall|h2: u64, g: u128|
                        h2 != handle ==> #[trigger] final(self).db.spec_has(h2, g) == old(
                            self,
                        ).db.spec_has(h2, g)
                },
                Err(e) => {
                    &&& *final(self) == *old(self)
                    &&& old(self).spec_find_handle(handle) is None
                    &&& e == if handle == 0 {
                        LoopError::InvalidParameter
                    } else {
                        LoopError::NotFound
                    }
                },
            },
    {
        if handle == 0 {
            return Err(LoopError::InvalidParameter);
        }
        let mut idx: usize = 0;
        while idx < self.children.len() && self.children[idx].handle != handle
            invariant
                old(self).wf(),
                *self == *old(self),
                handle != 0,
                idx <= self.children@.len(),
                forall|k: int| 0 <= k < idx ==> (#[trigger] self.children@[k]).handle != handle,
            decreases self.children@.len() - idx,
        {
            idx = idx + 1;
        }
        let found = idx < self.children.len();
        if !found {
            proof {
                if self.spec_find_handle(handle) is Some {
                    let w = self.spec_find_handle(handle).unwrap();
                    assert(self.children[w].handle == handle);
                }
            }
            return Err(LoopError::NotFound);
        }
        proof {
            assert(self.spec_find_handle(handle) is Some);
            let w = self.spec_find_handle(handle).unwrap();
            assert(self.children[w].handle == handle);
            if w != idx as int {
                assert(false);
            }
        }
        // break the child's open of the parent's loop-control interface
        self.children[idx].ctl_open = false;
        let mut guids: Vec<u128> = Vec::new();
        guids.push(DEVICE_PATH_PROTOCOL_GUID);
        guids.push(LOOP_PROTOCOL_GUID);
        guids.push(BLOCK_IO_PROTOCOL_GUID);
        match self.db.uninstall_multiple_protocols(handle, &guids) {
            Err((_, e)) => {
                // restore the previous invariant before surfacing the error
                self.children[idx].ctl_open = true;
                proof {
                    assert(guids@[0] != guids@[1] && guids@[0] != guids@[2] && guids@[1]
                        != guids@[2]);
                    assert(old(self).db.spec_entry_index(handle) is Some) by {
                        assert(old(self).db.spec_has(handle, LOOP_PROTOCOL_GUID));
                    }
                    assert(old(self).db.spec_has(handle, guids@[0]));
                    assert(old(self).db.spec_has(handle, guids@[1]));
                    assert(old(self).db.spec_has(handle, guids@[2]));
                    assert(false);
                }
                return Err(e);
            },
            Ok(()) => {},
        }
        self.children.remove(idx);
        proof {
            let pre = old(self);
            let posi = idx as int;
            assert(self.children@ =~= pre.children@.remove(posi));
            assert(guids@.contains(LOOP_PROTOCOL_GUID)) by {
                assert(guids@[1] == LOOP_PROTOCOL_GUID);
            }
            assert(guids@.contains(DEVICE_PATH_PROTOCOL_GUID)) by {
                assert(guids@[0] == DEVICE_PATH_PROTOCOL_GUID);
            }
            assert(guids@.contains(BLOCK_IO_PROTOCOL_GUID)) by {
                assert(guids@[2] == BLOCK_IO_PROTOCOL_GUID);
            }
            assert forall|i: int, j: int|
                0 <= i < j < self.children@.len() implies self.children@[i].unit
                < self.children@[j].unit && self.children@[i].handle != self.children@[j].handle
                && self.children@[i].device.device_id != self.children@[j].device.device_id by {
                let i0 = if i < posi {
                    i
                } else {
                    i + 1
                };
                let j0 = if j < posi {
                    j
                } else {
                    j + 1
                };
                assert(self.children@[i] == pre.children@[i0]);
                assert(self.children@[j] == pre.children@[j0]);
            }
            assert forall|i: int|
                0 <= i < self.children@.len() implies (#[trigger] self.children@[i]).device.wf()
                && self.children@[i].device.unit_number == self.children@[i].unit
                && self.children@[i].ctl_open && self.children@[i].handle != 0
                && self.children@[i].device.device_id != 0
                && self.children@[i].device.device_id < self.next_device_id && self.db.spec_has(
                self.children@[i].handle,
                LOOP_PROTOCOL_GUID,
            ) && self.db.spec_has(self.children@[i].handle, DEVICE_PATH_PROTOCOL_GUID)
                && self.db.spec_has(self.children@[i].handle, BLOCK_IO_PROTOCOL_GUID) by {
                let i0 = if i < posi {
                    i
                } else {
                    i + 1
                };
                assert(self.children@[i] == pre.children@[i0]);
                assert(pre.children@[i0].handle != handle) by {
                    if i0 < posi {
                        assert(pre.children@[i0].handle != pre.children@[posi].handle);
                    } else {
                        assert(pre.children@[posi].handle != pre.children@[i0].handle);
                    }
                }
                assert(pre.db.spec_has(pre.children@[i0].handle, LOOP_PROTOCOL_GUID));
                assert(self.db.spec_has(self.children@[i].handle, LOOP_PROTOCOL_GUID));
            }
        }
        Ok(())
    }

    /// Retire every child, last first; the first failure stops the sweep.
    pub fn remove_children(&mut self) -> (r: Result<(), LoopError>)
        requires
            old(self).wf(),
        ensures
            final(self).wf(),
            r == Ok::<(), LoopError>(()),
            final(self).children@.len() == 0,
            final(self).bus_handle == old(self).bus_handle,
            forall|g: u128|
                #[trigger] final(self).db.spec_has(old(self).bus_handle, g) == old(
                    self,
                ).db.spec_has(old(self).bus_handle, g),
    {
        while self.children.len() > 0
            invariant
                self.wf(),
                self.bus_handle == old(self).bus_handle,
                forall|g: u128|
                    #[trigger] self.db.spec_has(old(self).bus_handle, g) == old(
                        self,
                    ).db.spec_has(old(self).bus_handle, g),
            decreases self.children@.len(),
        {
            let h = self.children[self.children.len() - 1].handle;
            let ghost pre_len = self.children@.len();
            proof {
                assert(h != self.bus_handle);
            }
            match self.remove(h) {
                Ok(()) => {
                    proof {
                        assert(self.children@.len() < pre_len);
                    }
                },
                Err(_) => {
                    proof {
                        assert(false);
                    }
                },
            }
        }
        Ok(())
    }
}


/// A packed device path holds a further node before its end marker when its
/// first node header is not the end type.
pub open spec fn has_non_end_node(p: Seq<u8>) -> bool {
    p.len() >= 4 && p[0] != 0x7f
}

impl LoopControlProtocol {
    /// Driver-binding `supported`: this driver manages exactly its own bus
    /// handle, and only as a terminal controller (a remaining path, if
    /// given, may hold no further node).
    pub fn supported(&self, controller_handle: u64, remaining: Option<&Vec<u8>>) -> (r: Result<
        (),
        LoopError,
    >)
        ensures
            r == if controller_handle == 0 {
                Err::<(), LoopError>(LoopError::InvalidParameter)
            } else if controller_handle == self.bus_handle && (match remaining {
                Some(p) => !has_non_end_node(p@),
                None => true,
            }) {
                Ok::<(), LoopError>(())
            } else {
                Err::<(), LoopError>(LoopError::Unsupported)
            },
    {
        if controller_handle == 0 {
            return Err(LoopError::InvalidParameter);
        }
        if controller_handle == self.bus_handle {
            match remaining {
                Some(p) => {
                    if p.len() >= 4 && p[0] != 0x7f {
                        return Err(LoopError::Unsupported);
                    }
                },
                None => {},
            }
            return Ok(());
        }
        Err(LoopError::Unsupported)
    }

    /// Driver-binding `start`: children are created through the
    /// loop-control interface, not by enumeration, so there is nothing to
    /// do.
    pub fn start(&self, controller_handle: u64) -> (r: Result<(), LoopError>)
        ensures
            r == if controller_handle == 0 {
                Err::<(), LoopError>(LoopError::InvalidParameter)
            } else {
                Ok::<(), LoopError>(())
            },
    {
        if controller_handle == 0 {
            return Err(LoopError::InvalidParameter);
        }
        Ok(())
    }

    /// Driver-binding `stop`: retire each listed child in order; the first
    /// failure surfaces at once and the remaining children are not touched.
    pub fn stop(&mut self, child_handles: &Vec<u64>) -> (r: Result<(), LoopError>)
        requires
            old(self).wf(),
        ensures
            final(self).wf(),
            final(self).bus_handle == old(self).bus_handle,
            r is Ok ==> forall|j: int|
                0 <= j < child_handles@.len() ==> final(self).spec_find_handle(
                    #[trigger] child_handles@[j],
                ) is None,
            ({
                let scan = spec_stop_children(old(self).children@, child_handles@, 0);
                match r {
                    Ok(()) => scan matches Ok(cs) && final(self).children@ == cs,
                    Err(e) => scan matches Err((k, cs)) && final(self).children@ == cs && e == (
                    if child_handles@[k] == 0 {
                        LoopError::InvalidParameter
                    } else {
                        LoopError::NotFound
                    }),
                }
            }),
    {
        let ghost scan_full = spec_stop_children(old(self).children@, child_handles@, 0);
        let mut j: usize = 0;
        while j < child_handles.len()
            invariant
                self.wf(),
                self.bus_handle == old(self).bus_handle,
                j <= child_handles@.len(),
                scan_full == spec_stop_children(old(self).children@, child_handles@, 0),
                scan_full == spec_stop_children(self.children@, child_handles@, j as int),
                forall|k: int|
                    0 <= k < j ==> self.spec_find_handle(#[trigger] child_handles@[k]) is None,
            decreases child_handles@.len() - j,
        {
            let ghost pre = *self;
            match self.remove(child_handles[j]) {
                Err(e) => {
                    proof {
                        assert(scan_full == Err::<Seq<ChildEntry>, (int, Seq<ChildEntry>)>((
                            j as int,
                            self.children@,
                        )));
                    }
                    return Err(e);
                },
                Ok(()) => {},
            }
            proof {
                let h = child_handles@[j as int];
                let idx = pre.spec_find_handle(h).unwrap();
                assert forall|k: int|
                    0 <= k <= j implies self.spec_find_handle(#[trigger] child_handles@[k])
                    is None by {
                    let hk = child_handles@[k];
                    if self.spec_find_handle(hk) is Some {
                        let w = self.spec_find_handle(hk).unwrap();
                        assert(self.children@[w].handle == hk);
                        let w0 = if w < idx {
                            w
                        } else {
                            w + 1
                        };
                        assert(self.children@[w] == pre.children@[w0]);
                        assert(pre.spec_find_handle(hk) is Some) by {
                            assert(pre.children@[w0].handle == hk);
                        }
                        if k < j {
                            assert(false);
                        } else {
                            // the child just removed is gone: any other entry
                            // with its handle would break distinctness
                            assert(pre.children@[idx].handle == h);
                            if w0 != idx {
                                if w0 < idx {
                                    assert(pre.children@[w0].handle
                                        != pre.children@[idx].handle);
                                } else {
                                    assert(pre.children@[idx].handle
                                        != pre.children@[w0].handle);
                                }
                            }
                            assert(false);
                        }
                    }
                }
            }
            j = j + 1;
        }
        Ok(())
    }

    /// The controller's bus handle carries its four protocols.
    pub open spec fn installed(&self) -> bool {
        &&& self.bus_handle != 0
        &&& self.db.spec_has(self.bus_handle, DEVICE_PATH_PROTOCOL_GUID)
        &&& self.db.spec_has(self.bus_handle, DRIVER_BINDING_PROTOCOL_GUID)
        &&& self.db.spec_has(self.bus_handle, COMPONENT_NAME2_PROTOCOL_GUID)
        &&& self.db.spec_has(self.bus_handle, LOOP_CONTROL_PROTOCOL_GUID)
    }
}

/// Install the controller into a handle database: refuse a second
/// controller, otherwise install the four bus protocols on a fresh handle.
pub fn install_loop_control(db: ProtocolDb) -> (r: Result<
    LoopControlProtocol,
    (ProtocolDb, LoopError),
>)
    requires
        db.wf(),
    ensures
        match r {
            Ok(ctl) => {
                &&& ctl.wf()
                &&& ctl.installed()
                &&& ctl.children@.len() == 0
                &&& !db.spec_any_has(LOOP_CONTROL_PROTOCOL_GUID)
            },
            Err((db2, e)) => {
                &&& db2 == db
                &&& if db.spec_any_has(LOOP_CONTROL_PROTOCOL_GUID) {
                    e == LoopError::AlreadyStarted
                } else {
                    e == LoopError::Aborted && db.next_handle == u64::MAX
                }
            },
        },
{
    if db.any_has(LOOP_CONTROL_PROTOCOL_GUID) {
        return Err((db, LoopError::AlreadyStarted));
    }
    let mut db = db;
    let ghost db0 = db;
    let mut guids: Vec<u128> = Vec::new();
    guids.push(DEVICE_PATH_PROTOCOL_GUID);
    guids.push(DRIVER_BINDING_PROTOCOL_GUID);
    guids.push(COMPONENT_NAME2_PROTOCOL_GUID);
    guids.push(LOOP_CONTROL_PROTOCOL_GUID);
    let h = match db.install_multiple_protocols(0, &guids) {
        Err((k, e)) => {
            proof {
                assert(guids@[0] != guids@[1] && guids@[0] != guids@[2] && guids@[0] != guids@[3]
                    && guids@[1] != guids@[2] && guids@[1] != guids@[3] && guids@[2] != guids@[3]);
                if db.next_handle != u64::MAX {
                    // a failing index would name a duplicate entry
                    assert(crate::protodb::spec_install_bad(db, 0, guids@, k as int));
                    let w = choose|j2: int|
                        k < j2 < guids@.len() && #[trigger] guids@[j2] == guids@[k as int];
                    assert(guids@[w] == guids@[k as int]);
                    assert(false);
                }
                assert(e == LoopError::Aborted);
            }
            return Err((db, LoopError::Aborted));
        },
        Ok(h) => h,
    };
    proof {
        assert(guids@[0] == DEVICE_PATH_PROTOCOL_GUID);
        assert(guids@[1] == DRIVER_BINDING_PROTOCOL_GUID);
        assert(guids@[2] == COMPONENT_NAME2_PROTOCOL_GUID);
        assert(guids@[3] == LOOP_CONTROL_PROTOCOL_GUID);
    }
    Ok(
        LoopControlProtocol {
            bus_handle: h,
            next_device_id: 1,
            children: Vec::new(),
            db,
        },
    )
}

/// Tear the controller down: retire every child, then uninstall the four
/// bus protocols and hand the database back.
pub fn uninstall_loop_control(ctl: LoopControlProtocol) -> (r: Result<ProtocolDb, LoopError>)
    requires
        ctl.wf(),
        ctl.installed(),
    ensures
        match r {
            Ok(db) => {
                &&& db.wf()
                &&& !db.spec_has(ctl.bus_handle, LOOP_CONTROL_PROTOCOL_GUID)
            },
            Err(_) => false,
        },
{
    let mut ctl = ctl;
    match ctl.remove_children() {
        Ok(()) => {},
        Err(e) => {
            proof {
                assert(false);
            }
            return Err(e);
        },
    }
    let mut guids: Vec<u128> = Vec::new();
    guids.push(DEVICE_PATH_PROTOCOL_GUID);
    guids.push(DRIVER_BINDING_PROTOCOL_GUID);
    guids.push(COMPONENT_NAME2_PROTOCOL_GUID);
    guids.push(LOOP_CONTROL_PROTOCOL_GUID);
    match ctl.db.uninstall_multiple_protocols(ctl.bus_handle, &guids) {
        Err((_, e)) => {
            proof {
                assert(guids@[0] != guids@[1] && guids@[0] != guids@[2] && guids@[0] != guids@[3]
                    && guids@[1] != guids@[2] && guids@[1] != guids@[3] && guids@[2] != guids@[3]);
                assert(ctl.db.spec_entry_index(ctl.bus_handle) is Some) by {
                    assert(ctl.db.spec_has(ctl.bus_handle, LOOP_CONTROL_PROTOCOL_GUID));
                }
                assert(ctl.db.spec_has(ctl.bus_handle, guids@[0]));
                assert(ctl.db.spec_has(ctl.bus_handle, guids@[1]));
                assert(ctl.db.spec_has(ctl.bus_handle, guids@[2]));
                assert(ctl.db.spec_has(ctl.bus_handle, guids@[3]));
                assert(false);
            }
            return Err(e);
        },
        Ok(()) => {},
    }
    proof {
        assert(guids@.contains(LOOP_CONTROL_PROTOCOL_GUID)) by {
            assert(guids@[3] == LOOP_CONTROL_PROTOCOL_GUID);
        }
    }
    Ok(ctl.db)
}

/// The fixed name of the driver, as the component-name service reports it.
pub fn get_driver_name() -> (r: &'static str)
    ensures
        r@ == "Loopback Driver"@,
{
    "Loopback Driver"
}

/// The fixed name of the controller node.
pub fn get_controller_name() -> (r: &'static str)
    ensures
        r@ == "Loopback Controller"@,
{
    "Loopback Controller"
}

/// The fixed list of languages the component-name service supports.
pub fn supported_languages() -> (r: &'static str)
    ensures
        r@ == "en-us;en"@,
{
    "en-us;en"
}


/// The sorted insert position lies within the list.
pub proof fn lemma_pos_in_bounds(s: Seq<ChildEntry>, unit: u32)
    ensures
        0 <= spec_pos_in(s, unit) <= s.len(),
    decreases s.len(),
{
    if s.len() > 0 && s[0].unit < unit {
        lemma_pos_in_bounds(s.drop_first(), unit);
    }
}


/// The decimal digits of a number, most significant first.
pub open spec fn spec_decimal(n: nat) -> Seq<u8>
    decreases n,
{
    if n < 10 {
        seq![(0x30 + n) as u8]
    } else {
        spec_decimal(n / 10) + seq![(0x30 + n % 10) as u8]
    }
}

/// Format a number in decimal.
pub fn u32_decimal(n: u32) -> (r: Vec<u8>)
    ensures
        r@ == spec_decimal(n as nat),
    decreases n,
{
    if n < 10 {
        let mut r: Vec<u8> = Vec::new();
        r.push(0x30 + n as u8);
        proof {
            assert(r@ =~= spec_decimal(n as nat));
        }
        r
    } else {
        let mut r = u32_decimal(n / 10);
        r.push(0x30 + (n % 10) as u8);
        proof {
            assert(r@ =~= spec_decimal(n as nat));
        }
        r
    }
}

/// The name of the child with the given unit number, as the component-name
/// service reports it.
pub open spec fn spec_device_name(unit: u32) -> Seq<u8> {
    "Loopback Device #".spec_bytes() + spec_decimal(unit as nat)
}

impl LoopControlProtocol {
    /// The cached name of the child on `child_handle`, or the controller's
    /// own name when no child is named.
    pub fn get_child_name(&self, child_handle: Option<u64>) -> (r: Result<Vec<u8>, LoopError>)
        requires
            self.wf(),
        ensures
            match child_handle {
                None => r matches Ok(name) && name@ == "Loopback Controller".spec_bytes(),
                Some(h) => match self.spec_find_handle(h) {
                    Some(i) => r matches Ok(name) && name@ == spec_device_name(
                        self.children@[i].unit,
                    ),
                    None => r == Err::<Vec<u8>, LoopError>(LoopError::InvalidParameter),
                },
            },
    {
        let h = match child_handle {
            None => {
                let mut name: Vec<u8> = Vec::new();
                let s = "Loopback Controller";
                let b = s.as_bytes();
                let mut i: usize = 0;
                while i < b.len()
                    invariant
                        i <= b@.len(),
                        b@ == "Loopback Controller".spec_bytes(),
                        name@ == b@.subrange(0, i as int),
                    decreases b@.len() - i,
                {
                    name.push(b[i]);
                    proof {
                        assert(name@ =~= b@.subrange(0, (i + 1) as int));
                    }
                    i = i + 1;
                }
                proof {
                    assert(name@ =~= b@);
                }
                return Ok(name);
            },
            Some(h) => h,
        };
        let mut idx: usize = 0;
        while idx < self.children.len() && self.children[idx].handle != h
            invariant
                self.wf(),
                idx <= self.children@.len(),
                forall|k: int| 0 <= k < idx ==> (#[trigger] self.children@[k]).handle != h,
            decreases self.children@.len() - idx,
        {
            idx = idx + 1;
        }
        if idx >= self.children.len() {
            proof {
                if self.spec_find_handle(h) is Some {
                    let w = self.spec_find_handle(h).unwrap();
                    assert(self.children@[w].handle == h);
                }
            }
            return Err(LoopError::InvalidParameter);
        }
        proof {
            assert(self.spec_find_handle(h) is Some) by {
                assert(self.children@[idx as int].handle == h);
            }
            let w = self.spec_find_handle(h).unwrap();
            assert(self.children@[w].handle == h);
            if w != idx as int {
                assert(false);
            }
        }
        let mut name: Vec<u8> = Vec::new();
        let s = "Loopback Device #";
        let b = s.as_bytes();
        let mut i: usize = 0;
        while i < b.len()
            invariant
                i <= b@.len(),
                b@ == "Loopback Device #".spec_bytes(),
                name@ == b@.subrange(0, i as int),
            decreases b@.len() - i,
        {
            name.push(b[i]);
            proof {
                assert(name@ =~= b@.subrange(0, (i + 1) as int));
            }
            i = i + 1;
        }
        let digits = u32_decimal(self.children[idx].unit);
        let mut j: usize = 0;
        while j < digits.len()
            invariant
                j <= digits@.len(),
                name@ == "Loopback Device #".spec_bytes() + digits@.subrange(0, j as int),
            decreases digits@.len() - j,
        {
            name.push(digits[j]);
            proof {
                assert(name@ =~= "Loopback Device #".spec_bytes() + digits@.subrange(
                    0,
                    (j + 1) as int,
                ));
            }
            j = j + 1;
        }
        proof {
            assert(digits@.subrange(0, digits@.len() as int) =~= digits@);
        }
        Ok(name)
    }
}


/// A scan that hands out an existing child names a real index.
pub proof fn lemma_scan_free_ok_bounds(s: Seq<ChildEntry>, k: int, cand: int)
    requires
        0 <= k <= s.len(),
    ensures
        spec_scan_free(s, k, cand) matches Ok((existing, v)) ==> (existing ==> k <= v
            < s.len()),
    decreases s.len() - k,
{
    if k < s.len() && !s[k].device.spec_is_free() {
        if s[k].unit == cand {
            if cand != u32::MAX {
                lemma_scan_free_ok_bounds(s, k + 1, cand + 1);
            }
        } else {
            lemma_scan_free_ok_bounds(s, k + 1, cand);
        }
    }
}

} // verus!
