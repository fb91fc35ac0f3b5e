//! The block-I/O dispatcher: validation, the segment walk, and the
//! per-target read, write and flush operations.
//!
//! The logical contents of a bound device are defined byte by byte through
//! [`device_byte`]: the mapping item containing a sector sends each of its
//! bytes to a zero source, a pool, or a file region. Reads return exactly
//! those bytes; writes place the caller's bytes there. Every file access
//! first re-validates that the filesystem device still exposes the interface
//! snapshot taken when the table was set.

use vstd::prelude::*;
use crate::SECTOR_SIZE;
use crate::device::LoopProtocol;
use crate::mapping::{
    PrivMappingItem, PrivTarget, find_item, item_index_for, lemma_item_index_for,
    lemma_item_index_unique, table_end,
};
use crate::status::LoopError;
use crate::store::FileStore;

verus! {

/// The byte of `item`'s target at offset `rel` from the item's logical
/// start, as the store currently holds it.
pub open spec fn target_byte(
    dev: &LoopProtocol,
    store: &FileStore,
    item: PrivMappingItem,
    rel: int,
) -> u8 {
    match item.target {
        PrivTarget::Zero => 0u8,
        PrivTarget::Pool { index } => dev.pools@[index as int].data@[item.target_start_sector * (
        SECTOR_SIZE as int) + rel],
        PrivTarget::File { fs_device, file_index, .. } => match store.spec_device_index(fs_device) {
            Some(di) => store.devices@[di].files@[file_index as int].data@[item.target_start_sector
                * (SECTOR_SIZE as int) + rel],
            None => 0u8,
        },
    }
}

/// The logical content of the device at absolute byte offset `b`.
pub open spec fn device_byte(dev: &LoopProtocol, store: &FileStore, b: int) -> u8 {
    let t = dev.table@;
    let idx = item_index_for(t, b / (SECTOR_SIZE as int));
    let item = t[idx];
    target_byte(dev, store, item, b - item.start_sector * (SECTOR_SIZE as int))
}

/// First sector of `item` touched by a request starting at `s0`.
pub open spec fn seg_lo(item: PrivMappingItem, s0: int) -> int {
    if item.start_sector >= s0 {
        item.start_sector as int
    } else {
        s0
    }
}

/// One past the last sector of `item` touched by a request ending at `s1`.
pub open spec fn seg_hi(item: PrivMappingItem, s1: int) -> int {
    if item.spec_end_sector() <= s1 {
        item.spec_end_sector()
    } else {
        s1
    }
}

/// The item holds at least one sector of `[s0, s1)`.
pub open spec fn item_intersects(item: PrivMappingItem, s0: int, s1: int) -> bool {
    item.start_sector < s1 && s0 < item.spec_end_sector()
}

/// A file-backed item can serve its share of a request ending at sector
/// `s1`: the cached filesystem device still exists and exposes the interface
/// snapshot, the opened file is still there, and the file reaches the last
/// target sector needed.
pub open spec fn file_seg_ok(store: &FileStore, item: PrivMappingItem, s1: int) -> bool {
    match item.target {
        PrivTarget::File { fs_device, file_index, interface, .. } => match store.spec_device_index(
            fs_device,
        ) {
            Some(di) => {
                let d = store.devices@[di];
                &&& d.interface == interface
                &&& (file_index as int) < d.files.len()
                &&& item.target_start_sector + (seg_hi(item, s1) - item.start_sector)
                    <= d.files[file_index as int].data.len() as int / (SECTOR_SIZE as int)
            },
            None => false,
        },
        _ => true,
    }
}

/// Every file-backed item intersecting `[s0, s1)` can serve the request.
pub open spec fn range_files_ok(dev: &LoopProtocol, store: &FileStore, s0: int, s1: int) -> bool {
    forall|i: int|
        0 <= i < dev.table@.len() && item_intersects(#[trigger] dev.table@[i], s0, s1)
            ==> file_seg_ok(store, dev.table@[i], s1)
}

/// Why a block access would fail, checked in the order the device checks:
/// media presence, media id, buffer granularity, write protection, range,
/// then the per-segment file re-validation.
pub open spec fn blocks_error(
    dev: &LoopProtocol,
    store: &FileStore,
    media_id: u32,
    lba: int,
    buffer_size: int,
    write: bool,
) -> Option<LoopError> {
    if !dev.media.media_present {
        Some(LoopError::NoMedia)
    } else if media_id != dev.media.media_id {
        Some(LoopError::MediaChanged)
    } else if buffer_size % (SECTOR_SIZE as int) != 0 {
        Some(LoopError::BadBufferSize)
    } else if write && dev.media.read_only {
        Some(LoopError::WriteProtected)
    } else if lba + buffer_size / (SECTOR_SIZE as int) > dev.media.last_block {
        Some(LoopError::InvalidParameter)
    } else if !range_files_ok(dev, store, lba, lba + buffer_size / (SECTOR_SIZE as int)) {
        Some(LoopError::DeviceError)
    } else {
        None
    }
}

/// `x * 512 <= l` exactly when `x <= l / 512`.
proof fn lemma_sector_fit(x: int, l: int)
    requires
        0 <= x,
        0 <= l,
    ensures
        (x * (SECTOR_SIZE as int) <= l) <==> (x <= l / (SECTOR_SIZE as int)),
{
    assert((x * 512 <= l) <==> (x <= l / 512)) by (nonlinear_arith)
        requires
            0 <= x,
            0 <= l,
    ;
}

/// Check that the cached filesystem device of every file-backed item
/// intersecting the request still matches its snapshot and still reaches
/// the needed sectors.
fn check_range_files(
    dev: &LoopProtocol,
    store: &FileStore,
    s0: u64,
    s1: u64,
) -> (r: bool)
    requires
        dev.wf(),
        store.wf(),
        s1 <= table_end(dev.table@),
        s0 <= s1,
    ensures
        r == range_files_ok(dev, store, s0 as int, s1 as int),
{
    let mut i: usize = 0;
    while i < dev.table.len()
        invariant
            dev.wf(),
            store.wf(),
            s0 <= s1,
            i <= dev.table@.len(),
            forall|k: int|
                0 <= k < i && item_intersects(#[trigger] dev.table@[k], s0 as int, s1 as int)
                    ==> file_seg_ok(store, dev.table@[k], s1 as int),
        decreases dev.table@.len() - i,
    {
        let item = &dev.table[i];
        proof {
            assert(dev.target_wf(dev.table@[i as int]));
        }
        if item.start_sector < s1 && (item.start_sector > s0 || s0 - item.start_sector
            < item.num_sectors) {
            // this item holds sectors of the request
            match &item.target {
                PrivTarget::File { fs_device, file_index, interface, .. } => {
                    let hi = if item.start_sector > u64::MAX - item.num_sectors || item.start_sector
                        + item.num_sectors > s1 {
                        s1
                    } else {
                        item.start_sector + item.num_sectors
                    };
                    proof {
                        assert(hi as int == seg_hi(dev.table@[i as int], s1 as int));
                    }
                    proof {
                        assert(item_intersects(dev.table@[i as int], s0 as int, s1 as int));
                    }
                    match store.find_device(*fs_device) {
                        None => {
                            proof {
                                assert(!file_seg_ok(store, dev.table@[i as int], s1 as int));
                            }
                            return false;
                        },
                        Some(di) => {
                            let d = &store.devices[di];
                            if d.interface != *interface {
                                proof {
                                    assert(!file_seg_ok(store, dev.table@[i as int], s1 as int));
                                }
                                return false;
                            }
                            if *file_index >= d.files.len() {
                                proof {
                                    assert(!file_seg_ok(store, dev.table@[i as int], s1 as int));
                                }
                                return false;
                            }
                            let avail = d.files[*file_index].data.len() / SECTOR_SIZE;
                            let need_hi = hi - item.start_sector;
                            if item.target_start_sector > avail as u64 || need_hi > avail as u64
                                - item.target_start_sector {
                                proof {
                                    assert(!file_seg_ok(store, dev.table@[i as int], s1 as int));
                                }
                                return false;
                            }
                        },
                    }
                },
                _ => {},
            }
        }
        i = i + 1;
    }
    true
}

impl LoopProtocol {
    /// Reset the device: validation only, nothing to do.
    pub fn reset(&self) -> (r: Result<(), LoopError>)
        ensures
            r == Ok::<(), LoopError>(()),
    {
        Ok(())
    }

    /// Read `buffer_size` bytes starting at block `lba`. On success the
    /// returned bytes are exactly the device's logical contents there.
    pub fn read_blocks(
        &self,
        store: &FileStore,
        media_id: u32,
        lba: u64,
        buffer_size: usize,
    ) -> (r: Result<Vec<u8>, LoopError>)
        requires
            self.wf(),
            store.wf(),
        ensures
            match blocks_error(self, store, media_id, lba as int, buffer_size as int, false) {
                Some(e) => r == Err::<Vec<u8>, LoopError>(e),
                None => {
                    &&& r is Ok
                    &&& r matches Ok(data) && data@.len() == buffer_size
                    &&& r matches Ok(data) && forall|j: int|
                        0 <= j < buffer_size ==> data@[j] == device_byte(
                            self,
                            store,
                            lba * (SECTOR_SIZE as int) + j,
                        )
                },
            },
    {
        if !self.media.media_present {
            return Err(LoopError::NoMedia);
        }
        if media_id != self.media.media_id {
            return Err(LoopError::MediaChanged);
        }
        if buffer_size % SECTOR_SIZE != 0 {
            return Err(LoopError::BadBufferSize);
        }
        let total_sectors = (buffer_size / SECTOR_SIZE) as u64;
        if total_sectors > self.media.last_block || lba > self.media.last_block - total_sectors {
            return Err(LoopError::InvalidParameter);
        }
        proof {
            assert(table_end(self.table@) == self.media.last_block);
        }
        if !check_range_files(self, store, lba, lba + total_sectors) {
            return Err(LoopError::DeviceError);
        }
        let mut out: Vec<u8> = Vec::new();
        let mut sec: u64 = 0;
        while sec < total_sectors
            invariant
                self.wf(),
                store.wf(),
                self.media.media_present,
                total_sectors == buffer_size as int / (SECTOR_SIZE as int),
                buffer_size % SECTOR_SIZE == 0,
                lba + total_sectors <= table_end(self.table@),
                range_files_ok(self, store, lba as int, lba + total_sectors),
                sec <= total_sectors,
                out@.len() == sec * (SECTOR_SIZE as int),
                forall|j: int|
                    0 <= j < out@.len() ==> out@[j] == device_byte(
                        self,
                        store,
                        lba * (SECTOR_SIZE as int) + j,
                    ),
            decreases total_sectors - sec,
        {
            let s_abs = lba + sec;
            let idx = find_item(&self.table, s_abs);
            let item = &self.table[idx];
            proof {
                assert(self.target_wf(self.table@[idx as int]));
                assert(item_intersects(self.table@[idx as int], lba as int, lba + total_sectors));
                assert(file_seg_ok(store, self.table@[idx as int], lba + total_sectors));
            }
            let off_sectors = s_abs - item.start_sector;
            let ghost item_g = self.table@[idx as int];
            match &item.target {
                PrivTarget::Zero => {
                    let mut b: usize = 0;
                    while b < SECTOR_SIZE
                        invariant
                            b <= SECTOR_SIZE,
                            out@.len() == sec * (SECTOR_SIZE as int) + b,
                            sec < total_sectors,
                            forall|j: int|
                                sec * (SECTOR_SIZE as int) <= j < out@.len() ==> out@[j] == 0u8,
                            forall|j: int|
                                0 <= j < sec * (SECTOR_SIZE as int) ==> out@[j] == device_byte(
                                    self,
                                    store,
                                    lba * (SECTOR_SIZE as int) + j,
                                ),
                        decreases SECTOR_SIZE - b,
                    {
                        out.push(0u8);
                        b = b + 1;
                    }
                    proof {
                        assert(forall|b2: int|
                            0 <= b2 < (SECTOR_SIZE as int) ==> #[trigger] out@[sec * (
                            SECTOR_SIZE as int) + b2] == target_byte(
                                self,
                                store,
                                item_g,
                                (lba + sec - item_g.start_sector) * (SECTOR_SIZE as int) + b2,
                            ));
                        lemma_read_sector_matches(
                            self,
                            store,
                            lba as int,
                            sec as int,
                            idx as int,
                            out@,
                        );
                    }
                },
                PrivTarget::Pool { index } => {
                    let pdata = &self.pools[*index].data;
                    proof {
                        assert(item_g.target_start_sector + off_sectors + 1 <= pdata@.len() as int
                            / (SECTOR_SIZE as int));
                    }
                    let tsec = item.target_start_sector + off_sectors;
                    proof {
                        lemma_sector_fit((tsec + 1) as int, pdata@.len() as int);
                        assert((tsec + 1) as int * (SECTOR_SIZE as int) <= pdata@.len());
                        assert(tsec * (SECTOR_SIZE as int) + (SECTOR_SIZE as int) <= pdata@.len())
                            by (nonlinear_arith)
                            requires
                                (tsec + 1) as int * (SECTOR_SIZE as int) <= pdata@.len(),
                        ;
                        assert(tsec * (SECTOR_SIZE as int) <= usize::MAX as int);
                    }
                    let base = (tsec as usize) * SECTOR_SIZE;
                    let mut b: usize = 0;
                    while b < SECTOR_SIZE
                        invariant
                            b <= SECTOR_SIZE,
                            base == tsec * (SECTOR_SIZE as int),
                            base + SECTOR_SIZE <= pdata@.len(),
                            pdata == self.pools@[index as int].data,
                            (index as int) < self.pools@.len(),
                            out@.len() == sec * (SECTOR_SIZE as int) + b,
                            sec < total_sectors,
                            forall|j: int|
                                0 <= j < b ==> #[trigger] out@[sec * (SECTOR_SIZE as int) + j]
                                    == pdata@[base + j],
                            forall|j: int|
                                0 <= j < sec * (SECTOR_SIZE as int) ==> out@[j] == device_byte(
                                    self,
                                    store,
                                    lba * (SECTOR_SIZE as int) + j,
                                ),
                        decreases SECTOR_SIZE - b,
                    {
                        out.push(pdata[base + b]);
                        b = b + 1;
                    }
                    proof {
                        assert forall|b2: int| 0 <= b2 < (SECTOR_SIZE as int) implies #[trigger] out@[
                        sec * (SECTOR_SIZE as int) + b2] == target_byte(
                            self,
                            store,
                            item_g,
                            (lba + sec - item_g.start_sector) * (SECTOR_SIZE as int) + b2,
                        ) by {
                            assert(item_g.target_start_sector * (SECTOR_SIZE as int) + ((lba + sec
                                - item_g.start_sector) * (SECTOR_SIZE as int) + b2) == base + b2)
                                by (nonlinear_arith)
                                requires
                                    base == (item_g.target_start_sector + (lba + sec
                                        - item_g.start_sector)) * (SECTOR_SIZE as int),
                            ;
                        }
                        lemma_read_sector_matches(
                            self,
                            store,
                            lba as int,
                            sec as int,
                            idx as int,
                            out@,
                        );
                    }
                },
                PrivTarget::File { fs_device, file_index, .. } => {
                    let di = match store.find_device(*fs_device) {
                        Some(di) => di,
                        None => {
                            proof {
                                assert(false);
                            }
                            return Err(LoopError::DeviceError);
                        },
                    };
                    let fdata = &store.devices[di].files[*file_index].data;
                    proof {
                        assert(item_g.target_start_sector + off_sectors + 1 <= fdata@.len() as int
                            / (SECTOR_SIZE as int));
                    }
                    let tsec = item.target_start_sector + off_sectors;
                    proof {
                        lemma_sector_fit((tsec + 1) as int, fdata@.len() as int);
                        assert((tsec + 1) as int * (SECTOR_SIZE as int) <= fdata@.len());
                        assert(tsec * (SECTOR_SIZE as int) + (SECTOR_SIZE as int) <= fdata@.len())
                            by (nonlinear_arith)
                            requires
                                (tsec + 1) as int * (SECTOR_SIZE as int) <= fdata@.len(),
                        ;
                        assert(tsec * (SECTOR_SIZE as int) <= usize::MAX as int);
                    }
                    let base = (tsec as usize) * SECTOR_SIZE;
                    let mut b: usize = 0;
                    while b < SECTOR_SIZE
                        invariant
                            b <= SECTOR_SIZE,
                            base == tsec * (SECTOR_SIZE as int),
                            base + SECTOR_SIZE <= fdata@.len(),
                            (di as int) < store.devices@.len(),
                            (file_index as int) < store.devices@[di as int].files@.len(),
                            fdata == store.devices@[di as int].files@[file_index as int].data,
                            out@.len() == sec * (SECTOR_SIZE as int) + b,
                            sec < total_sectors,
                            forall|j: int|
                                0 <= j < b ==> #[trigger] out@[sec * (SECTOR_SIZE as int) + j]
                                    == fdata@[base + j],
                            forall|j: int|
                                0 <= j < sec * (SECTOR_SIZE as int) ==> out@[j] == device_byte(
                                    self,
                                    store,
                                    lba * (SECTOR_SIZE as int) + j,
                                ),
                        decreases SECTOR_SIZE - b,
                    {
                        out.push(fdata[base + b]);
                        b = b + 1;
                    }
                    proof {
                        assert forall|b2: int| 0 <= b2 < (SECTOR_SIZE as int) implies #[trigger] out@[
                        sec * (SECTOR_SIZE as int) + b2] == target_byte(
                            self,
                            store,
                            item_g,
                            (lba + sec - item_g.start_sector) * (SECTOR_SIZE as int) + b2,
                        ) by {
                            assert(item_g.target_start_sector * (SECTOR_SIZE as int) + ((lba + sec
                                - item_g.start_sector) * (SECTOR_SIZE as int) + b2) == base + b2)
                                by (nonlinear_arith)
                                requires
                                    base == (item_g.target_start_sector + (lba + sec
                                        - item_g.start_sector)) * (SECTOR_SIZE as int),
                            ;
                        }
                        lemma_read_sector_matches(
                            self,
                            store,
                            lba as int,
                            sec as int,
                            idx as int,
                            out@,
                        );
                    }
                },
            }
            sec = sec + 1;
        }
        proof {
            assert(out@.len() == buffer_size as int) by (nonlinear_arith)
                requires
                    out@.len() == (buffer_size as int / (SECTOR_SIZE as int)) * (SECTOR_SIZE as int),
                    buffer_size as int % (SECTOR_SIZE as int) == 0,
                    SECTOR_SIZE as int == 512,
            ;
        }
        Ok(out)
    }
}


/// Splitting an absolute byte offset into its sector and in-sector parts.
proof fn lemma_abs_div(s: int, b: int)
    requires
        0 <= b < (SECTOR_SIZE as int),
        0 <= s,
    ensures
        (s * (SECTOR_SIZE as int) + b) / (SECTOR_SIZE as int) == s,
{
    assert((s * 512 + b) / 512 == s) by (nonlinear_arith)
        requires
            0 <= b < 512,
            0 <= s,
    ;
}

/// A nonnegative byte offset decomposes into sector and remainder.
proof fn lemma_byte_decompose(j: int)
    requires
        0 <= j,
    ensures
        j == (j / (SECTOR_SIZE as int)) * (SECTOR_SIZE as int) + (j % (SECTOR_SIZE as int)),
        0 <= j % (SECTOR_SIZE as int) < (SECTOR_SIZE as int),
        0 <= j / (SECTOR_SIZE as int),
{
    assert(j == (j / 512) * 512 + (j % 512) && 0 <= j % 512 < 512 && 0 <= j / 512)
        by (nonlinear_arith)
        requires
            0 <= j,
    ;
}

/// First target byte of `item` touched by a request starting at sector
/// `s0`.
pub open spec fn win_lo(item: PrivMappingItem, s0: int) -> int {
    item.target_start_sector * (SECTOR_SIZE as int) + (seg_lo(item, s0) - item.start_sector) * (
    SECTOR_SIZE as int)
}

/// One past the last target byte of `item` touched by a request ending at
/// sector `s1`.
pub open spec fn win_hi(item: PrivMappingItem, s1: int) -> int {
    item.target_start_sector * (SECTOR_SIZE as int) + (seg_hi(item, s1) - item.start_sector) * (
    SECTOR_SIZE as int)
}

/// Pool slot `p` has byte `k` inside some touched window of the request.
pub open spec fn pool_byte_written(
    t: Seq<PrivMappingItem>,
    s0: int,
    s1: int,
    p: int,
    k: int,
) -> bool {
    exists|i: int|
        0 <= i < t.len() && item_intersects(#[trigger] t[i], s0, s1) && match t[i].target {
            PrivTarget::Pool { index } => index == p && win_lo(t[i], s0) <= k < win_hi(t[i], s1),
            _ => false,
        }
}

/// The file opened as `(fs_device, fi)` has byte `k` inside some touched
/// window of the request.
pub open spec fn file_byte_written(
    t: Seq<PrivMappingItem>,
    s0: int,
    s1: int,
    fsdev: u64,
    fi: int,
    k: int,
) -> bool {
    exists|i: int|
        0 <= i < t.len() && item_intersects(#[trigger] t[i], s0, s1) && match t[i].target {
            PrivTarget::File { fs_device, file_index, .. } => fs_device == fsdev && file_index == fi
                && win_lo(t[i], s0) <= k < win_hi(t[i], s1),
            _ => false,
        }
}

/// No two file-backed items of the request map overlapping regions of the
/// same opened file. Pool targets never alias: the device invariant keeps
/// their slots distinct.
pub open spec fn no_file_alias(t: Seq<PrivMappingItem>, s0: int, s1: int) -> bool {
    forall|i: int, j: int|
        0 <= i < j < t.len() && item_intersects(#[trigger] t[i], s0, s1) && item_intersects(
            #[trigger] t[j],
            s0,
            s1,
        ) ==> match (t[i].target, t[j].target) {
            (
                PrivTarget::File { fs_device: f1, file_index: x1, .. },
                PrivTarget::File { fs_device: f2, file_index: x2, .. },
            ) => (f1 == f2 && x1 == x2) ==> (win_hi(t[i], s1) <= win_lo(t[j], s0) || win_hi(
                t[j],
                s1,
            ) <= win_lo(t[i], s0)),
            _ => true,
        }
}

/// The two stores have the same devices, interfaces, paths and file sizes;
/// only file contents may differ.
pub open spec fn store_same_shape(a: &FileStore, b: &FileStore) -> bool {
    &&& a.devices@.len() == b.devices@.len()
    &&& forall|d: int|
        0 <= d < a.devices@.len() ==> {
            &&& (#[trigger] a.devices@[d]).handle == b.devices@[d].handle
            &&& a.devices@[d].interface == b.devices@[d].interface
            &&& a.devices@[d].files@.len() == b.devices@[d].files@.len()
            &&& forall|f: int|
                0 <= f < a.devices@[d].files@.len() ==> {
                    &&& (#[trigger] a.devices@[d].files@[f]).path@ == b.devices@[d].files@[f].path@
                    &&& a.devices@[d].files@[f].data@.len() == b.devices@[d].files@[f].data@.len()
                }
        }
}

/// The two devices agree on everything but pool contents; pool states and
/// sizes match too.
pub open spec fn dev_same_shape(a: &LoopProtocol, b: &LoopProtocol) -> bool {
    &&& a.device_id == b.device_id
    &&& a.unit_number == b.unit_number
    &&& a.media == b.media
    &&& a.table@ == b.table@
    &&& a.pools@.len() == b.pools@.len()
    &&& forall|p: int|
        0 <= p < a.pools@.len() ==> {
            &&& (#[trigger] a.pools@[p]).state == b.pools@[p].state
            &&& a.pools@[p].data@.len() == b.pools@[p].data@.len()
        }
}


/// A store that kept its shape keeps its well-formedness.
proof fn lemma_shape_preserves_store_wf(a: &FileStore, b: &FileStore)
    requires
        b.wf(),
        store_same_shape(a, b),
    ensures
        a.wf(),
{
    assert forall|i: int| 0 <= i < a.devices.len() implies (#[trigger] a.devices[i]).wf() by {
        assert(b.devices[i].wf());
        assert forall|x: int, y: int|
            0 <= x < y < a.devices[i].files.len() implies a.devices[i].files[x].path@
            != a.devices[i].files[y].path@ by {
            assert(a.devices@[i].files@[x].path@ == b.devices@[i].files@[x].path@);
            assert(a.devices@[i].files@[y].path@ == b.devices@[i].files@[y].path@);
        }
    }
}

/// A device that kept its shape keeps its invariant, and a request that
/// could be served still can be: both depend only on shapes.
proof fn lemma_shape_preserves_dev(
    dev_a: &LoopProtocol,
    dev_b: &LoopProtocol,
    store_a: &FileStore,
    store_b: &FileStore,
    s0: int,
    s1: int,
)
    requires
        dev_b.wf(),
        store_b.wf(),
        dev_same_shape(dev_a, dev_b),
        store_same_shape(store_a, store_b),
        range_files_ok(dev_b, store_b, s0, s1),
    ensures
        dev_a.wf(),
        range_files_ok(dev_a, store_a, s0, s1),
{
    assert forall|i: int| 0 <= i < dev_a.table@.len() implies dev_a.target_wf(
        #[trigger] dev_a.table@[i],
    ) by {
        assert(dev_b.target_wf(dev_b.table@[i]));
    }
    assert forall|d: int| 0 <= d < store_a.devices@.len() implies store_a.spec_device_index(
        #[trigger] store_a.devices@[d].handle,
    ) == store_b.spec_device_index(store_a.devices@[d].handle) by {
        lemma_same_shape_device_index(store_a, store_b, store_a.devices@[d].handle);
    }
    assert forall|i: int|
        0 <= i < dev_a.table@.len() && item_intersects(#[trigger] dev_a.table@[i], s0, s1) implies
        file_seg_ok(store_a, dev_a.table@[i], s1) by {
        assert(file_seg_ok(store_b, dev_b.table@[i], s1));
        match dev_a.table@[i].target {
            PrivTarget::File { fs_device, file_index, .. } => {
                lemma_same_shape_device_index(store_a, store_b, fs_device);
            },
            _ => {},
        }
    }
}

/// Same-shaped stores resolve every handle to the same device slot.
proof fn lemma_same_shape_device_index(a: &FileStore, b: &FileStore, handle: u64)
    requires
        store_same_shape(a, b),
        b.wf(),
    ensures
        a.spec_device_index(handle) == b.spec_device_index(handle),
{
    if exists|i: int| 0 <= i < a.devices.len() && a.devices[i].handle == handle {
        let i = choose|i: int| 0 <= i < a.devices.len() && a.devices[i].handle == handle;
        assert(b.devices@[i].handle == handle);
        assert(b.spec_device_index(handle) is Some);
    }
    if exists|i: int| 0 <= i < b.devices.len() && b.devices[i].handle == handle {
        let i = choose|i: int| 0 <= i < b.devices.len() && b.devices[i].handle == handle;
        assert(a.devices@[i].handle == handle);
        assert(a.spec_device_index(handle) is Some);
    }
    match (a.spec_device_index(handle), b.spec_device_index(handle)) {
        (Some(x), Some(y)) => {
            assert(a.devices@[x].handle == handle);
            assert(b.devices@[x].handle == handle);
            assert(b.devices@[y].handle == handle);
            if x != y {
                // two slots of the well-formed store would share a handle
                assert(false);
            }
        },
        _ => {},
    }
}

/// After one sector's bytes are appended, the whole prefix still matches
/// the device's logical contents: the sector's bytes were taken from the
/// target that `device_byte` names.
proof fn lemma_read_sector_matches(
    dev: &LoopProtocol,
    store: &FileStore,
    lba: int,
    sec: int,
    idx: int,
    out: Seq<u8>,
)
    requires
        dev.wf(),
        0 <= sec,
        0 <= lba,
        lba + sec < table_end(dev.table@),
        idx == item_index_for(dev.table@, lba + sec),
        0 <= idx < dev.table@.len(),
        out.len() == (sec + 1) * (SECTOR_SIZE as int),
        forall|j: int|
            0 <= j < sec * (SECTOR_SIZE as int) ==> out[j] == device_byte(
                dev,
                store,
                lba * (SECTOR_SIZE as int) + j,
            ),
        forall|b: int|
            0 <= b < (SECTOR_SIZE as int) ==> #[trigger] out[sec * (SECTOR_SIZE as int) + b]
                == target_byte(
                dev,
                store,
                dev.table@[idx],
                (lba + sec - dev.table@[idx].start_sector) * (SECTOR_SIZE as int) + b,
            ),
    ensures
        forall|j: int|
            0 <= j < (sec + 1) * (SECTOR_SIZE as int) ==> out[j] == device_byte(
                dev,
                store,
                lba * (SECTOR_SIZE as int) + j,
            ),
{
    assert forall|j: int|
        sec * (SECTOR_SIZE as int) <= j < (sec + 1) * (SECTOR_SIZE as int) implies out[j]
        == device_byte(dev, store, lba * (SECTOR_SIZE as int) + j) by {
        let b = j - sec * (SECTOR_SIZE as int);
        assert(out[sec * (SECTOR_SIZE as int) + b] == out[j]);
        let abs = lba * (SECTOR_SIZE as int) + j;
        assert(abs == (lba + sec) * (SECTOR_SIZE as int) + b) by (nonlinear_arith)
            requires
                b == j - sec * (SECTOR_SIZE as int),
                abs == lba * (SECTOR_SIZE as int) + j,
        ;
        assert(abs / (SECTOR_SIZE as int) == lba + sec) by (nonlinear_arith)
            requires
                abs == (lba + sec) * (SECTOR_SIZE as int) + b,
                0 <= b < (SECTOR_SIZE as int),
                0 <= lba + sec,
        ;
        let item = dev.table@[idx];
        assert(abs - item.start_sector * (SECTOR_SIZE as int) == (lba + sec - item.start_sector)
            * (SECTOR_SIZE as int) + b) by (nonlinear_arith)
            requires
                abs == (lba + sec) * (SECTOR_SIZE as int) + b,
        ;
        assert(out[j] == target_byte(
            dev,
            store,
            item,
            (lba + sec - item.start_sector) * (SECTOR_SIZE as int) + b,
        ));
    }
    assert((sec) * (SECTOR_SIZE as int) <= (sec + 1) * (SECTOR_SIZE as int));
}

/// The rolling facts of a write in progress, after `sec` sectors have been
/// placed: shapes and invariants are intact, nothing outside the touched
/// windows has changed, and (absent file aliasing) every placed byte reads
/// back through the device.
pub open spec fn write_inv(
    dev0: LoopProtocol,
    store0: FileStore,
    dev: LoopProtocol,
    store: FileStore,
    data: Seq<u8>,
    s0: int,
    s1: int,
    sec: int,
) -> bool {
    let t = dev0.table@;
    &&& dev.wf()
    &&& store.wf()
    &&& dev_same_shape(&dev, &dev0)
    &&& store_same_shape(&store, &store0)
    &&& range_files_ok(&dev, &store, s0, s1)
    &&& forall|p: int, k: int|
        0 <= p < dev0.pools@.len() && 0 <= k < dev0.pools@[p].data@.len() && !pool_byte_written(
            t,
            s0,
            s1,
            p,
            k,
        ) ==> #[trigger] dev.pools@[p].data@[k] == dev0.pools@[p].data@[k]
    &&& forall|d: int, f: int, k: int|
        0 <= d < store0.devices@.len() && 0 <= f < store0.devices@[d].files@.len() && 0 <= k
            < store0.devices@[d].files@[f].data@.len() && !file_byte_written(
            t,
            s0,
            s1,
            store0.devices@[d].handle,
            f,
            k,
        ) ==> #[trigger] store.devices@[d].files@[f].data@[k]
            == store0.devices@[d].files@[f].data@[k]
    &&& no_file_alias(t, s0, s1) ==> forall|j: int|
        0 <= j < sec * (SECTOR_SIZE as int) && !((#[trigger] t[item_index_for(
            t,
            s0 + j / (SECTOR_SIZE as int),
        )]).target is Zero) ==> device_byte(&dev, &store, s0 * (SECTOR_SIZE as int) + j) == data[j]
}

/// The fixed geometry of one write request.
pub open spec fn write_geo(
    dev0: LoopProtocol,
    store0: FileStore,
    data: Seq<u8>,
    s0: int,
    s1: int,
) -> bool {
    &&& dev0.wf()
    &&& store0.wf()
    &&& 0 <= s0
    &&& s1 == s0 + data.len() as int / (SECTOR_SIZE as int)
    &&& data.len() as int % (SECTOR_SIZE as int) == 0
    &&& data.len() as int == (s1 - s0) * (SECTOR_SIZE as int)
    &&& s1 <= table_end(dev0.table@)
}

/// Overwrite one sector's worth of a pool slot.
fn write_pool_sector(dev: &mut LoopProtocol, p: usize, base: usize, data: &Vec<u8>, src_base: usize)
    requires
        (p as int) < old(dev).pools@.len(),
        base + SECTOR_SIZE <= old(dev).pools@[p as int].data@.len(),
        src_base + SECTOR_SIZE <= data@.len(),
        base + SECTOR_SIZE <= usize::MAX,
        src_base + SECTOR_SIZE <= usize::MAX,
    ensures
        pool_sector_updated(*old(dev), *final(dev), p as int, base as int, data@, src_base as int),
{
    let mut b: usize = 0;
    while b < SECTOR_SIZE
        invariant
            b <= SECTOR_SIZE,
            (p as int) < dev.pools@.len(),
            base + SECTOR_SIZE <= dev.pools@[p as int].data@.len(),
            src_base + SECTOR_SIZE <= data@.len(),
            base + SECTOR_SIZE <= usize::MAX,
            src_base + SECTOR_SIZE <= usize::MAX,
            dev.pools@.len() == old(dev).pools@.len(),
            dev.device_id == old(dev).device_id,
            dev.unit_number == old(dev).unit_number,
            dev.media == old(dev).media,
            dev.table@ == old(dev).table@,
            forall|q: int|
                0 <= q < dev.pools@.len() && q != p ==> dev.pools@[q] == old(dev).pools@[q],
            dev.pools@[p as int].state == old(dev).pools@[p as int].state,
            dev.pools@[p as int].data@.len() == old(dev).pools@[p as int].data@.len(),
            forall|k: int|
                0 <= k < dev.pools@[p as int].data@.len() && !(base <= k < base + b)
                    ==> #[trigger] dev.pools@[p as int].data@[k]
                        == old(dev).pools@[p as int].data@[k],
            forall|k: int|
                base <= k < base + b ==> #[trigger] dev.pools@[p as int].data@[k] == data@[src_base
                    + (k - base)],
        decreases SECTOR_SIZE - b,
    {
        dev.pools[p].data[base + b] = data[src_base + b];
        b = b + 1;
    }
}

/// How `write_pool_sector` relates the two device states.
pub open spec fn pool_sector_updated(
    pre: LoopProtocol,
    post: LoopProtocol,
    p: int,
    base: int,
    data: Seq<u8>,
    src_base: int,
) -> bool {
    &&& post.device_id == pre.device_id
    &&& post.unit_number == pre.unit_number
    &&& post.media == pre.media
    &&& post.table@ == pre.table@
    &&& post.pools@.len() == pre.pools@.len()
    &&& forall|q: int| 0 <= q < post.pools@.len() && q != p ==> post.pools@[q] == pre.pools@[q]
    &&& post.pools@[p].state == pre.pools@[p].state
    &&& post.pools@[p].data@.len() == pre.pools@[p].data@.len()
    &&& forall|k: int|
        0 <= k < post.pools@[p].data@.len() && !(base <= k < base + (SECTOR_SIZE as int))
            ==> #[trigger] post.pools@[p].data@[k] == pre.pools@[p].data@[k]
    &&& forall|k: int|
        base <= k < base + (SECTOR_SIZE as int) ==> #[trigger] post.pools@[p].data@[k]
            == data[src_base + (k - base)]
}

/// Overwrite one sector's worth of an opened file.
fn write_file_sector(
    store: &mut FileStore,
    di: usize,
    fi: usize,
    base: usize,
    data: &Vec<u8>,
    src_base: usize,
)
    requires
        (di as int) < old(store).devices@.len(),
        (fi as int) < old(store).devices@[di as int].files@.len(),
        base + SECTOR_SIZE <= old(store).devices@[di as int].files@[fi as int].data@.len(),
        src_base + SECTOR_SIZE <= data@.len(),
        base + SECTOR_SIZE <= usize::MAX,
        src_base + SECTOR_SIZE <= usize::MAX,
    ensures
        file_sector_updated(
            *old(store),
            *final(store),
            di as int,
            fi as int,
            base as int,
            data@,
            src_base as int,
        ),
{
    let mut b: usize = 0;
    while b < SECTOR_SIZE
        invariant
            b <= SECTOR_SIZE,
            (di as int) < store.devices@.len(),
            (fi as int) < store.devices@[di as int].files@.len(),
            base + SECTOR_SIZE <= store.devices@[di as int].files@[fi as int].data@.len(),
            src_base + SECTOR_SIZE <= data@.len(),
            base + SECTOR_SIZE <= usize::MAX,
            src_base + SECTOR_SIZE <= usize::MAX,
            store.devices@.len() == old(store).devices@.len(),
            forall|d2: int|
                0 <= d2 < store.devices@.len() && d2 != di ==> store.devices@[d2] == old(
                    store,
                ).devices@[d2],
            store.devices@[di as int].handle == old(store).devices@[di as int].handle,
            store.devices@[di as int].interface == old(store).devices@[di as int].interface,
            store.devices@[di as int].files@.len() == old(
                store,
            ).devices@[di as int].files@.len(),
            forall|f2: int|
                0 <= f2 < store.devices@[di as int].files@.len() && f2 != fi
                    ==> store.devices@[di as int].files@[f2] == old(
                    store,
                ).devices@[di as int].files@[f2],
            store.devices@[di as int].files@[fi as int].path@ == old(
                store,
            ).devices@[di as int].files@[fi as int].path@,
            store.devices@[di as int].files@[fi as int].data@.len() == old(
                store,
            ).devices@[di as int].files@[fi as int].data@.len(),
            forall|k: int|
                0 <= k < store.devices@[di as int].files@[fi as int].data@.len() && !(base <= k
                    < base + b) ==> #[trigger] store.devices@[di as int].files@[fi as int].data@[k]
                    == old(store).devices@[di as int].files@[fi as int].data@[k],
            forall|k: int|
                base <= k < base + b
                    ==> #[trigger] store.devices@[di as int].files@[fi as int].data@[k]
                        == data@[src_base + (k - base)],
        decreases SECTOR_SIZE - b,
    {
        store.devices[di].files[fi].data[base + b] = data[src_base + b];
        b = b + 1;
    }
}

/// How `write_file_sector` relates the two store states.
pub open spec fn file_sector_updated(
    pre: FileStore,
    post: FileStore,
    di: int,
    fi: int,
    base: int,
    data: Seq<u8>,
    src_base: int,
) -> bool {
    &&& post.devices@.len() == pre.devices@.len()
    &&& forall|d2: int|
        0 <= d2 < post.devices@.len() && d2 != di ==> post.devices@[d2] == pre.devices@[d2]
    &&& post.devices@[di].handle == pre.devices@[di].handle
    &&& post.devices@[di].interface == pre.devices@[di].interface
    &&& post.devices@[di].files@.len() == pre.devices@[di].files@.len()
    &&& forall|f2: int|
        0 <= f2 < post.devices@[di].files@.len() && f2 != fi ==> post.devices@[di].files@[f2]
            == pre.devices@[di].files@[f2]
    &&& post.devices@[di].files@[fi].path@ == pre.devices@[di].files@[fi].path@
    &&& post.devices@[di].files@[fi].data@.len() == pre.devices@[di].files@[fi].data@.len()
    &&& forall|k: int|
        0 <= k < post.devices@[di].files@[fi].data@.len() && !(base <= k < base + (
        SECTOR_SIZE as int)) ==> #[trigger] post.devices@[di].files@[fi].data@[k]
            == pre.devices@[di].files@[fi].data@[k]
    &&& forall|k: int|
        base <= k < base + (SECTOR_SIZE as int) ==> #[trigger] post.devices@[di].files@[fi].data@[k]
            == data[src_base + (k - base)]
}

impl LoopProtocol {
    /// Write the caller's bytes over blocks starting at `lba`. Bytes landing
    /// on zero-fill segments are discarded with no effect; bytes landing on
    /// pool or file segments replace the target contents. Nothing outside
    /// the touched target windows changes, and when no two file segments of
    /// the request overlap in their backing file, the written range reads
    /// back exactly.
    pub fn write_blocks(
        &mut self,
        store: &mut FileStore,
        media_id: u32,
        lba: u64,
        data: &Vec<u8>,
    ) -> (r: Result<(), LoopError>)
        requires
            old(self).wf(),
            old(store).wf(),
        ensures
            final(self).wf(),
            final(store).wf(),
            dev_same_shape(final(self), old(self)),
            store_same_shape(final(store), old(store)),
            ({
                let s0 = lba as int;
                let s1 = lba + data@.len() as int / (SECTOR_SIZE as int);
                match blocks_error(old(self), old(store), media_id, lba as int, data@.len() as int, true) {
                    Some(e) => {
                        &&& r == Err::<(), LoopError>(e)
                        &&& final(self).pools@ == old(self).pools@
                        &&& final(store).devices@ == old(store).devices@
                    },
                    None => {
                        &&& r == Ok::<(), LoopError>(())
                        &&& write_inv(
                            *old(self),
                            *old(store),
                            *final(self),
                            *final(store),
                            data@,
                            s0,
                            s1,
                            s1 - s0,
                        )
                    },
                }
            }),
    {
        let ghost t = self.table@;
        let ghost s0 = lba as int;
        if !self.media.media_present {
            return Err(LoopError::NoMedia);
        }
        if media_id != self.media.media_id {
            return Err(LoopError::MediaChanged);
        }
        if data.len() % SECTOR_SIZE != 0 {
            return Err(LoopError::BadBufferSize);
        }
        if self.media.read_only {
            return Err(LoopError::WriteProtected);
        }
        let total_sectors = (data.len() / SECTOR_SIZE) as u64;
        if total_sectors > self.media.last_block || lba > self.media.last_block - total_sectors {
            return Err(LoopError::InvalidParameter);
        }
        proof {
            assert(table_end(self.table@) == self.media.last_block);
        }
        if !check_range_files(self, store, lba, lba + total_sectors) {
            return Err(LoopError::DeviceError);
        }
        let ghost s1 = lba + total_sectors as int;
        proof {
            assert(data@.len() as int == total_sectors * (SECTOR_SIZE as int))
                by (nonlinear_arith)
                requires
                    total_sectors == data@.len() as int / (SECTOR_SIZE as int),
                    data@.len() as int % (SECTOR_SIZE as int) == 0,
                    SECTOR_SIZE as int == 512,
            ;
        }
        let mut sec: u64 = 0;
        while sec < total_sectors
            invariant
                old(self).wf(),
                old(store).wf(),
                t == old(self).table@,
                s0 == lba as int,
                s1 == lba + total_sectors as int,
                sec <= total_sectors,
                write_geo(*old(self), *old(store), data@, s0, s1),
                write_inv(*old(self), *old(store), *self, *store, data@, s0, s1, sec as int),
                old(self).media.media_present,
                !old(self).media.read_only,
                self.media == old(self).media,
            decreases total_sectors - sec,
        {
            let ghost self_pre = *self;
            let ghost store_pre = *store;
            let s_abs = lba + sec;
            proof {
                assert(table_end(self.table@) == old(self).media.last_block);
            }
            let idx = find_item(&self.table, s_abs);
            let ghost item_g = self.table@[idx as int];
            proof {
                assert(self.target_wf(self.table@[idx as int]));
                assert(item_intersects(self.table@[idx as int], s0, s1));
                assert(file_seg_ok(store, self.table@[idx as int], s1));
                assert(SECTOR_SIZE as int == 512);
                assert(sec * (SECTOR_SIZE as int) + (SECTOR_SIZE as int) <= data@.len())
                    by (nonlinear_arith)
                    requires
                        sec < total_sectors,
                        data@.len() == total_sectors * (SECTOR_SIZE as int),
                        SECTOR_SIZE as int == 512,
                ;
            }
            let item_start = self.table[idx].start_sector;
            let item_tss = self.table[idx].target_start_sector;
            let off_sectors = s_abs - item_start;
            let dlen = data.len();
            proof {
                assert(sec * (SECTOR_SIZE as int) + (SECTOR_SIZE as int) <= dlen as int);
            }
            let src_base = (sec as usize) * SECTOR_SIZE;
            let which: usize = match &self.table[idx].target {
                PrivTarget::Zero => 0,
                PrivTarget::Pool { .. } => 1,
                PrivTarget::File { .. } => 2,
            };
            if which == 1 {
                let p = match &self.table[idx].target {
                    PrivTarget::Pool { index } => *index,
                    _ => 0,
                };
                proof {
                    assert(item_g.target_start_sector + off_sectors + 1
                        <= self.pools@[p as int].data@.len() as int / (SECTOR_SIZE as int));
                }
                let tsec = item_tss + off_sectors;
                proof {
                    lemma_sector_fit((tsec + 1) as int, self.pools@[p as int].data@.len() as int);
                    assert(tsec * (SECTOR_SIZE as int) + (SECTOR_SIZE as int)
                        <= self.pools@[p as int].data@.len()) by (nonlinear_arith)
                        requires
                            (tsec + 1) as int * (SECTOR_SIZE as int)
                                <= self.pools@[p as int].data@.len(),
                    ;
                }
                let plen = self.pools[p].data.len();
                proof {
                    assert(tsec * (SECTOR_SIZE as int) + (SECTOR_SIZE as int) <= plen as int);
                }
                let base = (tsec as usize) * SECTOR_SIZE;
                write_pool_sector(self, p, base, data, src_base);
                proof {
                    assert(self.table@ == t);
                    assert(base as int == (t[idx as int].target_start_sector + (s0 + sec
                        - t[idx as int].start_sector)) * (SECTOR_SIZE as int));
                    lemma_write_step_pool(
                        *old(self),
                        *old(store),
                        self_pre,
                        *self,
                        *store,
                        data@,
                        s0,
                        s1,
                        sec as int,
                        idx as int,
                        p as int,
                        base as int,
                    );
                }
            } else if which == 2 {
                let (fsdev, fi) = match &self.table[idx].target {
                    PrivTarget::File { fs_device, file_index, .. } => (*fs_device, *file_index),
                    _ => (0u64, 0usize),
                };
                let di = match store.find_device(fsdev) {
                    Some(di) => di,
                    None => {
                        proof {
                            assert(false);
                        }
                        return Err(LoopError::DeviceError);
                    },
                };
                proof {
                    assert(item_g.target_start_sector + off_sectors + 1
                        <= store.devices@[di as int].files@[fi as int].data@.len() as int / (
                    SECTOR_SIZE as int));
                }
                let tsec = item_tss + off_sectors;
                proof {
                    lemma_sector_fit(
                        (tsec + 1) as int,
                        store.devices@[di as int].files@[fi as int].data@.len() as int,
                    );
                    assert(tsec * (SECTOR_SIZE as int) + (SECTOR_SIZE as int)
                        <= store.devices@[di as int].files@[fi as int].data@.len())
                        by (nonlinear_arith)
                        requires
                            (tsec + 1) as int * (SECTOR_SIZE as int)
                                <= store.devices@[di as int].files@[fi as int].data@.len(),
                    ;
                }
                let flen = store.devices[di].files[fi].data.len();
                proof {
                    assert(tsec * (SECTOR_SIZE as int) + (SECTOR_SIZE as int) <= flen as int);
                }
                let base = (tsec as usize) * SECTOR_SIZE;
                write_file_sector(store, di, fi, base, data, src_base);
                proof {
                    assert(self.table@ == t);
                    assert(base as int == (t[idx as int].target_start_sector + (s0 + sec
                        - t[idx as int].start_sector)) * (SECTOR_SIZE as int));
                    lemma_write_step_file(
                        *old(self),
                        *old(store),
                        store_pre,
                        *self,
                        *store,
                        data@,
                        s0,
                        s1,
                        sec as int,
                        idx as int,
                        di as int,
                        fi as int,
                        base as int,
                    );
                }
            } else {
                proof {
                    lemma_write_step_zero(
                        *old(self),
                        *old(store),
                        *self,
                        *store,
                        data@,
                        s0,
                        s1,
                        sec as int,
                        idx as int,
                    );
                }
            }
            sec = sec + 1;
        }
        Ok(())
    }
}


/// Common geometry of the sector being placed: its item, window and bounds.
spec fn step_geo(
    dev0: LoopProtocol,
    data: Seq<u8>,
    s0: int,
    s1: int,
    sec: int,
    idx: int,
) -> bool {
    let t = dev0.table@;
    &&& 0 <= sec
    &&& s0 + sec < s1
    &&& 0 <= idx < t.len()
    &&& idx == item_index_for(t, s0 + sec)
    &&& t[idx].start_sector <= s0 + sec < t[idx].spec_end_sector()
}

/// Placing a sector on a zero-fill item changes nothing; the placed bytes
/// are excluded from the read-back clause.
proof fn lemma_write_step_zero(
    dev0: LoopProtocol,
    store0: FileStore,
    dev: LoopProtocol,
    store: FileStore,
    data: Seq<u8>,
    s0: int,
    s1: int,
    sec: int,
    idx: int,
)
    requires
        write_geo(dev0, store0, data, s0, s1),
        write_inv(dev0, store0, dev, store, data, s0, s1, sec),
        step_geo(dev0, data, s0, s1, sec, idx),
        dev0.table@[idx].target is Zero,
    ensures
        write_inv(dev0, store0, dev, store, data, s0, s1, sec + 1),
{
    let t = dev0.table@;
    assert(SECTOR_SIZE as int == 512);
    if no_file_alias(t, s0, s1) {
        assert forall|j: int|
            0 <= j < (sec + 1) * (SECTOR_SIZE as int) && !((#[trigger] t[item_index_for(
                t,
                s0 + j / (SECTOR_SIZE as int),
            )]).target is Zero) implies device_byte(&dev, &store, s0 * (SECTOR_SIZE as int) + j)
            == data[j] by {
            lemma_byte_decompose(j);
            let q = j / (SECTOR_SIZE as int);
            let bb = j % (SECTOR_SIZE as int);
            if j >= sec * (SECTOR_SIZE as int) {
                lemma_step_sector_eq(sec, q, bb, j);
                lemma_item_index_unique(t, s0 + q, idx);
                assert(false);
            }
        }
    }
}

/// If a byte's sector splits as `q` with remainder `bb` and the byte lies in
/// the sector being placed, then `q` is that sector.
proof fn lemma_step_sector_eq(sec: int, q: int, bb: int, j: int)
    requires
        j == q * (SECTOR_SIZE as int) + bb,
        0 <= bb < (SECTOR_SIZE as int),
        sec * (SECTOR_SIZE as int) <= j < (sec + 1) * (SECTOR_SIZE as int),
    ensures
        q == sec,
{
    assert(q == sec) by (nonlinear_arith)
        requires
            j == q * 512 + bb,
            0 <= bb < 512,
            sec * 512 <= j < (sec + 1) * 512,
            SECTOR_SIZE as int == 512,
    ;
}

/// The target window of `item` for the request contains the whole block of
/// any of its sectors inside the request.
proof fn lemma_window_contains(item: PrivMappingItem, s0: int, s1: int, sp: int, pos: int, bb: int)
    requires
        item.start_sector <= sp < item.spec_end_sector(),
        s0 <= sp < s1,
        0 <= bb < (SECTOR_SIZE as int),
        pos == (item.target_start_sector + (sp - item.start_sector)) * (SECTOR_SIZE as int) + bb,
    ensures
        win_lo(item, s0) <= pos < win_hi(item, s1),
{
    assert(seg_lo(item, s0) <= sp < seg_hi(item, s1));
    assert(win_lo(item, s0) <= pos < win_hi(item, s1)) by (nonlinear_arith)
        requires
            pos == (item.target_start_sector + (sp - item.start_sector)) * (SECTOR_SIZE as int)
                + bb,
            win_lo(item, s0) == item.target_start_sector * (SECTOR_SIZE as int) + (seg_lo(item, s0)
                - item.start_sector) * (SECTOR_SIZE as int),
            win_hi(item, s1) == item.target_start_sector * (SECTOR_SIZE as int) + (seg_hi(item, s1)
                - item.start_sector) * (SECTOR_SIZE as int),
            seg_lo(item, s0) <= sp < seg_hi(item, s1),
            0 <= bb < (SECTOR_SIZE as int),
    ;
}

/// Placing a sector on a pool item: the slot's window absorbs the bytes,
/// nothing else moves, and every placed byte reads back.
#[verifier::rlimit(100)]
#[verifier::spinoff_prover]
proof fn lemma_write_step_pool(
    dev0: LoopProtocol,
    store0: FileStore,
    pre: LoopProtocol,
    post: LoopProtocol,
    store: FileStore,
    data: Seq<u8>,
    s0: int,
    s1: int,
    sec: int,
    idx: int,
    p: int,
    base: int,
)
    requires
        write_geo(dev0, store0, data, s0, s1),
        write_inv(dev0, store0, pre, store, data, s0, s1, sec),
        step_geo(dev0, data, s0, s1, sec, idx),
        pre.table@ == dev0.table@,
        dev0.table@[idx].target matches PrivTarget::Pool { index } && index == p,
        base == (dev0.table@[idx].target_start_sector + (s0 + sec
            - dev0.table@[idx].start_sector)) * (SECTOR_SIZE as int),
        base + (SECTOR_SIZE as int) <= pre.pools@[p].data@.len(),
        0 <= p < pre.pools@.len(),
        pool_sector_updated(pre, post, p, base, data, sec * (SECTOR_SIZE as int)),
    ensures
        write_inv(dev0, store0, post, store, data, s0, s1, sec + 1),
{
    let t = dev0.table@;
    let item = t[idx];
    let snow = s0 + sec;
    assert(SECTOR_SIZE as int == 512);
    assert(dev_same_shape(&post, &dev0)) by {
        assert forall|q: int| 0 <= q < post.pools@.len() implies ((#[trigger] post.pools@[q]).state
            == pre.pools@[q].state && post.pools@[q].data@.len() == pre.pools@[q].data@.len()) by {
            if q != p {
                assert(post.pools@[q] == pre.pools@[q]);
            }
        }
    }
    lemma_shape_preserves_dev(&post, &pre, &store, &store, s0, s1);
    assert(item_intersects(item, s0, s1));
    assert forall|p2: int, k: int|
        0 <= p2 < dev0.pools@.len() && 0 <= k < dev0.pools@[p2].data@.len() && !pool_byte_written(
            t,
            s0,
            s1,
            p2,
            k,
        ) implies #[trigger] post.pools@[p2].data@[k] == dev0.pools@[p2].data@[k] by {
        if p2 == p && base <= k < base + (SECTOR_SIZE as int) {
            lemma_window_contains(item, s0, s1, snow, k, k - base);
            assert(pool_byte_written(t, s0, s1, p2, k));
        } else {
            if p2 == p {
                assert(post.pools@[p2].data@[k] == pre.pools@[p2].data@[k]);
            } else {
                assert(post.pools@[p2] == pre.pools@[p2]);
            }
            assert(pre.pools@[p2].data@[k] == dev0.pools@[p2].data@[k]);
        }
    }
    if no_file_alias(t, s0, s1) {
        assert forall|j: int|
            0 <= j < (sec + 1) * (SECTOR_SIZE as int) && !((#[trigger] t[item_index_for(
                t,
                s0 + j / (SECTOR_SIZE as int),
            )]).target is Zero) implies device_byte(&post, &store, s0 * (SECTOR_SIZE as int) + j)
            == data[j] by {
            lemma_byte_decompose(j);
            let q = j / (SECTOR_SIZE as int);
            let bb = j % (SECTOR_SIZE as int);
            let sp = s0 + q;
            lemma_abs_div(sp, bb);
            assert(s0 * (SECTOR_SIZE as int) + j == sp * (SECTOR_SIZE as int) + bb)
                by (nonlinear_arith)
                requires
                    j == q * (SECTOR_SIZE as int) + bb,
                    sp == s0 + q,
            ;
            assert(sp < table_end(t));
            lemma_item_index_for(t, sp);
            let ip = item_index_for(t, sp);
            let itp = t[ip];
            let pos = itp.target_start_sector * (SECTOR_SIZE as int) + (sp * (SECTOR_SIZE as int)
                + bb - itp.start_sector * (SECTOR_SIZE as int));
            assert(pos == (itp.target_start_sector + (sp - itp.start_sector)) * (SECTOR_SIZE as int)
                + bb) by (nonlinear_arith)
                requires
                    pos == itp.target_start_sector * (SECTOR_SIZE as int) + (sp * (
                    SECTOR_SIZE as int) + bb - itp.start_sector * (SECTOR_SIZE as int)),
            ;
            if j < sec * (SECTOR_SIZE as int) {
                assert(device_byte(&pre, &store, s0 * (SECTOR_SIZE as int) + j) == data[j]);
                assert(q < sec) by {
                    if q >= sec {
                        assert(j >= sec * (SECTOR_SIZE as int)) by (nonlinear_arith)
                            requires
                                q >= sec,
                                j == q * (SECTOR_SIZE as int) + bb,
                                0 <= bb,
                        ;
                    }
                }
                assert(sp != snow);
                match itp.target {
                    PrivTarget::Pool { index: pq } => {
                        if pq == p {
                            if ip != idx {
                                assert(false);
                            }
                            assert(pos < base || pos >= base + (SECTOR_SIZE as int))
                                by (nonlinear_arith)
                                requires
                                    pos == (itp.target_start_sector + (sp - itp.start_sector)) * (
                                    SECTOR_SIZE as int) + bb,
                                    base == (itp.target_start_sector + (snow - itp.start_sector))
                                        * (SECTOR_SIZE as int),
                                    sp != snow,
                                    0 <= bb < (SECTOR_SIZE as int),
                                    SECTOR_SIZE as int == 512,
                            ;
                            assert(post.pools@[pq as int].data@[pos]
                                == pre.pools@[pq as int].data@[pos]);
                        } else {
                            assert(post.pools@[pq as int] == pre.pools@[pq as int]);
                        }
                    },
                    _ => {},
                }
            } else {
                lemma_step_sector_eq(sec, q, bb, j);
                assert(sp == snow);
                lemma_item_index_unique(t, sp, idx);
                assert(ip == idx);
                assert(pos == base + bb);
                assert(post.pools@[p].data@[pos] == data[sec * (SECTOR_SIZE as int) + bb]);
                assert(sec * (SECTOR_SIZE as int) + bb == j);
            }
        }
    }
}

/// Placing a sector on a file item: the opened file's window absorbs the
/// bytes; without aliasing, earlier placed bytes stay intact.
#[verifier::rlimit(100)]
#[verifier::spinoff_prover]
proof fn lemma_write_step_file(
    dev0: LoopProtocol,
    store0: FileStore,
    store_pre: FileStore,
    dev: LoopProtocol,
    store_post: FileStore,
    data: Seq<u8>,
    s0: int,
    s1: int,
    sec: int,
    idx: int,
    di: int,
    fi: int,
    base: int,
)
    requires
        write_geo(dev0, store0, data, s0, s1),
        write_inv(dev0, store0, dev, store_pre, data, s0, s1, sec),
        step_geo(dev0, data, s0, s1, sec, idx),
        dev.table@ == dev0.table@,
        dev0.table@[idx].target matches PrivTarget::File { fs_device, file_index, .. }
            && store_pre.spec_device_index(fs_device) == Some(di) && file_index == fi,
        base == (dev0.table@[idx].target_start_sector + (s0 + sec
            - dev0.table@[idx].start_sector)) * (SECTOR_SIZE as int),
        0 <= di < store_pre.devices@.len(),
        0 <= fi < store_pre.devices@[di].files@.len(),
        base + (SECTOR_SIZE as int) <= store_pre.devices@[di].files@[fi].data@.len(),
        file_sector_updated(store_pre, store_post, di, fi, base, data, sec * (SECTOR_SIZE as int)),
    ensures
        write_inv(dev0, store0, dev, store_post, data, s0, s1, sec + 1),
{
    let t = dev0.table@;
    let item = t[idx];
    let snow = s0 + sec;
    let fsd = store_pre.devices@[di].handle;
    assert(SECTOR_SIZE as int == 512);
    assert(item.target matches PrivTarget::File { fs_device, .. } && fs_device == fsd) by {
        match item.target {
            PrivTarget::File { fs_device, .. } => {
                assert(store_pre.spec_device_index(fs_device) == Some(di));
                assert(store_pre.devices@[di].handle == fs_device);
            },
            _ => {},
        }
    }
    assert(store_same_shape(&store_post, &store_pre)) by {
        assert forall|d2: int| 0 <= d2 < store_post.devices@.len() implies {
            &&& (#[trigger] store_post.devices@[d2]).handle == store_pre.devices@[d2].handle
            &&& store_post.devices@[d2].interface == store_pre.devices@[d2].interface
            &&& store_post.devices@[d2].files@.len() == store_pre.devices@[d2].files@.len()
            &&& forall|f2: int|
                0 <= f2 < store_post.devices@[d2].files@.len() ==> (
                #[trigger] store_post.devices@[d2].files@[f2]).path@
                    == store_pre.devices@[d2].files@[f2].path@
                    && store_post.devices@[d2].files@[f2].data@.len()
                    == store_pre.devices@[d2].files@[f2].data@.len()
        } by {
            if d2 != di {
                assert(store_post.devices@[d2] == store_pre.devices@[d2]);
            } else {
                assert forall|f2: int|
                    0 <= f2 < store_post.devices@[d2].files@.len() implies (
                    #[trigger] store_post.devices@[d2].files@[f2]).path@
                    == store_pre.devices@[d2].files@[f2].path@
                    && store_post.devices@[d2].files@[f2].data@.len()
                    == store_pre.devices@[d2].files@[f2].data@.len() by {
                    if f2 != fi {
                        assert(store_post.devices@[d2].files@[f2]
                            == store_pre.devices@[d2].files@[f2]);
                    }
                }
            }
        }
    }
    lemma_shape_preserves_store_wf(&store_post, &store_pre);
    lemma_shape_preserves_dev(&dev, &dev, &store_post, &store_pre, s0, s1);
    assert(item_intersects(item, s0, s1));
    assert forall|d2: int, f2: int, k: int|
        0 <= d2 < store0.devices@.len() && 0 <= f2 < store0.devices@[d2].files@.len() && 0 <= k
            < store0.devices@[d2].files@[f2].data@.len() && !file_byte_written(
            t,
            s0,
            s1,
            store0.devices@[d2].handle,
            f2,
            k,
        ) implies #[trigger] store_post.devices@[d2].files@[f2].data@[k]
        == store0.devices@[d2].files@[f2].data@[k] by {
        if d2 == di && f2 == fi && base <= k < base + (SECTOR_SIZE as int) {
            lemma_window_contains(item, s0, s1, snow, k, k - base);
            assert(store0.devices@[d2].handle == fsd);
            assert(file_byte_written(t, s0, s1, fsd, f2, k));
        } else {
            if d2 == di && f2 == fi {
                assert(store_post.devices@[d2].files@[f2].data@[k]
                    == store_pre.devices@[d2].files@[f2].data@[k]);
            } else if d2 == di {
                assert(store_post.devices@[d2].files@[f2] == store_pre.devices@[d2].files@[f2]);
            } else {
                assert(store_post.devices@[d2] == store_pre.devices@[d2]);
            }
            assert(store_pre.devices@[d2].files@[f2].data@[k]
                == store0.devices@[d2].files@[f2].data@[k]);
        }
    }
    if no_file_alias(t, s0, s1) {
        assert forall|j: int|
            0 <= j < (sec + 1) * (SECTOR_SIZE as int) && !((#[trigger] t[item_index_for(
                t,
                s0 + j / (SECTOR_SIZE as int),
            )]).target is Zero) implies device_byte(&dev, &store_post, s0 * (SECTOR_SIZE as int)
            + j) == data[j] by {
            lemma_byte_decompose(j);
            let q = j / (SECTOR_SIZE as int);
            let bb = j % (SECTOR_SIZE as int);
            let sp = s0 + q;
            lemma_abs_div(sp, bb);
            assert(s0 * (SECTOR_SIZE as int) + j == sp * (SECTOR_SIZE as int) + bb)
                by (nonlinear_arith)
                requires
                    j == q * (SECTOR_SIZE as int) + bb,
                    sp == s0 + q,
            ;
            assert(sp < table_end(t));
            lemma_item_index_for(t, sp);
            let ip = item_index_for(t, sp);
            let itp = t[ip];
            let pos = itp.target_start_sector * (SECTOR_SIZE as int) + (sp * (SECTOR_SIZE as int)
                + bb - itp.start_sector * (SECTOR_SIZE as int));
            assert(pos == (itp.target_start_sector + (sp - itp.start_sector)) * (SECTOR_SIZE as int)
                + bb) by (nonlinear_arith)
                requires
                    pos == itp.target_start_sector * (SECTOR_SIZE as int) + (sp * (
                    SECTOR_SIZE as int) + bb - itp.start_sector * (SECTOR_SIZE as int)),
            ;
            if j < sec * (SECTOR_SIZE as int) {
                assert(device_byte(&dev, &store_pre, s0 * (SECTOR_SIZE as int) + j) == data[j]);
                assert(q < sec) by {
                    if q >= sec {
                        assert(j >= sec * (SECTOR_SIZE as int)) by (nonlinear_arith)
                            requires
                                q >= sec,
                                j == q * (SECTOR_SIZE as int) + bb,
                                0 <= bb,
                        ;
                    }
                }
                assert(sp != snow);
                match itp.target {
                    PrivTarget::File { fs_device: f2, file_index: x2, .. } => {
                        let dp = store_post.spec_device_index(f2);
                        lemma_same_shape_device_index(&store_post, &store_pre, f2);
                        if f2 == fsd && x2 == fi {
                            assert(store_pre.spec_device_index(f2) == Some(di));
                            assert(item_intersects(itp, s0, s1));
                            if ip == idx {
                                assert(pos < base || pos >= base + (SECTOR_SIZE as int))
                                    by (nonlinear_arith)
                                    requires
                                        pos == (itp.target_start_sector + (sp - itp.start_sector))
                                            * (SECTOR_SIZE as int) + bb,
                                        base == (itp.target_start_sector + (snow
                                            - itp.start_sector)) * (SECTOR_SIZE as int),
                                        sp != snow,
                                        0 <= bb < (SECTOR_SIZE as int),
                                        SECTOR_SIZE as int == 512,
                                ;
                            } else {
                                lemma_window_contains(itp, s0, s1, sp, pos, bb);
                                if ip < idx {
                                    assert(win_hi(itp, s1) <= win_lo(item, s0) || win_hi(item, s1)
                                        <= win_lo(itp, s0));
                                } else {
                                    assert(win_hi(item, s1) <= win_lo(itp, s0) || win_hi(itp, s1)
                                        <= win_lo(item, s0));
                                }
                                assert(win_lo(item, s0) <= base && base + (SECTOR_SIZE as int)
                                    <= win_hi(item, s1)) by {
                                    lemma_window_contains(item, s0, s1, snow, base, 0);
                                    lemma_window_contains(
                                        item,
                                        s0,
                                        s1,
                                        snow,
                                        base + (SECTOR_SIZE as int) - 1,
                                        (SECTOR_SIZE as int) - 1,
                                    );
                                }
                                assert(pos < base || pos >= base + (SECTOR_SIZE as int));
                            }
                            assert(store_post.devices@[di].files@[fi].data@[pos]
                                == store_pre.devices@[di].files@[fi].data@[pos]);
                        } else {
                            match dp {
                                Some(d3) => {
                                    if d3 == di {
                                        assert(store_pre.devices@[d3].handle == f2);
                                        assert(f2 == fsd);
                                        assert(x2 != fi);
                                        assert(store_post.devices@[d3].files@[x2 as int]
                                            == store_pre.devices@[d3].files@[x2 as int]);
                                    } else {
                                        assert(store_post.devices@[d3]
                                            == store_pre.devices@[d3]);
                                    }
                                },
                                None => {},
                            }
                        }
                    },
                    _ => {},
                }
            } else {
                lemma_step_sector_eq(sec, q, bb, j);
                assert(sp == snow);
                lemma_item_index_unique(t, sp, idx);
                assert(ip == idx);
                assert(pos == base + bb);
                match itp.target {
                    PrivTarget::File { fs_device: f2, .. } => {
                        assert(f2 == fsd);
                        lemma_same_shape_device_index(&store_post, &store_pre, f2);
                        assert(store_post.spec_device_index(f2) == Some(di));
                        assert(store_post.devices@[di].files@[fi].data@[pos] == data[sec * (
                        SECTOR_SIZE as int) + bb]);
                        assert(sec * (SECTOR_SIZE as int) + bb == j);
                    },
                    _ => {},
                }
            }
        }
    }
}


/// The cached filesystem device behind a file item still exposes the
/// interface snapshot taken at resolution time.
pub open spec fn file_handle_ok(store: &FileStore, item: PrivMappingItem) -> bool {
    match item.target {
        PrivTarget::File { fs_device, interface, .. } => match store.spec_device_index(fs_device) {
            Some(di) => store.devices@[di].interface == interface,
            None => false,
        },
        _ => true,
    }
}

/// Why a flush would fail: no media, or a file item whose filesystem
/// interface no longer matches its snapshot. Read-only media flushes
/// trivially.
pub open spec fn flush_error(dev: &LoopProtocol, store: &FileStore) -> Option<LoopError> {
    if !dev.media.media_present {
        Some(LoopError::NoMedia)
    } else if dev.media.read_only {
        None
    } else if exists|i: int|
        0 <= i < dev.table@.len() && !file_handle_ok(store, #[trigger] dev.table@[i]) {
        Some(LoopError::DeviceError)
    } else {
        None
    }
}

impl LoopProtocol {
    /// Flush the device: every file-backed item's filesystem interface is
    /// re-validated and its underlying file flushed. Read-only media has
    /// nothing to flush.
    pub fn flush_blocks(&self, store: &FileStore) -> (r: Result<(), LoopError>)
        requires
            self.wf(),
            store.wf(),
        ensures
            r == match flush_error(self, store) {
                Some(e) => Err::<(), LoopError>(e),
                None => Ok::<(), LoopError>(()),
            },
    {
        if !self.media.media_present {
            return Err(LoopError::NoMedia);
        }
        if self.media.read_only {
            return Ok(());
        }
        let mut i: usize = 0;
        while i < self.table.len()
            invariant
                self.wf(),
                store.wf(),
                self.media.media_present,
                !self.media.read_only,
                i <= self.table@.len(),
                forall|k: int|
                    0 <= k < i ==> file_handle_ok(store, #[trigger] self.table@[k]),
            decreases self.table@.len() - i,
        {
            match &self.table[i].target {
                PrivTarget::File { fs_device, interface, .. } => {
                    match store.find_device(*fs_device) {
                        None => {
                            return Err(LoopError::DeviceError);
                        },
                        Some(di) => {
                            if store.devices[di].interface != *interface {
                                return Err(LoopError::DeviceError);
                            }
                        },
                    }
                },
                _ => {},
            }
            i = i + 1;
        }
        Ok(())
    }
}


/// A byte offset below `total` sectors falls in a sector below `total`.
pub proof fn lemma_split_byte(j: int, total: int)
    requires
        0 <= j,
        j < total * (SECTOR_SIZE as int),
    ensures
        0 <= j / (SECTOR_SIZE as int) < total,
{
    assert(0 <= j / 512 < total) by (nonlinear_arith)
        requires
            0 <= j,
            j < total * 512,
            SECTOR_SIZE as int == 512,
    ;
}

} // verus!
