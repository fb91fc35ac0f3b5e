//! The per-unit loopback device: media descriptor, mapping table, name and
//! pool allocator.
//!
//! A device is Free while no media is present and Bound once a setter
//! installs a mapping table; `clear` returns it to Free. The media id is
//! bumped on every successful activation so cached readers invalidate.

use vstd::prelude::*;
use crate::SECTOR_SIZE;
use crate::mapping::{
    LoopMappingItem, LoopTarget, PrivMappingItem, PrivTarget, sort_items_by_start,
    spec_sort_by_start, table_contiguous, table_end,
};
use crate::pool::{PoolHandle, PoolSlot, PoolState};
use crate::status::LoopError;
use crate::store::{FileStore, spec_resolve, resolve_file};

verus! {

/// The block-I/O media descriptor exposed to consumers.
#[derive(Clone, Copy, PartialEq, Eq, Structural, Debug)]
pub struct BlockIoMedia {
    pub media_id: u32,
    pub removable_media: bool,
    pub media_present: bool,
    pub logical_partition: bool,
    pub read_only: bool,
    pub write_caching: bool,
    pub block_size: u32,
    pub io_align: u32,
    pub last_block: u64,
}

/// The media descriptor of a freshly created device: removable, absent,
/// read-only, fixed 512-byte blocks.
pub fn create_default_media() -> (r: BlockIoMedia)
    ensures
        r == default_media(),
{
    BlockIoMedia {
        media_id: 0,
        removable_media: true,
        media_present: false,
        logical_partition: false,
        read_only: true,
        write_caching: false,
        block_size: SECTOR_SIZE as u32,
        io_align: 0,
        last_block: 0,
    }
}

/// Specification form of the default media descriptor.
pub open spec fn default_media() -> BlockIoMedia {
    BlockIoMedia {
        media_id: 0,
        removable_media: true,
        media_present: false,
        logical_partition: false,
        read_only: true,
        write_caching: false,
        block_size: SECTOR_SIZE as u32,
        io_align: 0,
        last_block: 0,
    }
}

/// What `get_info` reports about a device.
#[derive(Clone, Copy, PartialEq, Eq, Structural, Debug, Default)]
pub struct LoopInfo {
    pub unit_number: u32,
}

/// One loopback device: its identity, media state, active mapping table and
/// the pools it owns.
pub struct LoopProtocol {
    /// Distinguishes this device from every other; pools carry it as their
    /// owner mark.
    pub device_id: u64,
    pub unit_number: u32,
    pub media: BlockIoMedia,
    pub table: Vec<PrivMappingItem>,
    pub pools: Vec<PoolSlot>,
}

impl LoopProtocol {
    /// One internal item's target is backed by enough space: an attached
    /// pool slot or a file at least `target_start + num` sectors long.
    pub open spec fn target_wf(&self, item: PrivMappingItem) -> bool {
        match item.target {
            PrivTarget::Zero => true,
            PrivTarget::Pool { index } => {
                &&& (index as int) < self.pools.len()
                &&& self.pools[index as int].state == PoolState::Attached
                &&& item.target_start_sector + item.num_sectors <= self.pools[index as int].data.len()
                    as int / (SECTOR_SIZE as int)
            },
            PrivTarget::File { file_size, .. } => item.target_start_sector + item.num_sectors
                <= file_size as int / (SECTOR_SIZE as int),
        }
    }

    /// No two table items share a pool slot.
    pub open spec fn table_pools_distinct(&self) -> bool {
        forall|i: int, j: int|
            0 <= i < j < self.table.len() ==> match (
                (#[trigger] self.table[i]).target,
                (#[trigger] self.table[j]).target,
            ) {
                (PrivTarget::Pool { index: a }, PrivTarget::Pool { index: b }) => a != b,
                _ => true,
            }
    }

    /// Device invariant: the table partitions `[0, last_block)` contiguously
    /// from 0 whenever media is present, every target is backed, pool slots
    /// are not shared, and the media descriptor agrees with the table.
    pub open spec fn wf(&self) -> bool {
        &&& table_contiguous(self.table@)
        &&& forall|i: int| 0 <= i < self.table.len() ==> self.target_wf(#[trigger] self.table@[i])
        &&& self.table_pools_distinct()
        &&& self.media.block_size == SECTOR_SIZE as u32
        &&& self.media.media_present ==> {
            &&& self.table.len() > 0
            &&& self.media.last_block == table_end(self.table@)
        }
        &&& !self.media.media_present ==> {
            &&& self.table.len() == 0
            &&& self.media.last_block == 0
        }
    }

    /// Free means no media present.
    pub open spec fn spec_is_free(&self) -> bool {
        !self.media.media_present
    }

    /// A device is free for reuse while its media is absent.
    pub fn is_free(&self) -> (r: bool)
        ensures
            r == self.spec_is_free(),
    {
        !self.media.media_present
    }

    /// Report the unit number.
    pub fn get_info(&self) -> (r: LoopInfo)
        ensures
            r.unit_number == self.unit_number,
    {
        LoopInfo { unit_number: self.unit_number }
    }

    /// Allocate a device-owned pool of `size` bytes and hand the caller its
    /// handle. Only a size whose header-prefixed layout cannot exist is
    /// refused.
    pub fn alloc_pool(&mut self, size: usize) -> (r: Result<PoolHandle, LoopError>)
        ensures
            match r {
                Ok(h) => {
                    &&& size <= usize::MAX - POOL_HEADER_SIZE
                    &&& h == (PoolHandle { owner: old(self).device_id, index: old(self).pools.len() })
                    &&& final(self).pools@.len() == old(self).pools@.len() + 1
                    &&& final(self).pools@.last().state == PoolState::CallerOwned
                    &&& final(self).pools@.last().data@ == Seq::new(size as nat, |i: int| 0u8)
                    &&& final(self).pools@.subrange(0, old(self).pools@.len() as int) == old(self).pools@
                    &&& final(self).same_but_pools(*old(self))
                },
                Err(e) => {
                    &&& e == LoopError::InvalidParameter
                    &&& size > usize::MAX - POOL_HEADER_SIZE
                    &&& unchanged(final(self), old(self))
                },
            },
    {
        if size > usize::MAX - POOL_HEADER_SIZE {
            return Err(LoopError::InvalidParameter);
        }
        let data: Vec<u8> = vec![0u8; size];
        let h = PoolHandle { owner: self.device_id, index: self.pools.len() };
        self.pools.push(PoolSlot { data, state: PoolState::CallerOwned });
        proof {
            assert(self.pools@.subrange(0, old(self).pools@.len() as int) =~= old(self).pools@);
        }
        Ok(h)
    }

    /// Everything but the pool list agrees between the two states.
    pub open spec fn same_but_pools(&self, o: LoopProtocol) -> bool {
        &&& self.device_id == o.device_id
        &&& self.unit_number == o.unit_number
        &&& self.media == o.media
        &&& self.table@ == o.table@
    }

    /// Release a pool previously handed out by this device. A handle owned
    /// by another device, a dangling handle, or one already embedded in a
    /// mapping table is rejected without touching anything.
    pub fn free_pool(&mut self, h: PoolHandle) -> (r: Result<(), LoopError>)
        ensures
            match r {
                Ok(()) => {
                    &&& pool_caller_owned(old(self), h)
                    &&& final(self).pools@ == old(self).pools@.update(
                        h.index as int,
                        PoolSlot {
                            data: old(self).pools@[h.index as int].data,
                            state: PoolState::Freed,
                        },
                    )
                    &&& final(self).same_but_pools(*old(self))
                },
                Err(e) => {
                    &&& e == LoopError::InvalidParameter
                    &&& !pool_caller_owned(old(self), h)
                    &&& unchanged(final(self), old(self))
                },
            },
    {
        if h.owner != self.device_id {
            return Err(LoopError::InvalidParameter);
        }
        if h.index >= self.pools.len() {
            return Err(LoopError::InvalidParameter);
        }
        let owned = match self.pools[h.index].state {
            PoolState::CallerOwned => true,
            _ => false,
        };
        if !owned {
            return Err(LoopError::InvalidParameter);
        }
        self.pools[h.index].state = PoolState::Freed;
        Ok(())
    }

    /// Write caller-supplied bytes into a caller-owned pool.
    pub fn pool_write(&mut self, h: PoolHandle, offset: usize, bytes: &Vec<u8>) -> (r: Result<
        (),
        LoopError,
    >)
        ensures
            match r {
                Ok(()) => {
                    &&& pool_caller_owned(old(self), h)
                    &&& offset + bytes@.len() <= old(self).pools@[h.index as int].data@.len()
                    &&& final(self).pools@.len() == old(self).pools@.len()
                    &&& forall|p: int|
                        0 <= p < final(self).pools@.len() && p != h.index ==> final(self).pools@[p] == old(self).pools@[p]
                    &&& final(self).pools@[h.index as int].state == PoolState::CallerOwned
                    &&& final(self).pools@[h.index as int].data@.len() == old(self).pools@[h.index as int].data@.len()
                    &&& forall|k: int|
                        0 <= k < final(self).pools@[h.index as int].data@.len() ==> final(self).pools@[h.index as int].data@[k] == if offset <= k < offset
                            + bytes@.len() {
                            bytes@[k - offset]
                        } else {
                            old(self).pools@[h.index as int].data@[k]
                        }
                    &&& final(self).same_but_pools(*old(self))
                },
                Err(e) => {
                    &&& e == LoopError::InvalidParameter
                    &&& !(pool_caller_owned(old(self), h) && offset + bytes@.len() <= old(self).pools@[h.index as int].data@.len())
                    &&& unchanged(final(self), old(self))
                },
            },
    {
        if h.owner != self.device_id {
            return Err(LoopError::InvalidParameter);
        }
        if h.index >= self.pools.len() {
            return Err(LoopError::InvalidParameter);
        }
        let owned = match self.pools[h.index].state {
            PoolState::CallerOwned => true,
            _ => false,
        };
        if !owned {
            return Err(LoopError::InvalidParameter);
        }
        if offset > self.pools[h.index].data.len() || bytes.len() > self.pools[h.index].data.len()
            - offset {
            return Err(LoopError::InvalidParameter);
        }
        let mut k: usize = 0;
        while k < bytes.len()
            invariant
                k <= bytes@.len(),
                (h.index as int) < self.pools@.len(),
                self.pools@.len() == old(self).pools@.len(),
                offset + bytes@.len() <= self.pools@[h.index as int].data@.len(),
                offset + bytes@.len() <= usize::MAX,
                self.pools@[h.index as int].state == PoolState::CallerOwned,
                self.pools@[h.index as int].data@.len() == old(self).pools@[h.index as int].data@.len(),
                forall|p: int|
                    0 <= p < self.pools@.len() && p != h.index ==> self.pools@[p] == old(self).pools@[p],
                self.same_but_pools(*old(self)),
                forall|j: int|
                    0 <= j < self.pools@[h.index as int].data@.len()
                        ==> self.pools@[h.index as int].data@[j] == if offset <= j < offset + k {
                        bytes@[j - offset]
                    } else {
                        old(self).pools@[h.index as int].data@[j]
                    },
            decreases bytes@.len() - k,
        {
            self.pools[h.index].data[offset + k] = bytes[k];
            k = k + 1;
        }
        Ok(())
    }

    /// Read bytes back out of a caller-owned pool.
    pub fn pool_read(&self, h: PoolHandle, offset: usize, len: usize) -> (r: Result<
        Vec<u8>,
        LoopError,
    >)
        ensures
            match r {
                Ok(d) => {
                    &&& pool_caller_owned(self, h)
                    &&& offset + len <= self.pools@[h.index as int].data@.len()
                    &&& d@ == self.pools@[h.index as int].data@.subrange(
                        offset as int,
                        offset + len,
                    )
                },
                Err(e) => {
                    &&& e == LoopError::InvalidParameter
                    &&& !(pool_caller_owned(self, h) && offset + len <= self.pools@[h.index as int].data@.len())
                },
            },
    {
        if h.owner != self.device_id {
            return Err(LoopError::InvalidParameter);
        }
        if h.index >= self.pools.len() {
            return Err(LoopError::InvalidParameter);
        }
        let owned = match self.pools[h.index].state {
            PoolState::CallerOwned => true,
            _ => false,
        };
        if !owned {
            return Err(LoopError::InvalidParameter);
        }
        let slot = &self.pools[h.index];
        if offset > slot.data.len() || len > slot.data.len() - offset {
            return Err(LoopError::InvalidParameter);
        }
        let mut d: Vec<u8> = Vec::new();
        let mut k: usize = 0;
        while k < len
            invariant
                k <= len,
                offset + len <= slot.data@.len(),
                offset + len <= usize::MAX,
                (h.index as int) < self.pools@.len(),
                slot == self.pools@[h.index as int],
                d@.len() == k,
                forall|j: int| 0 <= j < k ==> d@[j] == slot.data@[offset + j],
            decreases len - k,
        {
            d.push(slot.data[offset + k]);
            k = k + 1;
        }
        proof {
            assert(d@ =~= self.pools@[h.index as int].data@.subrange(offset as int, offset + len));
        }
        Ok(d)
    }
}

/// The handle names a slot of this device still owned by the caller.
pub open spec fn pool_caller_owned(dev: &LoopProtocol, h: PoolHandle) -> bool {
    &&& h.owner == dev.device_id
    &&& (h.index as int) < dev.pools@.len()
    &&& dev.pools@[h.index as int].state == PoolState::CallerOwned
}

/// The two device states are identical.
pub open spec fn unchanged(a: &LoopProtocol, b: &LoopProtocol) -> bool {
    &&& a.device_id == b.device_id
    &&& a.unit_number == b.unit_number
    &&& a.media == b.media
    &&& a.table@ == b.table@
    &&& a.pools@ == b.pools@
}

/// Bytes of the self-describing header that precedes each pool payload in
/// the driver's allocation convention: an owner pointer and a size word,
/// 8-byte aligned.
pub const POOL_HEADER_SIZE: usize = 16;

/// The media id announced after an activation: one past the previous id,
/// wrapping at the 32-bit boundary.
pub open spec fn next_media_id(id: u32) -> u32 {
    if id == u32::MAX {
        0
    } else {
        (id + 1) as u32
    }
}

/// Why one caller-supplied item would be rejected, if at all, against the
/// given pool and store state.
pub open spec fn item_error(
    device_id: u64,
    pools: Seq<PoolSlot>,
    store: FileStore,
    item: LoopMappingItem,
) -> Option<LoopError> {
    match item.target {
        LoopTarget::Zero => None,
        LoopTarget::LoopPool { buffer } => {
            if buffer.owner != device_id || buffer.index as int >= pools.len()
                || pools[buffer.index as int].state != PoolState::CallerOwned {
                Some(LoopError::InvalidParameter)
            } else if item.target_start_sector + item.num_sectors > pools[buffer.index as int].data.len()
                as int / (SECTOR_SIZE as int) {
                Some(LoopError::InvalidParameter)
            } else {
                None
            }
        },
        LoopTarget::File { fs_device, path } => match spec_resolve(store, fs_device, path@) {
            None => Some(LoopError::NotFound),
            Some(r) => if item.target_start_sector + item.num_sectors > r.file_size as int / (
            SECTOR_SIZE as int) {
                Some(LoopError::InvalidParameter)
            } else {
                None
            },
        },
    }
}

/// Ownership of a consumable pool named by the item passes to the device:
/// the slot leaves the caller's hands whatever else happens.
pub open spec fn consume_pool(
    pools: Seq<PoolSlot>,
    device_id: u64,
    item: LoopMappingItem,
) -> Seq<PoolSlot> {
    match item.target {
        LoopTarget::LoopPool { buffer } => {
            if buffer.owner == device_id && (buffer.index as int) < pools.len()
                && pools[buffer.index as int].state == PoolState::CallerOwned {
                pools.update(
                    buffer.index as int,
                    PoolSlot { data: pools[buffer.index as int].data, state: PoolState::Freed },
                )
            } else {
                pools
            }
        },
        _ => pools,
    }
}

/// Pool state after consuming every item of `s` in order.
pub open spec fn consume_all(
    pools: Seq<PoolSlot>,
    device_id: u64,
    s: Seq<LoopMappingItem>,
) -> Seq<PoolSlot>
    decreases s.len(),
{
    if s.len() == 0 {
        pools
    } else {
        consume_pool(consume_all(pools, device_id, s.drop_last()), device_id, s.last())
    }
}

/// Some item of `s` names pool slot `p` of this device.
pub open spec fn supplied_pool(s: Seq<LoopMappingItem>, device_id: u64, p: int) -> bool {
    exists|i: int|
        0 <= i < s.len() && match (#[trigger] s[i]).target {
            LoopTarget::LoopPool { buffer } => buffer.owner == device_id && buffer.index == p,
            _ => false,
        }
}

/// Some item of the internal table uses pool slot `p`.
pub open spec fn table_refs_pool(t: Seq<PrivMappingItem>, p: int) -> bool {
    exists|i: int|
        0 <= i < t.len() && match (#[trigger] t[i]).target {
            PrivTarget::Pool { index } => index == p,
            _ => false,
        }
}

/// Consuming a sequence of items turns exactly the supplied, caller-owned
/// slots to Freed and touches nothing else.
pub proof fn lemma_consume_all_pointwise(
    pools: Seq<PoolSlot>,
    device_id: u64,
    s: Seq<LoopMappingItem>,
)
    ensures
        consume_all(pools, device_id, s).len() == pools.len(),
        forall|p: int|
            0 <= p < pools.len() ==> (#[trigger] consume_all(pools, device_id, s)[p]).data
                == pools[p].data,
        forall|p: int|
            0 <= p < pools.len() ==> (#[trigger] consume_all(pools, device_id, s)[p]).state == if (
            supplied_pool(s, device_id, p) && pools[p].state == PoolState::CallerOwned) {
                PoolState::Freed
            } else {
                pools[p].state
            },
    decreases s.len(),
{
    if s.len() > 0 {
        let dl = s.drop_last();
        lemma_consume_all_pointwise(pools, device_id, dl);
        let mid = consume_all(pools, device_id, dl);
        assert forall|p: int| 0 <= p < pools.len() implies (#[trigger] consume_all(
            pools,
            device_id,
            s,
        )[p]).state == if (supplied_pool(s, device_id, p) && pools[p].state
            == PoolState::CallerOwned) {
            PoolState::Freed
        } else {
            pools[p].state
        } by {
            let fin = consume_pool(mid, device_id, s.last());
            if supplied_pool(dl, device_id, p) {
                assert(supplied_pool(s, device_id, p)) by {
                    let w = choose|i: int|
                        0 <= i < dl.len() && match (#[trigger] dl[i]).target {
                            LoopTarget::LoopPool { buffer } => buffer.owner == device_id
                                && buffer.index == p,
                            _ => false,
                        };
                    assert(s[w] == dl[w]);
                }
            }
            if !supplied_pool(s, device_id, p) {
                assert(!supplied_pool(dl, device_id, p));
                match s.last().target {
                    LoopTarget::LoopPool { buffer } => {
                        assert(s[s.len() - 1] == s.last());
                        assert(!(buffer.owner == device_id && buffer.index == p));
                    },
                    _ => {},
                }
            } else {
                let w = choose|i: int|
                    0 <= i < s.len() && match (#[trigger] s[i]).target {
                        LoopTarget::LoopPool { buffer } => buffer.owner == device_id
                            && buffer.index == p,
                        _ => false,
                    };
                if w < s.len() - 1 {
                    assert(dl[w] == s[w]);
                    assert(supplied_pool(dl, device_id, p));
                }
            }
        }
    }
}

/// Full validation scan over the sorted items, threading the pool state:
/// the first rejection wins; zero-length items are dropped but still consume
/// their pools; survivors must tile contiguously from sector 0; an empty
/// effective table is rejected. On success the total sector count results.
pub open spec fn scan_items(
    device_id: u64,
    pools: Seq<PoolSlot>,
    store: FileStore,
    s: Seq<LoopMappingItem>,
    k: int,
    prev_end: int,
) -> Result<int, LoopError>
    decreases s.len() - k,
{
    if k < 0 || k >= s.len() {
        if prev_end == 0 {
            Err(LoopError::InvalidParameter)
        } else {
            Ok(prev_end)
        }
    } else {
        match item_error(device_id, pools, store, s[k]) {
            Some(e) => Err(e),
            None => {
                let pools2 = consume_pool(pools, device_id, s[k]);
                if s[k].num_sectors == 0 {
                    scan_items(device_id, pools2, store, s, k + 1, prev_end)
                } else if s[k].start_sector != prev_end {
                    Err(LoopError::InvalidParameter)
                } else if s[k].start_sector + s[k].num_sectors > u64::MAX {
                    Err(LoopError::InvalidParameter)
                } else {
                    scan_items(
                        device_id,
                        pools2,
                        store,
                        s,
                        k + 1,
                        s[k].start_sector + s[k].num_sectors,
                    )
                }
            },
        }
    }
}

/// The sorted caller-supplied items either produce a total sector count or
/// the error the device reports.
pub open spec fn table_scan(
    device_id: u64,
    pools: Seq<PoolSlot>,
    store: FileStore,
    items: Seq<LoopMappingItem>,
) -> Result<int, LoopError> {
    scan_items(device_id, pools, store, spec_sort_by_start(items), 0, 0)
}

/// The caller-visible items that survive the zero-length drop.
pub open spec fn nonzero_items(s: Seq<LoopMappingItem>) -> Seq<LoopMappingItem> {
    s.filter(|it: LoopMappingItem| it.num_sectors > 0)
}

impl LoopProtocol {
    /// Drop the mapping table, mark the media absent and zero-length, and
    /// release every pool the table owned. Readers fail with `NO_MEDIA`
    /// until the next successful setter.
    pub fn clear(&mut self)
        requires
            old(self).wf(),
        ensures
            final(self).wf(),
            final(self).spec_is_free(),
            final(self).device_id == old(self).device_id,
            final(self).unit_number == old(self).unit_number,
            final(self).table@.len() == 0,
            final(self).media == (BlockIoMedia {
                media_present: false,
                last_block: 0,
                ..old(self).media
            }),
            final(self).pools@.len() == old(self).pools@.len(),
            forall|p: int|
                0 <= p < old(self).pools@.len() ==> (#[trigger] final(self).pools@[p]).data == old(
                    self,
                ).pools@[p].data,
            forall|p: int|
                0 <= p < old(self).pools@.len() ==> (#[trigger] final(self).pools@[p]).state
                    == if table_refs_pool(old(self).table@, p) {
                    PoolState::Freed
                } else {
                    old(self).pools@[p].state
                },
    {
        let ghost pools0 = self.pools@;
        let ghost table0 = self.table@;
        let mut k: usize = 0;
        while k < self.table.len()
            invariant
                k <= self.table@.len(),
                self.table@ == table0,
                self.device_id == old(self).device_id,
                self.unit_number == old(self).unit_number,
                self.media == old(self).media,
                self.pools@.len() == pools0.len(),
                forall|i: int| 0 <= i < table0.len() ==> old(self).target_wf(#[trigger] table0[i]),
                forall|p: int|
                    0 <= p < pools0.len() ==> (#[trigger] self.pools@[p]).data == pools0[p].data,
                forall|p: int|
                    0 <= p < pools0.len() ==> (#[trigger] self.pools@[p]).state
                        == if table_refs_pool(table0.subrange(0, k as int), p) {
                        PoolState::Freed
                    } else {
                        pools0[p].state
                    },
            decreases self.table@.len() - k,
        {
            let ghost pools_pre = self.pools@;
            let idx_opt: Option<usize> = match &self.table[k].target {
                PrivTarget::Pool { index } => Some(*index),
                _ => None,
            };
            proof {
                assert(old(self).target_wf(table0[k as int]));
            }
            if let Some(idx) = idx_opt {
                if idx < self.pools.len() {
                    self.pools[idx].state = PoolState::Freed;
                }
            }
            proof {
                let pre = table0.subrange(0, k as int);
                let now = table0.subrange(0, (k + 1) as int);
                assert(now.drop_last() =~= pre);
                assert(now[k as int] == table0[k as int]);
                assert(forall|i: int| 0 <= i < k ==> now[i] == pre[i]);
                assert forall|p: int| 0 <= p < pools0.len() implies (
                #[trigger] self.pools@[p]).state == if table_refs_pool(now, p) {
                    PoolState::Freed
                } else {
                    pools0[p].state
                } by {
                    let hit = match table0[k as int].target {
                        PrivTarget::Pool { index } => idx_opt == Some(index) && index == p,
                        _ => false,
                    };
                    if hit {
                        // the slot just marked
                        assert(table_refs_pool(now, p));
                        assert(self.pools@[p].state == PoolState::Freed);
                    } else {
                        assert(self.pools@[p].state == pools_pre[p].state);
                        if table_refs_pool(now, p) {
                            let w = choose|i: int|
                                0 <= i < now.len() && match (#[trigger] now[i]).target {
                                    PrivTarget::Pool { index } => index == p,
                                    _ => false,
                                };
                            assert(w == k || table_refs_pool(pre, p));
                            assert(table_refs_pool(pre, p));
                        } else {
                            assert(!table_refs_pool(pre, p)) by {
                                if table_refs_pool(pre, p) {
                                    let w = choose|i: int|
                                        0 <= i < pre.len() && match (#[trigger] pre[i]).target {
                                            PrivTarget::Pool { index } => index == p,
                                            _ => false,
                                        };
                                    assert(now[w] == pre[w]);
                                }
                            }
                        }
                    }
                }
            }
            k = k + 1;
        }
        self.table = Vec::new();
        self.media.media_present = false;
        self.media.last_block = 0;
        proof {
            assert(table0.subrange(0, table0.len() as int) =~= table0);
        }
    }

    /// Back a device with the whole-sector prefix of one file: synthesize a
    /// single-item table covering `floor(size / 512)` sectors and activate
    /// the media. A trailing partial sector is invisible.
    pub fn set_file(
        &mut self,
        store: &FileStore,
        read_only: bool,
        is_partition: bool,
        fs_device: u64,
        path: &Vec<u16>,
    ) -> (r: Result<(), LoopError>)
        requires
            old(self).wf(),
            store.wf(),
        ensures
            final(self).wf(),
            final(self).device_id == old(self).device_id,
            final(self).unit_number == old(self).unit_number,
            match spec_resolve(*store, fs_device, path@) {
                None => r == Err::<(), LoopError>(LoopError::NotFound) && unchanged(
                    final(self),
                    old(self),
                ),
                Some(res) => {
                    &&& r == Ok::<(), LoopError>(())
                    &&& final(self).media == (BlockIoMedia {
                        media_id: next_media_id(old(self).media.media_id),
                        media_present: true,
                        logical_partition: is_partition,
                        read_only: read_only,
                        last_block: (res.file_size / (SECTOR_SIZE as u64)) as u64,
                        ..old(self).media
                    })
                    &&& final(self).table@.len() == 1
                    &&& final(self).table@[0].start_sector == 0
                    &&& final(self).table@[0].num_sectors == res.file_size / (SECTOR_SIZE as u64)
                    &&& final(self).table@[0].target_start_sector == 0
                    &&& match final(self).table@[0].target {
                        PrivTarget::File {
                            fs_device: fd,
                            path: p,
                            file_index: fi,
                            interface: itf,
                            file_size: fsz,
                        } => fd == res.fs_device && p@ == path@ && fi == res.file_index && itf
                            == res.interface && fsz == res.file_size,
                        _ => false,
                    }
                    &&& final(self).pools@.len() == old(self).pools@.len()
                    &&& forall|p: int|
                        0 <= p < old(self).pools@.len() ==> (#[trigger] final(self).pools@[p]).data
                            == old(self).pools@[p].data
                    &&& forall|p: int|
                        0 <= p < old(self).pools@.len() ==> (#[trigger] final(self).pools@[p]).state
                            == if table_refs_pool(old(self).table@, p) {
                            PoolState::Freed
                        } else {
                            old(self).pools@[p].state
                        }
                },
            },
    {
        let resolved = match resolve_file(store, fs_device, path) {
            Err(e) => {
                return Err(e);
            },
            Ok(res) => res,
        };
        let num_sectors = resolved.file_size / (SECTOR_SIZE as u64);
        let item = PrivMappingItem {
            start_sector: 0,
            num_sectors,
            target: PrivTarget::File {
                fs_device: resolved.fs_device,
                path: crate::store::copy_u16_vec(path),
                file_index: resolved.file_index,
                interface: resolved.interface,
                file_size: resolved.file_size,
            },
            target_start_sector: 0,
        };
        self.clear();
        let mut table: Vec<PrivMappingItem> = Vec::new();
        table.push(item);
        self.table = table;
        self.media.read_only = read_only;
        self.media.logical_partition = is_partition;
        self.media.last_block = num_sectors;
        self.media.media_id = bump_media_id(self.media.media_id);
        self.media.media_present = true;
        Ok(())
    }
}

/// The internal item's target fits its backing, measured against the pool
/// state the call began with.
pub open spec fn priv_item_backed(pools0: Seq<PoolSlot>, it: PrivMappingItem) -> bool {
    match it.target {
        PrivTarget::Zero => true,
        PrivTarget::Pool { index } => {
            &&& (index as int) < pools0.len()
            &&& pools0[index as int].state == PoolState::CallerOwned
            &&& it.target_start_sector + it.num_sectors <= pools0[index as int].data.len() as int
                / (SECTOR_SIZE as int)
        },
        PrivTarget::File { file_size, .. } => it.target_start_sector + it.num_sectors <= file_size
            as int / (SECTOR_SIZE as int),
    }
}

impl LoopProtocol {
    /// Install a caller-supplied mapping table: sort by start sector,
    /// materialize each item against the store, drop zero-length items,
    /// demand a contiguous tiling from sector 0, and activate the media.
    ///
    /// Ownership of every pool named in `items` transfers to the device at
    /// the call boundary whatever the outcome: on success the surviving
    /// pools back the table and the rest are released; on failure all of
    /// them are released and the device is otherwise untouched.
    pub fn set_mapping_table(
        &mut self,
        store: &FileStore,
        read_only: bool,
        is_partition: bool,
        items: Vec<LoopMappingItem>,
    ) -> (r: Result<(), LoopError>)
        requires
            old(self).wf(),
            store.wf(),
        ensures
            final(self).wf(),
            final(self).device_id == old(self).device_id,
            final(self).unit_number == old(self).unit_number,
            final(self).pools@.len() == old(self).pools@.len(),
            forall|p: int|
                0 <= p < old(self).pools@.len() ==> (#[trigger] final(self).pools@[p]).data == old(
                    self,
                ).pools@[p].data,
            ({
                let sorted = spec_sort_by_start(items@);
                let scan = scan_items(old(self).device_id, old(self).pools@, *store, sorted, 0, 0);
                match r {
                    Ok(()) => {
                        &&& scan is Ok
                        &&& scan matches Ok(total) && final(self).media == (BlockIoMedia {
                            media_id: next_media_id(old(self).media.media_id),
                            media_present: true,
                            logical_partition: is_partition,
                            read_only: read_only,
                            last_block: total as u64,
                            ..old(self).media
                        })
                        &&& final(self).table@.len() == nonzero_items(sorted).len()
                        &&& forall|k: int|
                            0 <= k < final(self).table@.len() ==> materializes(
                                *store,
                                nonzero_items(sorted)[k],
                                #[trigger] final(self).table@[k],
                            )
                        &&& forall|p: int|
                            0 <= p < old(self).pools@.len() ==> (
                            #[trigger] final(self).pools@[p]).state == if table_refs_pool(
                                final(self).table@,
                                p,
                            ) {
                                PoolState::Attached
                            } else if supplied_pool(sorted, old(self).device_id, p) && old(
                                self,
                            ).pools@[p].state == PoolState::CallerOwned {
                                PoolState::Freed
                            } else if table_refs_pool(old(self).table@, p) {
                                PoolState::Freed
                            } else {
                                old(self).pools@[p].state
                            }
                    },
                    Err(e) => {
                        &&& scan == Err::<int, LoopError>(e)
                        &&& final(self).media == old(self).media
                        &&& final(self).table@ == old(self).table@
                        &&& forall|p: int|
                            0 <= p < old(self).pools@.len() ==> (
                            #[trigger] final(self).pools@[p]).state == if supplied_pool(
                                sorted,
                                old(self).device_id,
                                p,
                            ) && old(self).pools@[p].state == PoolState::CallerOwned {
                                PoolState::Freed
                            } else {
                                old(self).pools@[p].state
                            }
                    },
                }
            }),
    {
        let ghost pools0 = self.pools@;
        let ghost table0 = self.table@;
        let ghost id = self.device_id;
        let mut items = items;
        sort_items_by_start(&mut items);
        let ghost sorted = items@;
        let ghost scan_full = scan_items(id, pools0, *store, sorted, 0, 0);

        let mut priv_table: Vec<PrivMappingItem> = Vec::new();
        let mut err: Option<LoopError> = None;
        let mut prev_end: u64 = 0;
        let mut i: usize = 0;
        while i < items.len()
            invariant
                store.wf(),
                old(self).wf(),
                i <= sorted.len(),
                items@ == sorted,
                id == old(self).device_id,
                pools0 == old(self).pools@,
                table0 == old(self).table@,
                scan_full == scan_items(id, pools0, *store, sorted, 0, 0),
                self.device_id == old(self).device_id,
                self.unit_number == old(self).unit_number,
                self.media == old(self).media,
                self.table@ == old(self).table@,
                self.pools@ == consume_all(pools0, id, sorted.subrange(0, i as int)),
                match err {
                    None => {
                        &&& scan_items(id, self.pools@, *store, sorted, i as int, prev_end as int)
                            == scan_full
                        &&& priv_table@.len() == nonzero_items(sorted.subrange(0, i as int)).len()
                        &&& forall|k: int|
                            0 <= k < priv_table@.len() ==> materializes(
                                *store,
                                nonzero_items(sorted.subrange(0, i as int))[k],
                                #[trigger] priv_table@[k],
                            )
                        &&& table_contiguous(priv_table@)
                        &&& table_end(priv_table@) == prev_end
                        &&& forall|k: int|
                            0 <= k < priv_table@.len() ==> priv_item_backed(
                                pools0,
                                #[trigger] priv_table@[k],
                            )
                        &&& forall|k: int|
                            0 <= k < priv_table@.len() ==> match (#[trigger] priv_table@[k]).target {
                                PrivTarget::Pool { index } => supplied_pool(
                                    sorted.subrange(0, i as int),
                                    id,
                                    index as int,
                                ),
                                _ => true,
                            }
                        &&& forall|a: int, b: int|
                            0 <= a < b < priv_table@.len() ==> match (
                                (#[trigger] priv_table@[a]).target,
                                (#[trigger] priv_table@[b]).target,
                            ) {
                                (PrivTarget::Pool { index: x }, PrivTarget::Pool { index: y }) => x
                                    != y,
                                _ => true,
                            }
                    },
                    Some(e) => scan_full == Err::<int, LoopError>(e),
                },
            decreases items@.len() - i,
        {
            let ghost pools_cur = self.pools@;
            let ghost prefix = sorted.subrange(0, i as int);

            // Evaluate the item's own validity against the current pool
            // state, resolving file targets as the driver would.
            let mut item_err: Option<LoopError> = None;
            let mut resolved: Option<crate::store::ResolvedFile> = None;
            match &items[i].target {
                LoopTarget::Zero => {},
                LoopTarget::LoopPool { buffer } => {
                    if buffer.owner != self.device_id || buffer.index >= self.pools.len() {
                        item_err = Some(LoopError::InvalidParameter);
                    } else {
                        let owned = match self.pools[buffer.index].state {
                            PoolState::CallerOwned => true,
                            _ => false,
                        };
                        if !owned {
                            item_err = Some(LoopError::InvalidParameter);
                        } else {
                            let avail = self.pools[buffer.index].data.len() / SECTOR_SIZE;
                            if items[i].target_start_sector > avail as u64 || items[i].num_sectors
                                > avail as u64 - items[i].target_start_sector {
                                item_err = Some(LoopError::InvalidParameter);
                            }
                        }
                    }
                },
                LoopTarget::File { fs_device, path } => {
                    match resolve_file(store, *fs_device, path) {
                        Err(e) => {
                            item_err = Some(e);
                        },
                        Ok(res) => {
                            let avail = res.file_size / (SECTOR_SIZE as u64);
                            if items[i].target_start_sector > avail || items[i].num_sectors > avail
                                - items[i].target_start_sector {
                                item_err = Some(LoopError::InvalidParameter);
                            } else {
                                resolved = Some(res);
                            }
                        },
                    }
                },
            }
            proof {
                assert(item_err == item_error(id, pools_cur, *store, sorted[i as int]));
            }

            // Ownership of a consumable pool transfers now, whatever the
            // verdict on the item.
            let consumable: Option<usize> = match &items[i].target {
                LoopTarget::LoopPool { buffer } => {
                    if buffer.owner == self.device_id && buffer.index < self.pools.len() {
                        let owned = match self.pools[buffer.index].state {
                            PoolState::CallerOwned => true,
                            _ => false,
                        };
                        if owned {
                            Some(buffer.index)
                        } else {
                            None
                        }
                    } else {
                        None
                    }
                },
                _ => None,
            };
            if let Some(cidx) = consumable {
                self.pools[cidx].state = PoolState::Freed;
            }
            proof {
                assert(self.pools@ =~= consume_pool(pools_cur, id, sorted[i as int]));
                let nextfix = sorted.subrange(0, (i + 1) as int);
                assert(nextfix.drop_last() =~= prefix);
                assert(nextfix.last() == sorted[i as int]);
                assert(self.pools@ == consume_all(pools0, id, nextfix));
            }

            if err.is_none() {
                match item_err {
                    Some(e) => {
                        err = Some(e);
                        proof {
                            assert(scan_items(id, pools_cur, *store, sorted, i as int, prev_end as int)
                                == Err::<int, LoopError>(e));
                        }
                    },
                    None => {
                        let nz = items[i].num_sectors > 0;
                        if !nz {
                            // dropped silently; its pool is already consumed
                            proof {
                                reveal_with_fuel(Seq::<_>::filter, 2);
                                let nextfix = sorted.subrange(0, (i + 1) as int);
                                assert(nextfix.drop_last() =~= prefix);
                                assert(nextfix.last() == sorted[i as int]);
                                assert(nonzero_items(nextfix) =~= nonzero_items(prefix));
                                assert(scan_items(id, pools_cur, *store, sorted, i as int, prev_end as int)
                                    == scan_items(id, self.pools@, *store, sorted, i as int + 1, prev_end as int));
                            }
                        } else if items[i].start_sector != prev_end {
                            err = Some(LoopError::InvalidParameter);
                            proof {
                                assert(scan_items(id, pools_cur, *store, sorted, i as int, prev_end as int)
                                    == Err::<int, LoopError>(LoopError::InvalidParameter));
                            }
                        } else if items[i].num_sectors > u64::MAX - items[i].start_sector {
                            err = Some(LoopError::InvalidParameter);
                            proof {
                                assert(scan_items(id, pools_cur, *store, sorted, i as int, prev_end as int)
                                    == Err::<int, LoopError>(LoopError::InvalidParameter));
                            }
                        } else {
                            let target: PrivTarget = match &items[i].target {
                                LoopTarget::Zero => PrivTarget::Zero,
                                LoopTarget::LoopPool { buffer } => PrivTarget::Pool {
                                    index: buffer.index,
                                },
                                LoopTarget::File { fs_device, path } => {
                                    let res = match &resolved {
                                        Some(r) => r,
                                        None => {
                                            proof {
                                                assert(false);
                                            }
                                            return Err(LoopError::DeviceError);
                                        },
                                    };
                                    PrivTarget::File {
                                        fs_device: res.fs_device,
                                        path: crate::store::copy_u16_vec(path),
                                        file_index: res.file_index,
                                        interface: res.interface,
                                        file_size: res.file_size,
                                    }
                                },
                            };
                            let item = PrivMappingItem {
                                start_sector: items[i].start_sector,
                                num_sectors: items[i].num_sectors,
                                target,
                                target_start_sector: items[i].target_start_sector,
                            };
                            let ghost old_priv = priv_table@;
                            priv_table.push(item);
                            let ghost prev0 = prev_end;
                            prev_end = items[i].start_sector + items[i].num_sectors;
                            proof {
                                assert(scan_items(id, pools_cur, *store, sorted, i as int, prev0 as int)
                                    == scan_items(id, self.pools@, *store, sorted, i as int + 1, prev_end as int));
                                reveal_with_fuel(Seq::<_>::filter, 2);
                                let nextfix = sorted.subrange(0, (i + 1) as int);
                                assert(nextfix.drop_last() =~= prefix);
                                assert(nextfix.last() == sorted[i as int]);
                                assert(nonzero_items(nextfix) =~= nonzero_items(prefix).push(
                                    sorted[i as int],
                                ));
                                assert(forall|k: int|
                                    0 <= k < old_priv.len() ==> priv_table@[k] == old_priv[k]);
                                assert(materializes(
                                    *store,
                                    sorted[i as int],
                                    priv_table@[old_priv.len() as int],
                                ));
                                lemma_consume_all_pointwise(pools0, id, prefix);
                                let newk = old_priv.len() as int;
                                assert(priv_table@[newk].start_sector == prev0);
                                assert(table_contiguous(priv_table@)) by {
                                    if old_priv.len() > 0 {
                                        assert(old_priv.last().spec_end_sector() == prev0);
                                        assert(priv_table@[newk - 1] == old_priv.last());
                                    }
                                }
                                assert(table_end(priv_table@) == prev_end);
                                assert(priv_item_backed(pools0, priv_table@[newk])) by {
                                    match priv_table@[newk].target {
                                        PrivTarget::Pool { index } => {
                                            assert(pools_cur[index as int].state
                                                == PoolState::CallerOwned);
                                            assert(pools0[index as int].state
                                                == PoolState::CallerOwned);
                                            assert(pools_cur[index as int].data
                                                == pools0[index as int].data);
                                        },
                                        _ => {},
                                    }
                                }
                                assert forall|k: int|
                                    0 <= k < priv_table@.len() implies match (
                                #[trigger] priv_table@[k]).target {
                                    PrivTarget::Pool { index } => supplied_pool(
                                        nextfix,
                                        id,
                                        index as int,
                                    ),
                                    _ => true,
                                } by {
                                    match priv_table@[k].target {
                                        PrivTarget::Pool { index } => {
                                            if k < old_priv.len() {
                                                let w = choose|w: int|
                                                    0 <= w < prefix.len() && match (
                                                    #[trigger] prefix[w]).target {
                                                        LoopTarget::LoopPool { buffer } => buffer.owner
                                                            == id && buffer.index == index,
                                                        _ => false,
                                                    };
                                                assert(nextfix[w] == prefix[w]);
                                                assert(supplied_pool(nextfix, id, index as int));
                                            } else {
                                                assert(nextfix[i as int] == sorted[i as int]);
                                                assert(supplied_pool(nextfix, id, index as int));
                                            }
                                        },
                                        _ => {},
                                    }
                                }
                                // a freshly accepted pool was caller-owned a
                                // moment ago, so no earlier item used it
                                assert forall|a: int, b: int|
                                    0 <= a < b < priv_table@.len() implies match (
                                    (#[trigger] priv_table@[a]).target,
                                    (#[trigger] priv_table@[b]).target,
                                ) {
                                    (
                                        PrivTarget::Pool { index: x },
                                        PrivTarget::Pool { index: y },
                                    ) => x != y,
                                    _ => true,
                                } by {
                                    if b == priv_table@.len() - 1 {
                                        match (priv_table@[a].target, priv_table@[b].target) {
                                            (
                                                PrivTarget::Pool { index: x },
                                                PrivTarget::Pool { index: y },
                                            ) => {
                                                lemma_consume_all_pointwise(pools0, id, prefix);
                                                assert(pools_cur[y as int].state
                                                    == PoolState::CallerOwned);
                                                assert(supplied_pool(prefix, id, x as int));
                                                if x == y {
                                                    assert(pools_cur[x as int].state
                                                        == PoolState::Freed);
                                                }
                                            },
                                            _ => {},
                                        }
                                    }
                                }
                            }
                        }
                    },
                }
            }
            i = i + 1;
        }
        proof {
            assert(sorted.subrange(0, sorted.len() as int) =~= sorted);
            lemma_consume_all_pointwise(pools0, id, sorted);
        }
        if let Some(e) = err {
            return Err(e);
        }
        if prev_end == 0 {
            return Err(LoopError::InvalidParameter);
        }
        proof {
            assert(scan_full == Ok::<int, LoopError>(prev_end as int));
        }

        // Success: release the pools of the outgoing table, install the new
        // one, attach its pools, and activate the media.
        let ghost consumed = self.pools@;
        proof {
            assert forall|k: int| 0 <= k < self.table@.len() implies self.target_wf(
                #[trigger] self.table@[k],
            ) by {
                assert(old(self).target_wf(table0[k]));
            }
        }
        self.clear();
        let ghost after_clear = self.pools@;
        self.table = priv_table;
        let mut k: usize = 0;
        while k < self.table.len()
            invariant
                k <= self.table@.len(),
                self.device_id == old(self).device_id,
                self.unit_number == old(self).unit_number,
                self.media == (BlockIoMedia {
                    media_present: false,
                    last_block: 0,
                    ..old(self).media
                }),
                self.pools@.len() == after_clear.len(),
                forall|k2: int|
                    0 <= k2 < self.table@.len() ==> priv_item_backed(
                        pools0,
                        #[trigger] self.table@[k2],
                    ),
                pools0.len() == after_clear.len(),
                forall|a: int, b: int|
                    0 <= a < b < self.table@.len() ==> match (
                        (#[trigger] self.table@[a]).target,
                        (#[trigger] self.table@[b]).target,
                    ) {
                        (PrivTarget::Pool { index: x }, PrivTarget::Pool { index: y }) => x != y,
                        _ => true,
                    },
                forall|p: int|
                    0 <= p < after_clear.len() ==> (#[trigger] self.pools@[p]).data
                        == after_clear[p].data,
                forall|p: int|
                    0 <= p < after_clear.len() ==> (#[trigger] self.pools@[p]).state
                        == if table_refs_pool(self.table@.subrange(0, k as int), p) {
                        PoolState::Attached
                    } else {
                        after_clear[p].state
                    },
                self.table@ == priv_table@,
            decreases self.table@.len() - k,
        {
            let ghost tview = self.table@;
            let idx_opt: Option<usize> = match &self.table[k].target {
                PrivTarget::Pool { index } => Some(*index),
                _ => None,
            };
            if let Some(idx) = idx_opt {
                proof {
                    assert(priv_item_backed(pools0, tview[k as int]));
                }
                if idx < self.pools.len() {
                    self.pools[idx].state = PoolState::Attached;
                }
            }
            proof {
                let pre = tview.subrange(0, k as int);
                let now = tview.subrange(0, (k + 1) as int);
                assert(now.drop_last() =~= pre);
                assert(now[k as int] == tview[k as int]);
                assert(forall|i2: int| 0 <= i2 < k ==> now[i2] == pre[i2]);
                assert forall|p: int| 0 <= p < after_clear.len() implies (
                #[trigger] self.pools@[p]).state == if table_refs_pool(now, p) {
                    PoolState::Attached
                } else {
                    after_clear[p].state
                } by {
                    let hit = match tview[k as int].target {
                        PrivTarget::Pool { index } => idx_opt == Some(index) && index == p,
                        _ => false,
                    };
                    if hit {
                        assert(table_refs_pool(now, p));
                    } else {
                        if table_refs_pool(now, p) {
                            let w = choose|i2: int|
                                0 <= i2 < now.len() && match (#[trigger] now[i2]).target {
                                    PrivTarget::Pool { index } => index == p,
                                    _ => false,
                                };
                            assert(w == k || table_refs_pool(pre, p));
                            assert(table_refs_pool(pre, p));
                        } else {
                            assert(!table_refs_pool(pre, p)) by {
                                if table_refs_pool(pre, p) {
                                    let w = choose|i2: int|
                                        0 <= i2 < pre.len() && match (#[trigger] pre[i2]).target {
                                            PrivTarget::Pool { index } => index == p,
                                            _ => false,
                                        };
                                    assert(now[w] == pre[w]);
                                }
                            }
                        }
                    }
                }
            }
            k = k + 1;
        }
        self.media.read_only = read_only;
        self.media.logical_partition = is_partition;
        self.media.last_block = prev_end;
        self.media.media_id = bump_media_id(self.media.media_id);
        self.media.media_present = true;
        proof {
            assert(self.table@.subrange(0, self.table@.len() as int) =~= self.table@);
            // the device invariant holds of the freshly installed table
            assert forall|k2: int| 0 <= k2 < self.table@.len() implies self.target_wf(
                #[trigger] self.table@[k2],
            ) by {
                assert(priv_item_backed(pools0, self.table@[k2]));
                match self.table@[k2].target {
                    PrivTarget::Pool { index } => {
                        assert(table_refs_pool(self.table@, index as int));
                        assert(self.pools@[index as int].state == PoolState::Attached);
                        assert(self.pools@[index as int].data == pools0[index as int].data);
                    },
                    _ => {},
                }
            }
            assert(table_end(self.table@) == prev_end);
        }
        Ok(())
    }
}

/// Advance a media id by one, wrapping at the 32-bit boundary.
fn bump_media_id(id: u32) -> (r: u32)
    ensures
        r == next_media_id(id),
{
    if id == u32::MAX {
        0
    } else {
        id + 1
    }
}

/// The internal item faithfully materializes the caller-supplied one: same
/// geometry, and the target resolved against the store as the driver does.
pub open spec fn materializes(
    store: FileStore,
    pub_item: LoopMappingItem,
    priv_item: PrivMappingItem,
) -> bool {
    &&& priv_item.start_sector == pub_item.start_sector
    &&& priv_item.num_sectors == pub_item.num_sectors
    &&& priv_item.target_start_sector == pub_item.target_start_sector
    &&& match pub_item.target {
        LoopTarget::Zero => priv_item.target is Zero,
        LoopTarget::LoopPool { buffer } => match priv_item.target {
            PrivTarget::Pool { index } => index == buffer.index,
            _ => false,
        },
        LoopTarget::File { fs_device, path } => match (
            spec_resolve(store, fs_device, path@),
            priv_item.target,
        ) {
            (
                Some(r),
                PrivTarget::File {
                    fs_device: fd,
                    path: p,
                    file_index: fi,
                    interface: itf,
                    file_size: fsz,
                },
            ) => fd == r.fs_device && p@ == path@ && fi == r.file_index && itf == r.interface
                && fsz == r.file_size,
            _ => false,
        },
    }
}

} // verus!
