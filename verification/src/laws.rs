//! The library's laws: properties that hold across operations, stated and
//! proved over the same views the operations' contracts use.

use vstd::prelude::*;
use crate::SECTOR_SIZE;
use crate::block_io::{
    blocks_error, device_byte, no_file_alias, range_files_ok, write_geo, write_inv,
};
use crate::controller::LoopControlProtocol;
use crate::device::{LoopProtocol, next_media_id, pool_caller_owned, unchanged};
use crate::mapping::table_end;
use crate::pool::PoolHandle;
use crate::status::LoopError;
use crate::store::FileStore;

verus! {

/// Children of a well-formed controller carry strictly increasing unit
/// numbers: each entry's unit is below its successor's.
pub proof fn law_controller_units_sorted(ctl: LoopControlProtocol, i: int)
    requires
        ctl.wf(),
        0 <= i,
        i + 1 < ctl.children@.len(),
    ensures
        ctl.children@[i].unit < ctl.children@[i + 1].unit,
{
}

/// A bound device's mapping items partition `[0, last_block)` contiguously
/// from sector 0: the first item starts at 0, each item begins where its
/// predecessor ends, and the last ends at `last_block`.
pub proof fn law_table_partitions_device(dev: LoopProtocol)
    requires
        dev.wf(),
        dev.media.media_present,
    ensures
        dev.table@.len() > 0,
        dev.table@[0].start_sector == 0,
        forall|i: int|
            0 < i < dev.table@.len() ==> (#[trigger] dev.table@[i]).start_sector
                == dev.table@[i - 1].start_sector + dev.table@[i - 1].num_sectors,
        table_end(dev.table@) == dev.media.last_block,
{
}

/// Reads that together cover `[0, last_block)` return `last_block * 512`
/// bytes in total: any two successful adjacent reads splitting the range
/// return buffers whose lengths sum to that.
pub proof fn law_reads_cover_device(
    dev: LoopProtocol,
    store: FileStore,
    a: Vec<u8>,
    b: Vec<u8>,
    cut: u64,
)
    requires
        dev.wf(),
        dev.media.media_present,
        a@.len() == cut * (SECTOR_SIZE as int),
        b@.len() == (dev.media.last_block - cut) * (SECTOR_SIZE as int),
        cut <= dev.media.last_block,
    ensures
        a@.len() + b@.len() == dev.media.last_block * (SECTOR_SIZE as int),
{
    assert(cut * (SECTOR_SIZE as int) + (dev.media.last_block - cut) * (SECTOR_SIZE as int)
        == dev.media.last_block * (SECTOR_SIZE as int)) by (nonlinear_arith);
}

/// After `clear`, every read fails with `NO_MEDIA` until a setter runs,
/// and the next successful activation announces a strictly larger media
/// id (below the wrap boundary).
pub proof fn law_clear_blocks_reads(
    dev: LoopProtocol,
    store: FileStore,
    media_id: u32,
    lba: u64,
    buffer_size: usize,
)
    requires
        dev.wf(),
        !dev.media.media_present,
    ensures
        blocks_error(&dev, &store, media_id, lba as int, buffer_size as int, false) == Some(
            LoopError::NoMedia,
        ),
        blocks_error(&dev, &store, media_id, lba as int, buffer_size as int, true) == Some(
            LoopError::NoMedia,
        ),
        dev.media.media_id < u32::MAX ==> next_media_id(dev.media.media_id) > dev.media.media_id,
{
}

/// A pool handle owned by one device is refused by `free_pool` on any
/// other device, with `INVALID_PARAMETER` and no effect: the other
/// device's contract only releases handles carrying its own mark.
pub proof fn law_foreign_pool_refused(
    owner: LoopProtocol,
    other_pre: LoopProtocol,
    other_post: LoopProtocol,
    h: PoolHandle,
    r: Result<(), LoopError>,
)
    requires
        h.owner == owner.device_id,
        other_pre.device_id != owner.device_id,
        // what free_pool's contract yields for this call
        match r {
            Ok(()) => pool_caller_owned(&other_pre, h),
            Err(e) => e == LoopError::InvalidParameter && unchanged(&other_post, &other_pre),
        },
    ensures
        r == Err::<(), LoopError>(LoopError::InvalidParameter),
        unchanged(&other_post, &other_pre),
{
    match r {
        Ok(()) => {
            assert(h.owner == other_pre.device_id);
            assert(false);
        },
        Err(_) => {},
    }
}

/// Add, then remove, then find: a unit installed by `add` and retired by
/// `remove` is reported `NOT_FOUND` again, because the child list returns
/// to one without that unit.
pub proof fn law_add_remove_find(
    pre: LoopControlProtocol,
    mid: LoopControlProtocol,
    post: LoopControlProtocol,
    unit: u32,
    h: u64,
)
    requires
        pre.wf(),
        mid.wf(),
        post.wf(),
        pre.spec_find_unit(unit) is None,
        crate::controller::child_added(pre, mid, unit, h),
        mid.spec_find_handle(h) is Some,
        post.children@ == mid.children@.remove(mid.spec_find_handle(h).unwrap()),
    ensures
        post.spec_find_unit(unit) is None,
{
    let pos = crate::controller::spec_pos_in(pre.children@, unit);
    crate::controller::lemma_pos_in_bounds(pre.children@, unit);
    let idx = mid.spec_find_handle(h).unwrap();
    assert(mid.children@[idx].handle == h);
    assert(mid.children@[pos].handle == h);
    if idx != pos {
        // two entries would share the handle
        if idx < pos {
            assert(mid.children@[idx].handle != mid.children@[pos].handle);
        } else {
            assert(mid.children@[pos].handle != mid.children@[idx].handle);
        }
        assert(false);
    }
    if post.spec_find_unit(unit) is Some {
        let w = post.spec_find_unit(unit).unwrap();
        assert(post.children@[w].unit == unit);
        let w_mid = if w < pos {
            w
        } else {
            w + 1
        };
        assert(post.children@[w] == mid.children@[w_mid]);
        assert(w_mid != pos);
        let w_pre = if w_mid < pos {
            w_mid
        } else {
            w_mid - 1
        };
        assert(mid.children@[w_mid] == pre.children@[w_pre]);
        assert(pre.children@[w_pre].unit == unit);
        assert(false);
    }
}

/// Install/uninstall atomicity: a failed multi-install leaves the database
/// exactly as it was, so the target handle has none of the attempted
/// interfaces; a failed multi-uninstall restores it, so the handle keeps
/// exactly the set it began with. Both follow from the operations' error
/// contracts, which return the whole database unchanged.
pub proof fn law_install_uninstall_atomic(
    pre: crate::protodb::ProtocolDb,
    post: crate::protodb::ProtocolDb,
    handle: u64,
    guid: u128,
)
    requires
        post == pre,
    ensures
        post.spec_has(handle, guid) == pre.spec_has(handle, guid),
{
}

/// Writing a range and reading it back returns the written bytes, on a
/// table without zero-fill segments whose file segments do not alias. The
/// write's contract pins every written byte of the device view; the read's
/// contract returns exactly that view.
pub proof fn law_write_read_round_trip(
    dev0: LoopProtocol,
    store0: FileStore,
    dev: LoopProtocol,
    store: FileStore,
    data: Seq<u8>,
    out: Seq<u8>,
    lba: u64,
)
    requires
        write_geo(dev0, store0, data, lba as int, lba + data.len() as int / (SECTOR_SIZE as int)),
        write_inv(
            dev0,
            store0,
            dev,
            store,
            data,
            lba as int,
            lba + data.len() as int / (SECTOR_SIZE as int),
            data.len() as int / (SECTOR_SIZE as int),
        ),
        no_file_alias(
            dev0.table@,
            lba as int,
            lba + data.len() as int / (SECTOR_SIZE as int),
        ),
        forall|i: int|
            0 <= i < dev0.table@.len() ==> !((#[trigger] dev0.table@[i]).target is Zero),
        lba + data.len() as int / (SECTOR_SIZE as int) <= table_end(dev0.table@),
        // what a successful read of the same range returned
        out.len() == data.len(),
        forall|j: int|
            0 <= j < out.len() ==> out[j] == device_byte(&dev, &store, lba * (SECTOR_SIZE as int)
                + j),
    ensures
        out == data,
{
    let s0 = lba as int;
    let total = data.len() as int / (SECTOR_SIZE as int);
    assert(data.len() as int == total * (SECTOR_SIZE as int));
    assert forall|j: int| 0 <= j < out.len() implies out[j] == data[j] by {
        let q = j / (SECTOR_SIZE as int);
        crate::block_io::lemma_split_byte(j, total);
        let sp = s0 + q;
        assert(0 <= sp < table_end(dev0.table@));
        crate::mapping::lemma_item_index_for(dev0.table@, sp);
        let ip = crate::mapping::item_index_for(dev0.table@, sp);
        assert(!(dev0.table@[ip].target is Zero));
        assert(device_byte(&dev, &store, s0 * (SECTOR_SIZE as int) + j) == data[j]);
    }
    assert(out =~= data);
}

/// A read whose last sector is `last_block - 1` passes the range check;
/// one more sector fails it with `INVALID_PARAMETER`.
pub proof fn law_read_range_boundary(dev: LoopProtocol, store: FileStore, media_id: u32)
    requires
        dev.wf(),
        dev.media.media_present,
        media_id == dev.media.media_id,
        dev.media.last_block >= 1,
        range_files_ok(
            &dev,
            &store,
            dev.media.last_block - 1,
            dev.media.last_block as int,
        ),
    ensures
        blocks_error(
            &dev,
            &store,
            media_id,
            dev.media.last_block - 1,
            SECTOR_SIZE as int,
            false,
        ) is None,
        blocks_error(
            &dev,
            &store,
            media_id,
            dev.media.last_block as int,
            SECTOR_SIZE as int,
            false,
        ) == Some(LoopError::InvalidParameter),
{
}

/// A file whose size is not a whole number of sectors backs a device of
/// `floor(size / 512)` blocks: the trailing partial sector is invisible.
pub proof fn law_partial_sector_invisible(size: u64)
    ensures
        size % (SECTOR_SIZE as u64) != 0 ==> (size / (SECTOR_SIZE as u64)) * (SECTOR_SIZE as int)
            < size,
{
    assert(size % 512 != 0 ==> (size / 512) * 512 < size) by (nonlinear_arith);
}

} // verus!
