//! The ISO9660 patch planner: rewrite an image without copying it.
//!
//! The planner walks the image's directory tree, matches each file's path
//! against the user's rules, and for every match builds an appended region
//! at the end of the device: replacement or original file content by
//! reference, trailing partial sectors and appended data in a pool. The
//! matched directory records are patched in copies of their containing
//! blocks, and the final mapping table splices original image runs, patched
//! record blocks and the appended region into one contiguous volume.

use vstd::prelude::*;
use crate::{ISO_BLOCK_SIZE, SECTOR_SIZE};
use crate::controller::LoopControlProtocol;
use crate::cpio::{ChunkRead, MetaCpioChunk};
use crate::device::LoopProtocol;
use crate::iso::{ISO9660, WalkRecordInfo, vd_header_ok};
use crate::mapping::{LoopMappingItem, LoopTarget, PrivTarget};
use crate::pool::PoolHandle;
use crate::status::LoopError;
use crate::store::{FileStore, copy_u16_vec, resolve_file, spec_resolve};

verus! {

/// One patching action attached to a rule.
pub enum PatchAction {
    /// Append the metadata cpio archive.
    MetaCpio,
    /// Append the named file's bytes.
    Append(Vec<u16>),
    /// Replace the matched file's content with the named file's.
    Replace(Vec<u16>),
}

/// A pool allocation handed out by a device, tracked with its size.
pub struct LoopPool {
    pub handle: PoolHandle,
    pub size: usize,
}

impl LoopPool {
    /// Give the raw pool handle up; the wrapper no longer tracks it.
    pub fn into_raw(self) -> (r: PoolHandle)
        ensures
            r == self.handle,
    {
        self.handle
    }
}

/// The little-endian bytes of a value followed by its big-endian bytes:
/// the both-byte-order encoding ISO9660 uses for record fields.
pub open spec fn spec_lsb_msb(num: u32) -> Seq<u8> {
    seq![
        (num & 0xff) as u8,
        ((num >> 8u32) & 0xff) as u8,
        ((num >> 16u32) & 0xff) as u8,
        ((num >> 24u32) & 0xff) as u8,
        ((num >> 24u32) & 0xff) as u8,
        ((num >> 16u32) & 0xff) as u8,
        ((num >> 8u32) & 0xff) as u8,
        (num & 0xff) as u8,
    ]
}

/// Encode a value in the both-byte-order form.
pub fn get_u32_lsb_msb_bytes(num: u32) -> (r: Vec<u8>)
    ensures
        r@ == spec_lsb_msb(num),
{
    let mut r: Vec<u8> = Vec::new();
    let b0 = (num & 0xff) as u8;
    let b1 = ((num >> 8u32) & 0xff) as u8;
    let b2 = ((num >> 16u32) & 0xff) as u8;
    let b3 = ((num >> 24u32) & 0xff) as u8;
    r.push(b0);
    r.push(b1);
    r.push(b2);
    r.push(b3);
    r.push(b3);
    r.push(b2);
    r.push(b1);
    r.push(b0);
    proof {
        assert(r@ =~= spec_lsb_msb(num));
    }
    r
}

/// Rewrite the extent fields of the 34-byte directory record at `offset`
/// within a block: the both-byte-order extent start, then the both-byte-
/// order extent size.
pub fn alter_record(record_block: &mut Vec<u8>, offset: usize, extent_lba: u32, extent_size: u32)
    requires
        offset + 34 <= old(record_block)@.len(),
    ensures
        final(record_block)@.len() == old(record_block)@.len(),
        forall|k: int|
            0 <= k < old(record_block)@.len() && !(offset + 2 <= k < offset + 18)
                ==> final(record_block)@[k] == old(record_block)@[k],
        forall|k: int|
            0 <= k < 8 ==> final(record_block)@[offset + 2 + k] == spec_lsb_msb(extent_lba)[k],
        forall|k: int|
            0 <= k < 8 ==> final(record_block)@[offset + 10 + k] == spec_lsb_msb(extent_size)[k],
{
    let bl = record_block.len();
    proof {
        assert(offset + 34 <= bl as int);
    }
    let lba_bytes = get_u32_lsb_msb_bytes(extent_lba);
    let size_bytes = get_u32_lsb_msb_bytes(extent_size);
    let mut k: usize = 0;
    while k < 8
        invariant
            k <= 8,
            offset + 34 <= record_block@.len(),
            offset + 34 <= usize::MAX,
            lba_bytes@ == spec_lsb_msb(extent_lba),
            record_block@.len() == old(record_block)@.len(),
            forall|j: int|
                0 <= j < old(record_block)@.len() && !(offset + 2 <= j < offset + 2 + k)
                    ==> record_block@[j] == old(record_block)@[j],
            forall|j: int|
                0 <= j < k ==> record_block@[offset + 2 + j] == spec_lsb_msb(extent_lba)[j],
        decreases 8 - k,
    {
        record_block[offset + 2 + k] = lba_bytes[k];
        k = k + 1;
    }
    let mut k2: usize = 0;
    while k2 < 8
        invariant
            k2 <= 8,
            offset + 34 <= record_block@.len(),
            offset + 34 <= usize::MAX,
            size_bytes@ == spec_lsb_msb(extent_size),
            record_block@.len() == old(record_block)@.len(),
            forall|j: int|
                0 <= j < old(record_block)@.len() && !(offset + 2 <= j < offset + 10 + k2)
                    ==> record_block@[j] == old(record_block)@[j],
            forall|j: int|
                0 <= j < 8 ==> record_block@[offset + 2 + j] == spec_lsb_msb(extent_lba)[j],
            forall|j: int|
                0 <= j < k2 ==> record_block@[offset + 10 + j] == spec_lsb_msb(extent_size)[j],
        decreases 8 - k2,
    {
        record_block[offset + 10 + k2] = size_bytes[k2];
        k2 = k2 + 1;
    }
}

/// A directory record awaiting its in-block rewrite.
pub struct PatchRecord {
    pub record_position: u64,
    pub new_extent_lba: u64,
    pub new_extent_size: usize,
}

/// The image parses as ISO9660: long enough for the descriptor sequence
/// and carrying the identifier at block 16.
pub open spec fn spec_is_iso(data: Seq<u8>) -> bool {
    17 * (ISO_BLOCK_SIZE as int) <= data.len() && vd_header_ok(data, 16)
}

/// Append the low bytes of a 16-bit path to the metadata, marking wide
/// characters; then the closing quote and newline.
fn push_path_bytes(out: &mut Vec<u8>, path: &Vec<u16>)
    ensures
        final(out)@.len() >= old(out)@.len(),
{
    let mut i: usize = 0;
    while i < path.len()
        invariant
            i <= path@.len(),
            out@.len() >= old(out)@.len(),
        decreases path@.len() - i,
    {
        let c = path[i];
        if c < 0x80 {
            out.push(c as u8);
        } else {
            out.push(0x3f);
        }
        i = i + 1;
    }
}

/// Read a whole file's bytes out of the store.
fn read_file_bytes(store: &FileStore, fs_device: u64, file_index: usize) -> (r: Result<
    Vec<u8>,
    LoopError,
>)
    requires
        store.wf(),
    ensures
        r matches Ok(d) ==> {
            &&& store.spec_device_index(fs_device) is Some
            &&& (file_index as int) < store.devices@[store.spec_device_index(
                fs_device,
            ).unwrap()].files@.len()
            &&& d@ == store.devices@[store.spec_device_index(fs_device).unwrap()].files@[file_index as int].data@
        },
        (store.spec_device_index(fs_device) is Some && (file_index as int) < store.devices@[
            store.spec_device_index(fs_device).unwrap()].files@.len()) ==> r is Ok,
{
    let di = match store.find_device(fs_device) {
        None => {
            return Err(LoopError::NotFound);
        },
        Some(di) => di,
    };
    if file_index >= store.devices[di].files.len() {
        return Err(LoopError::NotFound);
    }
    let data = &store.devices[di].files[file_index].data;
    let mut out: Vec<u8> = Vec::new();
    let mut i: usize = 0;
    while i < data.len()
        invariant
            i <= data@.len(),
            (di as int) < store.devices@.len(),
            (file_index as int) < store.devices@[di as int].files@.len(),
            data == store.devices@[di as int].files@[file_index as int].data,
            out@ == data@.subrange(0, i as int),
        decreases data@.len() - i,
    {
        out.push(data[i]);
        proof {
            assert(out@ =~= data@.subrange(0, (i + 1) as int));
        }
        i = i + 1;
    }
    proof {
        assert(out@ =~= data@);
    }
    Ok(out)
}

/// Append the bytes of `src` to `dst`.
fn extend_bytes(dst: &mut Vec<u8>, src: &Vec<u8>)
    requires
        old(dst)@.len() + src@.len() <= usize::MAX,
    ensures
        final(dst)@ == old(dst)@ + src@,
{
    let ghost pre = dst@;
    let mut i: usize = 0;
    while i < src.len()
        invariant
            i <= src@.len(),
            pre.len() + src@.len() <= usize::MAX,
            dst@ == pre + src@.subrange(0, i as int),
        decreases src@.len() - i,
    {
        dst.push(src[i]);
        proof {
            assert(dst@ =~= pre + src@.subrange(0, (i + 1) as int));
        }
        i = i + 1;
    }
    proof {
        assert(src@.subrange(0, src@.len() as int) =~= src@);
    }
}


/// One planned addition to the appended region's pool.
enum PlannedAppend {
    /// The whole content of the named file.
    FileBytes(Vec<u16>),
    /// The metadata cpio archive.
    Cpio,
}

/// Sort patch records by their position in the image.
fn sort_patch_records(v: &mut Vec<PatchRecord>)
    ensures
        final(v)@.len() == old(v)@.len(),
        forall|a: int, b: int|
            0 <= a < b < final(v)@.len() ==> final(v)@[a].record_position
                <= final(v)@[b].record_position,
{
    let mut i: usize = 1;
    while i < v.len()
        invariant
            1 <= i,
            v@.len() == old(v)@.len(),
            forall|a: int, b: int|
                0 <= a < b < i && b < v@.len() ==> v@[a].record_position <= v@[b].record_position,
        decreases v@.len() - i,
    {
        let mut j: usize = 0;
        while j < i && v[j].record_position <= v[i].record_position
            invariant
                j <= i < v@.len(),
                forall|k: int|
                    0 <= k < j ==> (#[trigger] v@[k]).record_position
                        <= v@[i as int].record_position,
            decreases i - j,
        {
            j = j + 1;
        }
        let ghost pre = v@;
        let x = v.remove(i);
        v.insert(j, x);
        proof {
            let removed = pre.remove(i as int);
            assert(v@ =~= removed.insert(j as int, x));
            assert forall|a: int, b: int|
                0 <= a < b < i + 1 && b < v@.len() implies v@[a].record_position
                <= v@[b].record_position by {
                let ja = j as int;
                let a0 = if a < ja {
                    a
                } else if a == ja {
                    i as int
                } else {
                    a - 1
                };
                let b0 = if b < ja {
                    b
                } else if b == ja {
                    i as int
                } else {
                    b - 1
                };
                assert(v@[a] == pre[a0]);
                assert(v@[b] == pre[b0]);
                if a0 == i as int {
                    // the inserted element: everything after it in the
                    // prefix was strictly larger
                    assert(b > ja);
                    assert(pre[b0].record_position > pre[i as int].record_position);
                } else if b0 == i as int {
                    assert(a < ja);
                    assert(pre[a0].record_position <= pre[i as int].record_position);
                }
            }
        }
        i = i + 1;
    }
}

/// Install the patched (or raw) image on one loopback device: the core of
/// an attach.
///
/// With no rules the image file backs the device whole. With rules the
/// image must parse as ISO9660; each matched file gains an appended region
/// of replacement or original content plus appended data, its directory
/// record is rewritten in a patched copy of its block, and the assembled
/// table is installed. ISO9660 detection forces read-only media whatever
/// the caller asked.
pub fn attach_to_device(
    dev: &mut LoopProtocol,
    store: &FileStore,
    read_only: bool,
    is_partition: bool,
    patch: &Vec<(String, Vec<PatchAction>)>,
    image_path: &Vec<u16>,
) -> (r: Result<(), LoopError>)
    requires
        old(dev).wf(),
        store.wf(),
    ensures
        final(dev).wf(),
        final(dev).device_id == old(dev).device_id,
        final(dev).unit_number == old(dev).unit_number,
        r matches Ok(()) ==> attached_media_ok(
            *store,
            image_path@,
            read_only,
            is_partition,
            patch@.len() == 0,
            *final(dev),
        ),
        patch@.len() == 0 ==> {
            &&& (r is Ok <==> spec_resolve(*store, 0, image_path@) is Some)
            &&& (r matches Err(e) ==> e == LoopError::NotFound && *final(dev) == *old(dev))
        },
        r is Ok ==> spec_resolve(*store, 0, image_path@) is Some,
        r is Ok ==> final(dev).media.last_block >= spec_resolve(
            *store,
            0,
            image_path@,
        ).unwrap().file_size / (SECTOR_SIZE as u64),
{
    let image_res = match resolve_file(store, 0, image_path) {
        Err(e) => {
            return Err(e);
        },
        Ok(res) => res,
    };
    let total_sectors = image_res.file_size / (SECTOR_SIZE as u64);
    proof {
        crate::store::lemma_resolve_valid(*store, 0, image_path@);
    }
    let image_data = match read_file_bytes(store, image_res.fs_device, image_res.file_index) {
        Err(e) => {
            proof {
                assert(false);
            }
            return Err(e);
        },
        Ok(d) => d,
    };
    let ghost image_seq = image_data@;
    let iso_res = ISO9660::new(image_data);
    let is_iso = iso_res.is_ok();
    proof {
        assert(is_iso == spec_is_iso(image_seq));
    }
    let eff_read_only = if is_iso && !read_only {
        true
    } else {
        read_only
    };
    if patch.len() == 0 {
        let r = dev.set_file(store, is_iso || read_only, is_partition, 0, image_path);
        return r;
    }
    let iso = match iso_res {
        Err(e) => {
            return Err(e);
        },
        Ok(v) => v,
    };
    // compile the rule patterns as one case-insensitive set
    let mut pats: Vec<String> = Vec::new();
    let mut pi: usize = 0;
    while pi < patch.len()
        invariant
            pi <= patch@.len(),
            pats@.len() == pi,
        decreases patch@.len() - pi,
    {
        pats.push(patch[pi].0.clone());
        pi = pi + 1;
    }
    let rs = match crate::rules::build_regex_set(&pats) {
        Err(e) => {
            return Err(e);
        },
        Ok(rs) => rs,
    };
    // walk the directory tree
    let (record_pos, record_size) = match iso.find_root_record() {
        Err(e) => {
            return Err(e);
        },
        Ok(v) => v,
    };
    let empty_path: Vec<u8> = Vec::new();
    let mut records: Vec<WalkRecordInfo> = Vec::new();
    match iso.walk_record(record_pos, record_size, &empty_path, 32, &mut records) {
        Err(e) => {
            return Err(e);
        },
        Ok(()) => {},
    }
    let mut append_start: u64 = total_sectors;
    let mut append_items: Vec<LoopMappingItem> = Vec::new();
    let mut patch_records: Vec<PatchRecord> = Vec::new();
    proof {
        assert(crate::rules::regex_set_patterns(rs).len() == pats@.len());
    }
    let mut ri: usize = 0;
    while ri < records.len()
        invariant
            dev.wf(),
            store.wf(),
            dev.device_id == old(dev).device_id,
            dev.unit_number == old(dev).unit_number,
            ri <= records@.len(),
            patch@.len() > 0,
            pats@.len() == patch@.len(),
            crate::rules::regex_set_patterns(rs).len() == pats@.len(),
        decreases records@.len() - ri,
    {
        let rec = &records[ri];
        if rec.is_dir {
            ri = ri + 1;
            continue ;
        }
        let matches = crate::rules::regex_set_match_indices(&rs, &rec.path);
        if matches.len() == 0 {
            ri = ri + 1;
            continue ;
        }
        // collect the matched rules' actions; a replace resets the list
        let mut replace_path: Option<Vec<u16>> = None;
        let mut appends: Vec<PlannedAppend> = Vec::new();
        let mut mi: usize = 0;
        while mi < matches.len()
            invariant
                mi <= matches@.len(),
                pats@.len() == patch@.len(),
                crate::rules::regex_set_patterns(rs).len() == pats@.len(),
                forall|a: int|
                    0 <= a < matches@.len() ==> (#[trigger] matches@[a] as int)
                        < crate::rules::regex_set_patterns(rs).len(),
            decreases matches@.len() - mi,
        {
            let rule_idx = matches[mi];
            let actions = &patch[rule_idx].1;
            let mut ai: usize = 0;
            while ai < actions.len()
                invariant
                    ai <= actions@.len(),
                decreases actions@.len() - ai,
            {
                match &actions[ai] {
                    PatchAction::Replace(p) => {
                        replace_path = Some(copy_u16_vec(p));
                        appends = Vec::new();
                    },
                    PatchAction::Append(p) => {
                        appends.push(PlannedAppend::FileBytes(copy_u16_vec(p)));
                    },
                    PatchAction::MetaCpio => {
                        appends.push(PlannedAppend::Cpio);
                    },
                }
                ai = ai + 1;
            }
            mi = mi + 1;
        }
        // the file-backed part of the appended region, and any trailing
        // partial sector
        let mut pool_data: Vec<u8> = Vec::new();
        let file_start_sector = append_start;
        let file_item_size: u64;
        match &replace_path {
            Some(rp) => {
                let rf = match resolve_file(store, 0, rp) {
                    Err(e) => {
                        return Err(e);
                    },
                    Ok(v) => v,
                };
                let num = rf.file_size / (SECTOR_SIZE as u64);
                if append_start > u64::MAX - num {
                    return Err(LoopError::Aborted);
                }
                append_items.push(
                    LoopMappingItem {
                        start_sector: append_start,
                        num_sectors: num,
                        target: LoopTarget::File { fs_device: rf.fs_device, path: copy_u16_vec(rp) },
                        target_start_sector: 0,
                    },
                );
                append_start = append_start + num;
                file_item_size = num * (SECTOR_SIZE as u64);
                let rest = (rf.file_size % (SECTOR_SIZE as u64)) as usize;
                if rest > 0 {
                    let rbytes = match read_file_bytes(store, rf.fs_device, rf.file_index) {
                        Err(e) => {
                            return Err(e);
                        },
                        Ok(d) => d,
                    };
                    if rbytes.len() < rest {
                        return Err(LoopError::DeviceError);
                    }
                    let base = rbytes.len() - rest;
                    let mut t: usize = 0;
                    while t < rest
                        invariant
                            t <= rest,
                            base + rest <= rbytes@.len(),
                            base + rest <= usize::MAX,
                        decreases rest - t,
                    {
                        pool_data.push(rbytes[base + t]);
                        t = t + 1;
                    }
                }
            },
            None => {
                let num = (rec.extent_size / SECTOR_SIZE) as u64;
                if append_start > u64::MAX - num {
                    return Err(LoopError::Aborted);
                }
                append_items.push(
                    LoopMappingItem {
                        start_sector: append_start,
                        num_sectors: num,
                        target: LoopTarget::File {
                            fs_device: image_res.fs_device,
                            path: copy_u16_vec(image_path),
                        },
                        target_start_sector: rec.extent_position / (SECTOR_SIZE as u64),
                    },
                );
                append_start = append_start + num;
                file_item_size = num * (SECTOR_SIZE as u64);
                let rest = rec.extent_size % SECTOR_SIZE;
                if rest > 0 {
                    if rec.extent_position > u64::MAX - file_item_size {
                        return Err(LoopError::Aborted);
                    }
                    let rbytes = match iso.read(rec.extent_position + file_item_size, rest) {
                        Err(e) => {
                            return Err(e);
                        },
                        Ok(d) => d,
                    };
                    extend_bytes(&mut pool_data, &rbytes);
                }
            },
        }
        // appended data follows the file part inside the pool
        let mut qi: usize = 0;
        while qi < appends.len()
            invariant
                qi <= appends@.len(),
                patch@.len() > 0,
                store.wf(),
                dev.wf(),
                dev.device_id == old(dev).device_id,
                dev.unit_number == old(dev).unit_number,
            decreases appends@.len() - qi,
        {
            match &appends[qi] {
                PlannedAppend::FileBytes(p) => {
                    let af = match resolve_file(store, 0, p) {
                        Err(e) => {
                            return Err(e);
                        },
                        Ok(v) => v,
                    };
                    let abytes = match read_file_bytes(store, af.fs_device, af.file_index) {
                        Err(e) => {
                            return Err(e);
                        },
                        Ok(d) => d,
                    };
                    if pool_data.len() > usize::MAX - abytes.len() {
                        return Err(LoopError::Aborted);
                    }
                    extend_bytes(&mut pool_data, &abytes);
                },
                PlannedAppend::Cpio => {
                    let mut metadata: Vec<u8> = Vec::new();
                    // LOPATCH_DEVICE_PATH='
                    metadata.push(0x4c);
                    metadata.push(0x4f);
                    metadata.push(0x50);
                    metadata.push(0x41);
                    metadata.push(0x54);
                    metadata.push(0x43);
                    metadata.push(0x48);
                    metadata.push(0x5f);
                    metadata.push(0x44);
                    metadata.push(0x45);
                    metadata.push(0x56);
                    metadata.push(0x49);
                    metadata.push(0x43);
                    metadata.push(0x45);
                    metadata.push(0x5f);
                    metadata.push(0x50);
                    metadata.push(0x41);
                    metadata.push(0x54);
                    metadata.push(0x48);
                    metadata.push(0x3d);
                    metadata.push(0x27);
                    push_path_bytes(&mut metadata, image_path);
                    metadata.push(0x27);
                    metadata.push(0x0a);
                    if metadata.len() > u32::MAX as usize || metadata.len() > usize::MAX
                        - 0x40000 {
                        return Err(LoopError::Aborted);
                    }
                    let mut chunk = MetaCpioChunk::new(metadata);
                    let cbytes = match chunk.read_to_end() {
                        Err(e) => {
                            return Err(e);
                        },
                        Ok(d) => d,
                    };
                    if pool_data.len() > usize::MAX - cbytes.len() {
                        return Err(LoopError::Aborted);
                    }
                    extend_bytes(&mut pool_data, &cbytes);
                },
            }
            qi = qi + 1;
        }
        // one pool per matched file, rounded up to whole sectors
        let pool_pos = pool_data.len();
        if pool_pos > usize::MAX - SECTOR_SIZE {
            return Err(LoopError::Aborted);
        }
        let pool_size = (pool_pos + SECTOR_SIZE - 1) / SECTOR_SIZE * SECTOR_SIZE;
        proof {
            assert(pool_size >= pool_pos) by (nonlinear_arith)
                requires
                    pool_size == ((pool_pos + 511) / 512) * 512,
                    pool_pos >= 0,
            ;
        }
        let pool = match dev.alloc_pool(pool_size) {
            Err(e) => {
                return Err(e);
            },
            Ok(h) => LoopPool { handle: h, size: pool_size },
        };
        match dev.pool_write(pool.handle, 0, &pool_data) {
            Err(e) => {
                return Err(e);
            },
            Ok(()) => {},
        }
        let ph = pool.into_raw();
        let pool_sectors = (pool_size / SECTOR_SIZE) as u64;
        if file_item_size > u64::MAX - pool_pos as u64 || file_start_sector > u64::MAX / 4 {
            return Err(LoopError::Aborted);
        }
        if (file_item_size + pool_pos as u64) > u32::MAX as u64 {
            return Err(LoopError::Aborted);
        }
        patch_records.push(
            PatchRecord {
                record_position: rec.record_position,
                new_extent_lba: file_start_sector / ((ISO_BLOCK_SIZE / SECTOR_SIZE) as u64),
                new_extent_size: (file_item_size + pool_pos as u64) as usize,
            },
        );
        if append_start > u64::MAX - pool_sectors {
            return Err(LoopError::Aborted);
        }
        append_items.push(
            LoopMappingItem {
                start_sector: append_start,
                num_sectors: pool_sectors,
                target: LoopTarget::LoopPool { buffer: ph },
                target_start_sector: 0,
            },
        );
        append_start = append_start + pool_sectors;
        ri = ri + 1;
    }
    // group the record rewrites by containing block, patch copies of those
    // blocks
    sort_patch_records(&mut patch_records);
    let mut blocks: Vec<(u64, PoolHandle)> = Vec::new();
    let mut cur_lba: u64 = 0;
    let mut cur_block: Vec<u8> = Vec::new();
    let mut have_cur = false;
    let mut bi: usize = 0;
    while bi < patch_records.len()
        invariant
            dev.wf(),
            store.wf(),
            patch@.len() > 0,
            dev.device_id == old(dev).device_id,
            dev.unit_number == old(dev).unit_number,
            bi <= patch_records@.len(),
            have_cur ==> cur_block@.len() == ISO_BLOCK_SIZE as int,
        decreases patch_records@.len() - bi,
    {
        let pr_pos = patch_records[bi].record_position;
        let pr_lba = patch_records[bi].new_extent_lba;
        let pr_size = patch_records[bi].new_extent_size;
        if pr_lba > u32::MAX as u64 || pr_size > u32::MAX as usize {
            return Err(LoopError::Aborted);
        }
        let record_lba = pr_pos / (ISO_BLOCK_SIZE as u64);
        let record_offset = (pr_pos % (ISO_BLOCK_SIZE as u64)) as usize;
        if record_offset + 34 > ISO_BLOCK_SIZE {
            return Err(LoopError::Aborted);
        }
        if have_cur && cur_lba == record_lba {
            alter_record(&mut cur_block, record_offset, pr_lba as u32, pr_size as u32);
        } else {
            if have_cur {
                let pool = match dev.alloc_pool(ISO_BLOCK_SIZE) {
                    Err(e) => {
                        return Err(e);
                    },
                    Ok(h) => LoopPool { handle: h, size: ISO_BLOCK_SIZE },
                };
                match dev.pool_write(pool.handle, 0, &cur_block) {
                    Err(e) => {
                        return Err(e);
                    },
                    Ok(()) => {},
                }
                blocks.push((cur_lba, pool.into_raw()));
            }
            if record_lba > u64::MAX / (ISO_BLOCK_SIZE as u64) {
                return Err(LoopError::Aborted);
            }
            cur_block = match iso.read(record_lba * (ISO_BLOCK_SIZE as u64), ISO_BLOCK_SIZE) {
                Err(e) => {
                    return Err(e);
                },
                Ok(d) => d,
            };
            alter_record(&mut cur_block, record_offset, pr_lba as u32, pr_size as u32);
            cur_lba = record_lba;
            have_cur = true;
        }
        bi = bi + 1;
    }
    if have_cur {
        let pool = match dev.alloc_pool(ISO_BLOCK_SIZE) {
            Err(e) => {
                return Err(e);
            },
            Ok(h) => LoopPool { handle: h, size: ISO_BLOCK_SIZE },
        };
        match dev.pool_write(pool.handle, 0, &cur_block) {
            Err(e) => {
                return Err(e);
            },
            Ok(()) => {},
        }
        blocks.push((cur_lba, pool.into_raw()));
    }
    // splice original runs, patched blocks, and the appended region
    let mut table: Vec<LoopMappingItem> = Vec::new();
    let mut prev_end: u64 = 0;
    let mut ti: usize = 0;
    let sectors_per_block = (ISO_BLOCK_SIZE / SECTOR_SIZE) as u64;
    while ti < blocks.len()
        invariant
            ti <= blocks@.len(),
            patch@.len() > 0,
            sectors_per_block == 4,
            dev.wf(),
            store.wf(),
            dev.device_id == old(dev).device_id,
            dev.unit_number == old(dev).unit_number,
            prev_end == 0 || exists|i: int|
                0 <= i < table@.len() && (#[trigger] table@[i]).num_sectors > 0
                    && table@[i].start_sector + table@[i].num_sectors == prev_end,
        decreases blocks@.len() - ti,
    {
        let (lba, ph) = blocks[ti];
        if lba > u64::MAX / 4 {
            return Err(LoopError::Aborted);
        }
        let record_sector = lba * sectors_per_block;
        if prev_end > record_sector || record_sector > u64::MAX - sectors_per_block {
            return Err(LoopError::Aborted);
        }
        if prev_end < record_sector {
            table.push(
                LoopMappingItem {
                    start_sector: prev_end,
                    num_sectors: record_sector - prev_end,
                    target: LoopTarget::File {
                        fs_device: image_res.fs_device,
                        path: copy_u16_vec(image_path),
                    },
                    target_start_sector: prev_end,
                },
            );
        }
        table.push(
            LoopMappingItem {
                start_sector: record_sector,
                num_sectors: sectors_per_block,
                target: LoopTarget::LoopPool { buffer: ph },
                target_start_sector: 0,
            },
        );
        prev_end = record_sector + sectors_per_block;
        proof {
            assert(table@[table@.len() - 1].num_sectors > 0);
            assert(table@[table@.len() - 1].start_sector + table@[table@.len() - 1].num_sectors
                == prev_end);
        }
        ti = ti + 1;
    }
    if prev_end < total_sectors {
        table.push(
            LoopMappingItem {
                start_sector: prev_end,
                num_sectors: total_sectors - prev_end,
                target: LoopTarget::File {
                    fs_device: image_res.fs_device,
                    path: copy_u16_vec(image_path),
                },
                target_start_sector: prev_end,
            },
        );
    }
    proof {
        // some supplied item reaches the image's last sector
        if total_sectors > 0 {
            if prev_end < total_sectors {
                assert(table@[table@.len() - 1].num_sectors > 0);
                assert(table@[table@.len() - 1].start_sector + table@[table@.len()
                    - 1].num_sectors >= total_sectors);
            }
            assert(exists|i: int|
                0 <= i < table@.len() && (#[trigger] table@[i]).num_sectors > 0
                    && table@[i].start_sector + table@[i].num_sectors >= total_sectors);
        }
    }
    let ghost pre_append = table@;
    table.append(&mut append_items);
    proof {
        if total_sectors > 0 {
            let w = choose|i: int|
                0 <= i < pre_append.len() && (#[trigger] pre_append[i]).num_sectors > 0
                    && pre_append[i].start_sector + pre_append[i].num_sectors >= total_sectors;
            assert(table@[w] == pre_append[w]);
            assert(exists|i: int|
                0 <= i < table@.len() && (#[trigger] table@[i]).num_sectors > 0
                    && table@[i].start_sector + table@[i].num_sectors >= total_sectors);
        }
    }
    let ghost table_view = table@;
    match dev.set_mapping_table(store, eff_read_only, is_partition, table) {
        Err(e) => Err(e),
        Ok(()) => {
            proof {
                lemma_attach_covers(
                    *old(dev),
                    *dev,
                    *store,
                    table_view,
                    total_sectors as int,
                );
                assert(image_res.file_size / (SECTOR_SIZE as u64) == total_sectors);
            }
            Ok(())
        },
    }
}

/// A table holding an item that reaches sector `total` yields, once
/// accepted, a device of at least `total` blocks.
proof fn lemma_attach_covers(
    dev0: crate::device::LoopProtocol,
    dev: crate::device::LoopProtocol,
    store: FileStore,
    items: Seq<LoopMappingItem>,
    total: int,
)
    requires
        dev.wf(),
        dev.media.media_present,
        total > 0 ==> exists|i: int|
            0 <= i < items.len() && (#[trigger] items[i]).num_sectors > 0
                && items[i].start_sector + items[i].num_sectors >= total,
        dev.table@.len() == crate::device::nonzero_items(
            crate::mapping::spec_sort_by_start(items),
        ).len(),
        forall|k: int|
            0 <= k < dev.table@.len() ==> crate::device::materializes(
                store,
                crate::device::nonzero_items(crate::mapping::spec_sort_by_start(items))[k],
                #[trigger] dev.table@[k],
            ),
    ensures
        dev.media.last_block >= total,
{
    if total > 0 {
        let wit = choose|i: int|
            0 <= i < items.len() && (#[trigger] items[i]).num_sectors > 0
                && items[i].start_sector + items[i].num_sectors >= total;
        let x = items[wit];
        assert(items.contains(x));
        crate::mapping::lemma_sort_contains(items, x);
        let sorted = crate::mapping::spec_sort_by_start(items);
        let k = choose|k: int| 0 <= k < sorted.len() && sorted[k] == x;
        sorted.lemma_filter_contains(|it: LoopMappingItem| it.num_sectors > 0, k);
        let nz = crate::device::nonzero_items(sorted);
        assert(nz.contains(x));
        let w = choose|w: int| 0 <= w < nz.len() && nz[w] == x;
        assert(crate::device::materializes(store, x, dev.table@[w]));
        crate::mapping::lemma_item_end_bounded(dev.table@, w);
        assert(dev.table@[w].spec_end_sector() >= total);
        assert(crate::mapping::table_end(dev.table@) == dev.media.last_block);
    }
}


/// What a successful attach leaves on the device: media present with the
/// requested partition flag; ISO9660 detection forces read-only whatever
/// the caller asked; and with no rules, the device is the image file's
/// whole-sector prefix as one segment.
pub open spec fn attached_media_ok(
    store: FileStore,
    image_path: Seq<u16>,
    read_only: bool,
    is_partition: bool,
    no_patch: bool,
    d: LoopProtocol,
) -> bool {
    &&& d.media.media_present
    &&& d.media.logical_partition == is_partition
    &&& spec_resolve(store, 0, image_path) is Some
    &&& {
        let res = spec_resolve(store, 0, image_path).unwrap();
        let data = store.devices@[store.spec_device_index(
            res.fs_device,
        ).unwrap()].files@[res.file_index as int].data@;
        &&& (spec_is_iso(data) ==> d.media.read_only)
        &&& (!spec_is_iso(data) ==> d.media.read_only == read_only)
        &&& (no_patch ==> {
            &&& d.media.last_block == res.file_size / (SECTOR_SIZE as u64)
            &&& d.table@.len() == 1
            &&& d.table@[0].start_sector == 0
            &&& d.table@[0].num_sectors == res.file_size / (SECTOR_SIZE as u64)
            &&& d.table@[0].target_start_sector == 0
            &&& match d.table@[0].target {
                PrivTarget::File {
                    fs_device: fd,
                    path: p,
                    file_index: fi,
                    interface: itf,
                    file_size: fsz,
                } => fd == res.fs_device && p@ == image_path && fi == res.file_index && itf
                    == res.interface && fsz == res.file_size,
                _ => false,
            }
        })
    }
}

/// Attach an image to a loopback device: the one named by `id`, cleared
/// first, or a free one from the controller.
#[verifier::rlimit(60)]
pub fn attach_loop_device(
    ctl: &mut LoopControlProtocol,
    store: &FileStore,
    id: Option<u32>,
    read_only: bool,
    is_partition: bool,
    patch: &Vec<(String, Vec<PatchAction>)>,
    image_path: &Vec<u16>,
) -> (r: Result<u64, LoopError>)
    requires
        old(ctl).wf(),
        store.wf(),
    ensures
        final(ctl).wf(),
        r matches Ok(h) ==> final(ctl).spec_find_handle(h) is Some && attached_media_ok(
            *store,
            image_path@,
            read_only,
            is_partition,
            patch@.len() == 0,
            final(ctl).children@[final(ctl).spec_find_handle(h).unwrap()].device,
        ) && final(ctl).children@[final(ctl).spec_find_handle(h).unwrap()].device.media.last_block
            >= spec_resolve(*store, 0, image_path@).unwrap().file_size / (SECTOR_SIZE as u64),
        (match id {
            Some(n) => old(ctl).spec_find_unit(n) is None,
            None => false,
        }) ==> r == Err::<u64, LoopError>(LoopError::NotFound) && *final(ctl) == *old(ctl),
        ({
            let ready = match id {
                Some(n) => old(ctl).spec_find_unit(n) is Some,
                None => !(crate::controller::spec_scan_free(old(ctl).children@, 0, 0) is Err)
                    && old(ctl).next_device_id < u64::MAX && old(ctl).db.next_handle < u64::MAX,
            };
            (patch@.len() == 0 && spec_resolve(*store, 0, image_path@) is Some && ready) ==> r
                is Ok
        }),
{
    let handle = match id {
        Some(n) => match ctl.find(n) {
            Err(e) => {
                return Err(e);
            },
            Ok(h) => h,
        },
        None => match ctl.get_free() {
            Err(e) => {
                return Err(e);
            },
            Ok(h) => h,
        },
    };
    proof {
        assert(ctl.spec_find_handle(handle) is Some) by {
            match id {
                Some(n) => {
                    let i = old(ctl).spec_find_unit(n).unwrap();
                    assert(ctl.children@[i].handle == handle);
                },
                None => {
                    match crate::controller::spec_scan_free(old(ctl).children@, 0, 0) {
                        Ok((existing, v)) => {
                            if existing {
                                crate::controller::lemma_scan_free_ok_bounds(
                                    old(ctl).children@,
                                    0,
                                    0,
                                );
                                assert(ctl.children@[v].handle == handle);
                            } else {
                                let pos = crate::controller::spec_pos_in(
                                    old(ctl).children@,
                                    v as u32,
                                );
                                crate::controller::lemma_pos_in_bounds(
                                    old(ctl).children@,
                                    v as u32,
                                );
                                assert(ctl.children@[pos].handle == handle);
                            }
                        },
                        Err(_) => {
                            assert(false);
                        },
                    }
                },
            }
        }
    }
    let mut idx: usize = 0;
    while idx < ctl.children.len() && ctl.children[idx].handle != handle
        invariant
            ctl.wf(),
            idx <= ctl.children@.len(),
            ctl.spec_find_handle(handle) is Some,
            forall|k: int| 0 <= k < idx ==> (#[trigger] ctl.children@[k]).handle != handle,
        decreases ctl.children@.len() - idx,
    {
        idx = idx + 1;
    }
    if idx >= ctl.children.len() {
        proof {
            let w = ctl.spec_find_handle(handle).unwrap();
            assert(ctl.children@[w].handle == handle);
            assert(false);
        }
        return Err(LoopError::NotFound);
    }
    let ghost mid = *ctl;
    let mut entry = ctl.children.remove(idx);
    if id.is_some() {
        entry.device.clear();
    }
    let res = attach_to_device(
        &mut entry.device,
        store,
        read_only,
        is_partition,
        patch,
        image_path,
    );
    ctl.children.insert(idx, entry);
    proof {
        let posi = idx as int;
        assert(ctl.children@ =~= mid.children@.update(posi, ctl.children@[posi]));
        assert(ctl.children@[posi].handle == mid.children@[posi].handle);
        assert(ctl.children@[posi].unit == mid.children@[posi].unit);
        assert(ctl.children@[posi].ctl_open == mid.children@[posi].ctl_open);
        assert(ctl.children@[posi].device.unit_number
            == mid.children@[posi].device.unit_number);
        assert(ctl.children@[posi].device.device_id == mid.children@[posi].device.device_id);
        assert(ctl.wf()) by {
            assert forall|i: int, j: int|
                0 <= i < j < ctl.children@.len() implies ctl.children@[i].unit
                < ctl.children@[j].unit && ctl.children@[i].handle != ctl.children@[j].handle
                && ctl.children@[i].device.device_id != ctl.children@[j].device.device_id by {
                assert(ctl.children@[i].unit == mid.children@[i].unit);
                assert(ctl.children@[j].unit == mid.children@[j].unit);
                assert(ctl.children@[i].handle == mid.children@[i].handle);
                assert(ctl.children@[j].handle == mid.children@[j].handle);
                assert(ctl.children@[i].device.device_id == mid.children@[i].device.device_id);
                assert(ctl.children@[j].device.device_id == mid.children@[j].device.device_id);
            }
            assert forall|i: int|
                0 <= i < ctl.children@.len() implies (#[trigger] ctl.children@[i]).device.wf()
                && ctl.children@[i].device.unit_number == ctl.children@[i].unit
                && ctl.children@[i].ctl_open && ctl.children@[i].handle != 0
                && ctl.children@[i].handle != ctl.bus_handle
                && ctl.children@[i].device.device_id != 0
                && ctl.children@[i].device.device_id < ctl.next_device_id && ctl.db.spec_has(
                ctl.children@[i].handle,
                crate::controller::LOOP_PROTOCOL_GUID,
            ) && ctl.db.spec_has(
                ctl.children@[i].handle,
                crate::controller::DEVICE_PATH_PROTOCOL_GUID,
            ) && ctl.db.spec_has(
                ctl.children@[i].handle,
                crate::controller::BLOCK_IO_PROTOCOL_GUID,
            ) by {
                if i != posi {
                    assert(ctl.children@[i] == mid.children@[i]);
                }
            }
        }
    }
    match res {
        Ok(()) => {
            proof {
                assert(ctl.spec_find_handle(handle) is Some) by {
                    assert(ctl.children@[idx as int].handle == handle);
                }
                let w = ctl.spec_find_handle(handle).unwrap();
                assert(ctl.children@[w].handle == handle);
                if w != idx as int {
                    assert(false);
                }
            }
            Ok(handle)
        },
        Err(e) => Err(e),
    }
}

/// Detach the loopback device with the given unit number: drop its table
/// and mark its media absent.
#[verifier::rlimit(60)]
pub fn detach_loop_device(ctl: &mut LoopControlProtocol, id: u32) -> (r: Result<(), LoopError>)
    requires
        old(ctl).wf(),
    ensures
        final(ctl).wf(),
        r is Ok <==> old(ctl).spec_find_unit(id) is Some,
        r matches Ok(()) ==> {
            &&& final(ctl).spec_find_unit(id) is Some
            &&& final(ctl).children@[final(ctl).spec_find_unit(id).unwrap()].device.spec_is_free()
        },
        r matches Err(e) ==> e == LoopError::NotFound && *final(ctl) == *old(ctl),
{
    let handle = match ctl.find(id) {
        Err(e) => {
            return Err(e);
        },
        Ok(h) => h,
    };
    proof {
        let i = ctl.spec_find_unit(id).unwrap();
        assert(ctl.children@[i].handle == handle);
        assert(ctl.spec_find_handle(handle) is Some);
    }
    let mut idx: usize = 0;
    while idx < ctl.children.len() && ctl.children[idx].handle != handle
        invariant
            ctl.wf(),
            idx <= ctl.children@.len(),
            ctl.spec_find_handle(handle) is Some,
            forall|k: int| 0 <= k < idx ==> (#[trigger] ctl.children@[k]).handle != handle,
        decreases ctl.children@.len() - idx,
    {
        idx = idx + 1;
    }
    if idx >= ctl.children.len() {
        proof {
            let w = ctl.spec_find_handle(handle).unwrap();
            assert(ctl.children@[w].handle == handle);
            assert(false);
        }
        return Err(LoopError::NotFound);
    }
    let ghost mid = *ctl;
    let mut entry = ctl.children.remove(idx);
    entry.device.clear();
    ctl.children.insert(idx, entry);
    proof {
        let posi = idx as int;
        assert(ctl.children@ =~= mid.children@.update(posi, ctl.children@[posi]));
        assert(ctl.wf()) by {
            assert forall|i: int, j: int|
                0 <= i < j < ctl.children@.len() implies ctl.children@[i].unit
                < ctl.children@[j].unit && ctl.children@[i].handle != ctl.children@[j].handle
                && ctl.children@[i].device.device_id != ctl.children@[j].device.device_id by {
                assert(ctl.children@[i].unit == mid.children@[i].unit);
                assert(ctl.children@[j].unit == mid.children@[j].unit);
                assert(ctl.children@[i].handle == mid.children@[i].handle);
                assert(ctl.children@[j].handle == mid.children@[j].handle);
                assert(ctl.children@[i].device.device_id == mid.children@[i].device.device_id);
                assert(ctl.children@[j].device.device_id == mid.children@[j].device.device_id);
            }
            assert forall|i: int|
                0 <= i < ctl.children@.len() implies (#[trigger] ctl.children@[i]).device.wf()
                && ctl.children@[i].device.unit_number == ctl.children@[i].unit
                && ctl.children@[i].ctl_open && ctl.children@[i].handle != 0
                && ctl.children@[i].handle != ctl.bus_handle
                && ctl.children@[i].device.device_id != 0
                && ctl.children@[i].device.device_id < ctl.next_device_id && ctl.db.spec_has(
                ctl.children@[i].handle,
                crate::controller::LOOP_PROTOCOL_GUID,
            ) && ctl.db.spec_has(
                ctl.children@[i].handle,
                crate::controller::DEVICE_PATH_PROTOCOL_GUID,
            ) && ctl.db.spec_has(
                ctl.children@[i].handle,
                crate::controller::BLOCK_IO_PROTOCOL_GUID,
            ) by {
                if i != posi {
                    assert(ctl.children@[i] == mid.children@[i]);
                }
            }
        }
        assert(ctl.spec_find_unit(id) is Some) by {
            assert(ctl.children@[posi].unit == id);
        }
        let w = ctl.spec_find_unit(id).unwrap();
        assert(ctl.children@[w].unit == id);
        if w != posi {
            assert(false);
        }
    }
    Ok(())
}

/// Report every loopback device the controller holds, in unit order.
pub fn list_loop_devices(ctl: &LoopControlProtocol) -> (r: Vec<crate::device::LoopInfo>)
    ensures
        r@.len() == ctl.children@.len(),
        forall|k: int|
            0 <= k < r@.len() ==> (#[trigger] r@[k]).unit_number
                == ctl.children@[k].device.unit_number,
{
    let mut r: Vec<crate::device::LoopInfo> = Vec::new();
    let mut i: usize = 0;
    while i < ctl.children.len()
        invariant
            i <= ctl.children@.len(),
            r@.len() == i,
            forall|k: int|
                0 <= k < i ==> (#[trigger] r@[k]).unit_number
                    == ctl.children@[k].device.unit_number,
        decreases ctl.children@.len() - i,
    {
        r.push(ctl.children[i].device.get_info());
        i = i + 1;
    }
    r
}

} // verus!
