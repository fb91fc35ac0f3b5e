//! The ISO9660 walker: volume-descriptor scan and directory traversal over
//! an in-memory image.
//!
//! The volume-descriptor sequence begins at block 16; each descriptor is a
//! 2048-byte block opening with a one-byte type, the literal identifier
//! `CD001` and version 1. Type 1 is the Primary Volume Descriptor, type 255
//! the terminator. Directory records are parsed for their extent, size,
//! flags and name; records never cross a logical-block boundary.

use vstd::prelude::*;
use crate::ISO_BLOCK_SIZE;
use crate::status::LoopError;

verus! {

/// A 32-bit little-endian value read out of the image.
pub open spec fn spec_le32(img: Seq<u8>, off: int) -> int {
    img[off] + img[off + 1] * 0x100 + img[off + 2] * 0x10000 + img[off + 3] * 0x1000000
}

/// The block at `blk` opens with the `CD001` identifier at version 1.
pub open spec fn vd_header_ok(img: Seq<u8>, blk: int) -> bool {
    let p = blk * (ISO_BLOCK_SIZE as int);
    &&& img[p + 1] == 0x43
    &&& img[p + 2] == 0x44
    &&& img[p + 3] == 0x30
    &&& img[p + 4] == 0x30
    &&& img[p + 5] == 0x31
    &&& img[p + 6] == 1
}

/// The volume-descriptor scan from block `blk` upward: stop at the Primary
/// Volume Descriptor, fail at the terminator, on a malformed header, or at
/// the end of the image.
pub open spec fn spec_pvd_scan(img: Seq<u8>, blk: int) -> Result<int, LoopError>
    decreases img.len() - blk * (ISO_BLOCK_SIZE as int),
{
    let p = blk * (ISO_BLOCK_SIZE as int);
    if p < 0 || p + (ISO_BLOCK_SIZE as int) > img.len() {
        Err(LoopError::DeviceError)
    } else if !vd_header_ok(img, blk) {
        Err(LoopError::Aborted)
    } else if img[p] == 255 {
        Err(LoopError::NotFound)
    } else if img[p] == 1 {
        Ok(p)
    } else {
        spec_pvd_scan(img, blk + 1)
    }
}

/// One directory record met during a walk, with its presentable path.
pub struct WalkRecordInfo {
    /// Byte offset of the record within the image.
    pub record_position: u64,
    /// Length of the record in bytes.
    pub record_size: usize,
    /// Byte offset of the record's extent within the image.
    pub extent_position: u64,
    /// Length of the extent in bytes.
    pub extent_size: usize,
    /// The presentable path: parent path, a slash, and the record's name
    /// with any trailing version suffix stripped.
    pub path: Vec<u8>,
    /// Whether the record describes a directory.
    pub is_dir: bool,
    /// The version suffix of a file record; 1 when absent, 0 for
    /// directories.
    pub file_version: u16,
}

/// The geometric fields of a reported record decode from the image at its
/// position.
pub open spec fn record_fields_ok(img: Seq<u8>, r: WalkRecordInfo) -> bool {
    &&& r.record_position + r.record_size <= img.len()
    &&& r.record_size >= 34
    &&& r.is_dir == ((img[r.record_position + 25] & 2) != 0)
    &&& r.extent_position == spec_le32(img, r.record_position + 2) * (ISO_BLOCK_SIZE as int)
    &&& r.extent_size == spec_le32(img, r.record_position + 10)
}

/// An ISO9660 image held in memory.
pub struct ISO9660 {
    pub image: Vec<u8>,
}

impl ISO9660 {
    /// Wrap an image after checking the first volume descriptor's
    /// identifier and version at block 16.
    pub fn new(image: Vec<u8>) -> (r: Result<ISO9660, LoopError>)
        ensures
            match r {
                Ok(iso) => {
                    &&& iso.image@ == image@
                    &&& 17 * (ISO_BLOCK_SIZE as int) <= image@.len()
                    &&& vd_header_ok(image@, 16)
                },
                Err(e) => {
                    &&& (e == LoopError::DeviceError || e == LoopError::Aborted)
                    &&& (e == LoopError::DeviceError <==> 17 * (ISO_BLOCK_SIZE as int)
                        > image@.len())
                    &&& (e == LoopError::Aborted ==> !vd_header_ok(image@, 16))
                },
            },
    {
        let base = 16 * ISO_BLOCK_SIZE;
        if image.len() < base + ISO_BLOCK_SIZE {
            return Err(LoopError::DeviceError);
        }
        if image[base + 1] != 0x43 || image[base + 2] != 0x44 || image[base + 3] != 0x30
            || image[base + 4] != 0x30 || image[base + 5] != 0x31 || image[base + 6] != 1 {
            return Err(LoopError::Aborted);
        }
        Ok(ISO9660 { image })
    }

    /// Read `len` bytes at `position`; a read past the end of the image
    /// fails as the device would.
    pub fn read(&self, position: u64, len: usize) -> (r: Result<Vec<u8>, LoopError>)
        ensures
            match r {
                Ok(d) => {
                    &&& position + len <= self.image@.len()
                    &&& d@ == self.image@.subrange(position as int, position + len)
                },
                Err(e) => {
                    &&& e == LoopError::DeviceError
                    &&& position + len > self.image@.len()
                },
            },
    {
        if position > self.image.len() as u64 || len as u64 > self.image.len() as u64 - position {
            return Err(LoopError::DeviceError);
        }
        let start = position as usize;
        let il = self.image.len();
        let mut d: Vec<u8> = Vec::new();
        let mut i: usize = 0;
        while i < len
            invariant
                i <= len,
                il == self.image@.len(),
                start + len <= il,
                d@.len() == i,
                forall|j: int| 0 <= j < i ==> d@[j] == self.image@[start + j],
            decreases len - i,
        {
            d.push(self.image[start + i]);
            i = i + 1;
        }
        proof {
            assert(d@ =~= self.image@.subrange(position as int, position + len));
        }
        Ok(d)
    }

    /// Scan the volume-descriptor sequence from block 16 for the Primary
    /// Volume Descriptor and return its byte position.
    pub fn find_pvd_position(&self) -> (r: Result<u64, LoopError>)
        ensures
            match spec_pvd_scan(self.image@, 16) {
                Ok(p) => r == Ok::<u64, LoopError>(p as u64),
                Err(e) => r == Err::<u64, LoopError>(e),
            },
    {
        let il = self.image.len();
        let mut start: usize = 16;
        loop
            invariant
                16 <= start,
                il == self.image@.len(),
                spec_pvd_scan(self.image@, start as int) == spec_pvd_scan(self.image@, 16),
            decreases self.image@.len() + (ISO_BLOCK_SIZE as int) - start * (ISO_BLOCK_SIZE as int),
        {
            let p = match start.checked_mul(ISO_BLOCK_SIZE) {
                Some(p) => p,
                None => {
                    proof {
                        assert(start * (ISO_BLOCK_SIZE as int) > usize::MAX);
                        assert((start as int) * (ISO_BLOCK_SIZE as int) > il as int);
                    }
                    return Err(LoopError::DeviceError);
                },
            };
            if p > self.image.len() || ISO_BLOCK_SIZE > self.image.len() - p {
                return Err(LoopError::DeviceError);
            }
            if self.image[p + 1] != 0x43 || self.image[p + 2] != 0x44 || self.image[p + 3] != 0x30
                || self.image[p + 4] != 0x30 || self.image[p + 5] != 0x31 || self.image[p + 6]
                != 1 {
                return Err(LoopError::Aborted);
            }
            let vd_type = self.image[p];
            if vd_type == 255 {
                return Err(LoopError::NotFound);
            }
            if vd_type == 1 {
                return Ok(p as u64);
            }
            start = start + 1;
        }
    }

    /// Position and size of the root directory record inside the Primary
    /// Volume Descriptor.
    pub fn find_root_record(&self) -> (r: Result<(u64, usize), LoopError>)
        ensures
            match spec_pvd_scan(self.image@, 16) {
                Ok(p) => r == Ok::<(u64, usize), LoopError>(((p + 156) as u64, 34usize)),
                Err(e) => r == Err::<(u64, usize), LoopError>(e),
            },
    {
        let il = self.image.len();
        let pvd_pos = match self.find_pvd_position() {
            Ok(p) => p,
            Err(e) => {
                return Err(e);
            },
        };
        proof {
            lemma_pvd_scan_bounds(self.image@, 16);
            assert(pvd_pos + (ISO_BLOCK_SIZE as int) <= il as int);
        }
        Ok((pvd_pos + 156, 34))
    }
}

/// A successful scan lands inside the image.
pub proof fn lemma_pvd_scan_bounds(img: Seq<u8>, blk: int)
    requires
        blk >= 0,
    ensures
        spec_pvd_scan(img, blk) matches Ok(p) ==> 0 <= p && p + (ISO_BLOCK_SIZE as int)
            <= img.len(),
    decreases img.len() - blk * (ISO_BLOCK_SIZE as int),
{
    let p = blk * (ISO_BLOCK_SIZE as int);
    if p < 0 || p + (ISO_BLOCK_SIZE as int) > img.len() {
    } else if !vd_header_ok(img, blk) {
    } else if img[p] == 255 {
    } else if img[p] == 1 {
    } else {
        lemma_pvd_scan_bounds(img, blk + 1);
    }
}


/// Read a 32-bit little-endian value from a record buffer.
fn le32(rec: &Vec<u8>, off: usize) -> (r: u32)
    requires
        off + 4 <= rec@.len(),
        off <= 0x10000,
    ensures
        r as int == spec_le32(rec@, off as int),
{
    (rec[off] as u32) + (rec[off + 1] as u32) * 0x100 + (rec[off + 2] as u32) * 0x10000 + (rec[off
        + 3] as u32) * 0x1000000
}

/// Element-wise copy of a byte vector.
pub fn copy_u8_vec(v: &Vec<u8>) -> (r: Vec<u8>)
    ensures
        r@ == v@,
{
    let mut r: Vec<u8> = Vec::new();
    let mut i: usize = 0;
    while i < v.len()
        invariant
            i <= v@.len(),
            r@ == v@.subrange(0, i as int),
        decreases v@.len() - i,
    {
        r.push(v[i]);
        proof {
            assert(r@ =~= v@.subrange(0, (i + 1) as int));
        }
        i = i + 1;
    }
    proof {
        assert(v@.subrange(0, v@.len() as int) =~= v@);
    }
    r
}

impl ISO9660 {
    /// Visit the directory record at `record_position` and, for a
    /// directory, every record of its extent in order, skipping the first
    /// two entries of each directory by count. Each visited record is
    /// appended to `out` with its decoded geometry and presentable path.
    /// `depth` bounds the recursion; the format itself limits the hierarchy
    /// to eight levels.
    #[verifier::rlimit(100)]
    #[verifier::spinoff_prover]
    pub fn walk_record(
        &self,
        record_position: u64,
        record_size: usize,
        parent_path: &Vec<u8>,
        depth: u32,
        out: &mut Vec<WalkRecordInfo>,
    ) -> (r: Result<(), LoopError>)
        requires
            parent_path@.len() + 300 * (depth as int) <= 0x1000_0000,
        ensures
            final(out)@.len() >= old(out)@.len(),
            forall|k: int| 0 <= k < old(out)@.len() ==> final(out)@[k] == old(out)@[k],
            forall|k: int|
                old(out)@.len() <= k < final(out)@.len() ==> record_fields_ok(
                    self.image@,
                    #[trigger] final(out)@[k],
                ),
            r is Ok ==> {
                &&& final(out)@.len() > old(out)@.len()
                &&& final(out)@[old(out)@.len() as int].record_position == record_position
                &&& final(out)@[old(out)@.len() as int].record_size == record_size
                &&& (
                final(out)@[old(out)@.len() as int].path@,
                final(out)@[old(out)@.len() as int].file_version,
                ) == spec_record_report(self.image@, record_position as int, parent_path@)
            },
            r is Ok ==> depth > 0 && record_size >= 34 && record_position + record_size
                <= self.image@.len() && 33 + self.image@[record_position as int + 32]
                <= record_size,
            (depth > 0 && record_size >= 34 && record_position + record_size
                <= self.image@.len() && 33 + self.image@[record_position as int + 32]
                <= record_size && (self.image@[record_position as int + 25] & 2) == 0) ==> r
                is Ok,
        decreases depth,
    {
        if depth == 0 {
            return Err(LoopError::Aborted);
        }
        if record_size < 34 {
            return Err(LoopError::Aborted);
        }
        let rec = match self.read(record_position, record_size) {
            Err(e) => {
                return Err(e);
            },
            Ok(d) => d,
        };
        let file_flags = rec[25];
        let is_dir = (file_flags & 2) != 0;
        let id_len = rec[32] as usize;
        if record_size - 33 < id_len {
            proof {
                assert(rec@[32] == self.image@[record_position as int + 32]);
            }
            return Err(LoopError::Aborted);
        }
        // the record's name, truncated at an embedded NUL
        let ghost name = rec@.subrange(33, 33 + id_len as int);
        let mut nul: usize = id_len;
        let mut i: usize = 0;
        while i < id_len
            invariant
                i <= id_len,
                id_len <= 255,
                33 + id_len <= rec@.len(),
                name == rec@.subrange(33, 33 + id_len as int),
                nul <= id_len,
                nul == id_len ==> forall|k: int| 0 <= k < i ==> name[k] != 0,
                nul < id_len ==> (nul as int) < i && name[nul as int] == 0 && forall|k: int|
                    0 <= k < nul ==> name[k] != 0,
            decreases id_len - i,
        {
            proof {
                assert(name[i as int] == rec@[33 + i]);
            }
            if rec[33 + i] == 0 && nul == id_len {
                nul = i;
            }
            i = i + 1;
        }
        proof {
            lemma_first_nul(name);
            assert(nul as int == spec_first_nul(name)) by {
                let fnl = spec_first_nul(name);
                if nul == id_len {
                    if fnl < name.len() {
                        assert(name[fnl] == 0);
                    }
                } else {
                    if fnl < nul as int {
                        assert(name[fnl] == 0);
                    }
                    if fnl > nul as int {
                        assert(name[nul as int] != 0);
                    }
                }
            }
        }
        let mut id: Vec<u8> = Vec::new();
        let mut i2: usize = 0;
        while i2 < nul
            invariant
                i2 <= nul <= id_len,
                id_len <= 255,
                33 + id_len <= rec@.len(),
                name == rec@.subrange(33, 33 + id_len as int),
                id@ == name.subrange(0, i2 as int),
            decreases nul - i2,
        {
            proof {
                assert(name[i2 as int] == rec@[33 + i2]);
            }
            id.push(rec[33 + i2]);
            proof {
                assert(id@ =~= name.subrange(0, (i2 + 1) as int));
            }
            i2 = i2 + 1;
        }
        proof {
            assert(id@ == name.subrange(0, spec_first_nul(name)));
        }
        // the presentable path: parent, slash, name; extra slashes trimmed
        let mut path: Vec<u8> = Vec::new();
        if id.len() > 0 || parent_path.len() > 0 {
            let mut pe: usize = parent_path.len();
            while pe > 0 && parent_path[pe - 1] == 0x2f
                invariant
                    pe <= parent_path@.len(),
                    forall|k: int|
                        pe <= k < parent_path@.len() ==> parent_path@[k] == 0x2f,
                decreases pe,
            {
                pe = pe - 1;
            }
            proof {
                lemma_trim_trailing(parent_path@, pe as int);
            }
            let mut su: usize = 0;
            while su < id.len() && id[su] == 0x2f
                invariant
                    su <= id@.len(),
                    forall|k: int| 0 <= k < su ==> id@[k] == 0x2f,
                decreases id@.len() - su,
            {
                su = su + 1;
            }
            proof {
                lemma_trim_leading(id@, su as int);
            }
            let mut c: usize = 0;
            while c < pe
                invariant
                    c <= pe <= parent_path@.len(),
                    path@ == parent_path@.subrange(0, c as int),
                decreases pe - c,
            {
                path.push(parent_path[c]);
                proof {
                    assert(path@ =~= parent_path@.subrange(0, (c + 1) as int));
                }
                c = c + 1;
            }
            path.push(0x2f);
            let mut c2: usize = su;
            while c2 < id.len()
                invariant
                    su <= c2 <= id@.len(),
                    pe <= parent_path@.len(),
                    id@.len() <= 255,
                    path@ == parent_path@.subrange(0, pe as int) + seq![0x2fu8] + id@.subrange(
                        su as int,
                        c2 as int,
                    ),
                decreases id@.len() - c2,
            {
                path.push(id[c2]);
                proof {
                    assert(path@ =~= parent_path@.subrange(0, pe as int) + seq![0x2fu8]
                        + id@.subrange(su as int, (c2 + 1) as int));
                }
                c2 = c2 + 1;
            }
            proof {
                assert(id@.subrange(su as int, id@.len() as int) == spec_trim_leading_slash(id@));
                assert(path@ == spec_raw_path(parent_path@, id@));
            }
        } else {
            proof {
                assert(path@ =~= spec_raw_path(parent_path@, id@));
            }
        }
        let ghost raw = path@;
        let extent_lba = le32(&rec, 2);
        let extent_size_32 = le32(&rec, 10);
        let extent_position = (extent_lba as u64) * (ISO_BLOCK_SIZE as u64);
        let extent_size = extent_size_32 as usize;
        let mut file_version: u16 = if is_dir {
            0
        } else {
            1
        };
        if !is_dir {
            // strip a trailing decimal version after the last semicolon
            let mut semi: usize = path.len();
            let mut si: usize = 0;
            while si < path.len()
                invariant
                    path@ == raw,
                    si <= path@.len(),
                    semi <= path@.len(),
                    semi == path@.len() ==> forall|k: int| 0 <= k < si ==> path@[k] != 0x3b,
                    semi < path@.len() ==> (semi as int) < si && path@[semi as int] == 0x3b
                        && forall|k: int| semi < k < si ==> path@[k] != 0x3b,
                decreases path@.len() - si,
            {
                if path[si] == 0x3b {
                    semi = si;
                }
                si = si + 1;
            }
            proof {
                lemma_last_semi(raw);
                match spec_last_semi(raw) {
                    Some(x) => {
                        assert((semi as int) < raw.len()) by {
                            if semi == path@.len() {
                                assert(path@[x] != 0x3b);
                                assert(raw[x] == 0x3b);
                            }
                        }
                        assert(x == semi as int) by {
                            assert(path@[semi as int] == 0x3b);
                            if x > semi as int {
                                assert(path@[x] != 0x3b);
                                assert(raw[x] == 0x3b);
                            }
                            if x < semi as int {
                                assert(raw[semi as int] == 0x3b);
                            }
                        }
                    },
                    None => {
                        assert(semi == path@.len()) by {
                            if (semi as int) < raw.len() {
                                assert(path@[semi as int] == 0x3b);
                                assert(raw[semi as int] != 0x3b);
                            }
                        }
                    },
                }
            }
            if semi < path.len() {
                let ghost digits = raw.subrange(semi as int + 1, raw.len() as int);
                let mut v: u32 = 0;
                let mut ok = semi + 1 < path.len();
                let mut di: usize = semi + 1;
                proof {
                    if !ok {
                        assert(digits.len() == 0);
                    }
                    assert(raw.subrange(semi as int + 1, semi as int + 1)
                        =~= Seq::<u8>::empty());
                }
                while di < path.len()
                    invariant
                        path@ == raw,
                        semi < di <= path@.len(),
                        (semi as int) < raw.len(),
                        digits == raw.subrange(semi as int + 1, raw.len() as int),
                        ok ==> {
                            &&& semi as int + 1 < raw.len()
                            &&& v == spec_digits_value(
                                raw.subrange(semi as int + 1, di as int),
                            )
                            &&& v <= 0xffff
                            &&& forall|k: int|
                                semi + 1 <= k < di ==> 0x30 <= #[trigger] raw[k] <= 0x39
                        },
                        !ok ==> !(spec_all_digits(digits) && spec_digits_value(digits)
                            <= 0xffff),
                    decreases path@.len() - di,
                {
                    if !ok {
                        di = path.len();
                    } else {
                        let b = path[di];
                        if b < 0x30 || b > 0x39 {
                            proof {
                                assert(digits[di - semi - 1] == raw[di as int]);
                            }
                            ok = false;
                            di = path.len();
                        } else {
                            let ghost pre_digits = raw.subrange(semi as int + 1, di as int);
                            v = v * 10 + (b - 0x30) as u32;
                            proof {
                                let now_digits = raw.subrange(
                                    semi as int + 1,
                                    (di + 1) as int,
                                );
                                assert(now_digits.drop_last() =~= pre_digits);
                                assert(now_digits.last() == raw[di as int]);
                            }
                            if v > 0xffff {
                                proof {
                                    if spec_all_digits(digits) {
                                        lemma_digits_monotone(digits, di + 1 - (semi + 1));
                                        assert(digits.subrange(0, di + 1 - (semi + 1))
                                            =~= raw.subrange(
                                            semi as int + 1,
                                            (di + 1) as int,
                                        ));
                                    }
                                }
                                ok = false;
                                di = path.len();
                            } else {
                                di = di + 1;
                            }
                        }
                    }
                }
                if ok {
                    proof {
                        assert(raw.subrange(semi as int + 1, raw.len() as int) =~= digits);
                        assert(spec_all_digits(digits)) by {
                            assert(digits.len() > 0);
                            assert(forall|k: int|
                                0 <= k < digits.len() ==> digits[k] == raw[semi + 1 + k]);
                        }
                        assert(v == spec_digits_value(digits));
                    }
                    file_version = v as u16;
                    path.truncate(semi);
                    proof {
                        assert(path@ =~= raw.subrange(0, semi as int));
                    }
                }
            }
        }
        proof {
            assert((path@, file_version) == spec_split_version(raw, is_dir));
        }
        let path_of_children = copy_u8_vec(&path);
        let ghost img = self.image@;
        let info = WalkRecordInfo {
            record_position,
            record_size,
            extent_position,
            extent_size,
            path,
            is_dir,
            file_version,
        };
        proof {
            assert(rec@[25] == img[record_position + 25]);
            assert(record_fields_ok(img, info)) by {
                assert(rec@[2] == img[record_position + 2]);
                assert(rec@[3] == img[record_position + 3]);
                assert(rec@[4] == img[record_position + 4]);
                assert(rec@[5] == img[record_position + 5]);
                assert(rec@[10] == img[record_position + 10]);
                assert(rec@[11] == img[record_position + 11]);
                assert(rec@[12] == img[record_position + 12]);
                assert(rec@[13] == img[record_position + 13]);
            }
            // the reported path and version are the record's own
            assert(rec@[32] == img[record_position + 32]);
            assert(name =~= img.subrange(
                record_position + 33,
                record_position + 33 + img[record_position as int + 32],
            ));
            assert(id@ == spec_record_id(img, record_position as int));
            assert((info.path@, info.file_version) == spec_record_report(
                img,
                record_position as int,
                parent_path@,
            ));
        }
        let ghost out0 = out@;
        out.push(info);
        let ghost rep = out@[out0.len() as int];
        if !is_dir {
            proof {
                assert(forall|k: int| 0 <= k < out0.len() ==> out@[k] == out0[k]);
            }
            return Ok(());
        }
        // directory: read its extent's records block by block
        let num_blocks = ((extent_size as u64) + (ISO_BLOCK_SIZE as u64) - 1) / (
        ISO_BLOCK_SIZE as u64);
        let ghost extent_end = extent_position + num_blocks * (ISO_BLOCK_SIZE as int);
        let mut block_num: u64 = 0;
        let mut count: u64 = 0;
        let mut position: u64 = extent_position;
        while block_num < num_blocks
            invariant
                parent_path@.len() + 300 * (depth as int) <= 0x1000_0000,
                path_of_children@.len() <= parent_path@.len() + 256,
                depth >= 1,
                record_size >= 34,
                record_position + record_size <= self.image@.len(),
                33 + self.image@[record_position as int + 32] <= record_size,
                (self.image@[record_position as int + 25] & 2) != 0,
                out0 == old(out)@,
                out@.len() > out0.len(),
                out@[out0.len() as int] == rep,
                rep.record_position == record_position,
                rep.record_size == record_size,
                (rep.path@, rep.file_version) == spec_record_report(
                    self.image@,
                    record_position as int,
                    parent_path@,
                ),
                extent_position <= position,
                extent_position + num_blocks * (ISO_BLOCK_SIZE as int) == extent_end,
                extent_position <= 0xffff_ffffu64 * (ISO_BLOCK_SIZE as int),
                num_blocks <= 0x1_0000_0000,
                block_num == (position - extent_position) as int / (ISO_BLOCK_SIZE as int),
                count <= position - extent_position + 1,
                out@.len() >= out0.len() + 1,
                forall|k: int| 0 <= k < out0.len() ==> out@[k] == out0[k],
                forall|k: int|
                    out0.len() <= k < out@.len() ==> record_fields_ok(
                        self.image@,
                        #[trigger] out@[k],
                    ),
            decreases (if position <= extent_end {
                extent_end - position
            } else {
                0int
            }),
        {
            proof {
                assert((position - extent_position) as int / (ISO_BLOCK_SIZE as int) < num_blocks
                    ==> position < extent_end) by (nonlinear_arith)
                    requires
                        block_num == (position - extent_position) as int / (ISO_BLOCK_SIZE as int),
                        block_num < num_blocks,
                        extent_end == extent_position + num_blocks * (ISO_BLOCK_SIZE as int),
                        position >= extent_position,
                        (ISO_BLOCK_SIZE as int) == 2048,
                ;
                assert(position < extent_end);
            }
            let size_b = match self.read(position, 1) {
                Err(e) => {
                    return Err(e);
                },
                Ok(d) => d[0],
            };
            count = count + 1;
            let size = size_b as u64;
            if size == 0 || (position % (ISO_BLOCK_SIZE as u64)) + 34 > (ISO_BLOCK_SIZE as u64) {
                // advance to the next logical-block boundary
                block_num = block_num + 1;
                let ghost oldpos = position;
                position = extent_position + block_num * (ISO_BLOCK_SIZE as u64);
                proof {
                    lemma_block_step(
                        extent_position as int,
                        oldpos as int,
                        (block_num - 1) as int,
                    );
                    assert(block_num == (position - extent_position) as int / (
                    ISO_BLOCK_SIZE as int)) by (nonlinear_arith)
                        requires
                            position == extent_position + block_num * (ISO_BLOCK_SIZE as int),
                            block_num >= 0,
                            (ISO_BLOCK_SIZE as int) == 2048,
                    ;
                }
            } else {
                if count > 2 {
                    let ghost pre = out@;
                    match self.walk_record(
                        position,
                        size as usize,
                        &path_of_children,
                        depth - 1,
                        out,
                    ) {
                        Err(e) => {
                            return Err(e);
                        },
                        Ok(()) => {},
                    }
                    proof {
                        assert(forall|k: int| 0 <= k < out0.len() ==> out@[k] == out0[k]);
                    }
                }
                position = position + size;
                block_num = (position - extent_position) / (ISO_BLOCK_SIZE as u64);
            }
        }
        Ok(())
    }
}

/// A position inside block `b` of an extent lies strictly before the next
/// block boundary.
proof fn lemma_block_step(base: int, pos: int, b: int)
    requires
        pos >= base,
        b == (pos - base) / (ISO_BLOCK_SIZE as int),
    ensures
        pos < base + (b + 1) * (ISO_BLOCK_SIZE as int),
{
    assert(pos < base + (b + 1) * 2048) by (nonlinear_arith)
        requires
            pos >= base,
            b == (pos - base) / 2048,
            ISO_BLOCK_SIZE as int == 2048,
    ;
}


/// Index of the first NUL in a name, or its length when none occurs.
pub open spec fn spec_first_nul(s: Seq<u8>) -> int
    decreases s.len(),
{
    if s.len() == 0 {
        0
    } else if s[0] == 0 {
        0
    } else {
        1 + spec_first_nul(s.drop_first())
    }
}

/// The first NUL's position is the unique cut point: everything before it
/// is nonzero, and it is a NUL unless the name has none.
pub proof fn lemma_first_nul(s: Seq<u8>)
    ensures
        0 <= spec_first_nul(s) <= s.len(),
        spec_first_nul(s) < s.len() ==> s[spec_first_nul(s)] == 0,
        forall|k: int| 0 <= k < spec_first_nul(s) ==> s[k] != 0,
    decreases s.len(),
{
    if s.len() > 0 && s[0] != 0 {
        lemma_first_nul(s.drop_first());
        assert forall|k: int| 0 <= k < spec_first_nul(s) implies s[k] != 0 by {
            if k > 0 {
                assert(s.drop_first()[k - 1] == s[k]);
                assert(s.drop_first()[k - 1] != 0);
            }
        }
    }
}

/// A path without its trailing slashes.
pub open spec fn spec_trim_trailing_slash(s: Seq<u8>) -> Seq<u8>
    decreases s.len(),
{
    if s.len() > 0 && s.last() == 0x2f {
        spec_trim_trailing_slash(s.drop_last())
    } else {
        s
    }
}

/// The trimmed path is the prefix left after the run of trailing slashes.
pub proof fn lemma_trim_trailing(s: Seq<u8>, p: int)
    requires
        0 <= p <= s.len(),
        forall|k: int| p <= k < s.len() ==> s[k] == 0x2f,
        p > 0 ==> s[p - 1] != 0x2f,
    ensures
        spec_trim_trailing_slash(s) == s.subrange(0, p),
    decreases s.len(),
{
    if s.len() > 0 && s.last() == 0x2f {
        assert(p < s.len()) by {
            if p == s.len() {
                assert(s[p - 1] != 0x2f);
            }
        }
        lemma_trim_trailing(s.drop_last(), p);
        assert(s.drop_last().subrange(0, p) =~= s.subrange(0, p));
    } else {
        assert(p == s.len()) by {
            if p < s.len() {
                assert(s[s.len() - 1] == 0x2f);
            }
        }
        assert(s.subrange(0, p) =~= s);
    }
}

/// A name without its leading slashes.
pub open spec fn spec_trim_leading_slash(s: Seq<u8>) -> Seq<u8>
    decreases s.len(),
{
    if s.len() > 0 && s[0] == 0x2f {
        spec_trim_leading_slash(s.drop_first())
    } else {
        s
    }
}

/// The trimmed name is the suffix after the run of leading slashes.
pub proof fn lemma_trim_leading(s: Seq<u8>, p: int)
    requires
        0 <= p <= s.len(),
        forall|k: int| 0 <= k < p ==> s[k] == 0x2f,
        p < s.len() ==> s[p] != 0x2f,
    ensures
        spec_trim_leading_slash(s) == s.subrange(p, s.len() as int),
    decreases s.len(),
{
    if s.len() > 0 && s[0] == 0x2f {
        assert(p > 0);
        lemma_trim_leading(s.drop_first(), p - 1);
        assert(s.drop_first().subrange(p - 1, s.len() - 1) =~= s.subrange(p, s.len() as int));
        assert(forall|k: int| 0 <= k < p - 1 ==> s.drop_first()[k] == s[k + 1]);
    } else {
        assert(p == 0) by {
            if p > 0 {
                assert(s[0] == 0x2f);
            }
        }
        assert(s.subrange(0, s.len() as int) =~= s);
    }
}

/// The presentable path before any version split: parent and name joined
/// by one slash, extra slashes at the seam dropped; the root keeps an
/// empty path.
pub open spec fn spec_raw_path(parent: Seq<u8>, id: Seq<u8>) -> Seq<u8> {
    if id.len() == 0 && parent.len() == 0 {
        Seq::empty()
    } else {
        spec_trim_trailing_slash(parent) + seq![0x2fu8] + spec_trim_leading_slash(id)
    }
}

/// Position of the last semicolon, if any.
pub open spec fn spec_last_semi(s: Seq<u8>) -> Option<int>
    decreases s.len(),
{
    if s.len() == 0 {
        None
    } else if s.last() == 0x3b {
        Some(s.len() - 1)
    } else {
        spec_last_semi(s.drop_last())
    }
}

/// The last semicolon's position is exactly the rightmost one.
pub proof fn lemma_last_semi(s: Seq<u8>)
    ensures
        match spec_last_semi(s) {
            Some(x) => 0 <= x < s.len() && s[x] == 0x3b && forall|k: int|
                x < k < s.len() ==> s[k] != 0x3b,
            None => forall|k: int| 0 <= k < s.len() ==> s[k] != 0x3b,
        },
    decreases s.len(),
{
    if s.len() > 0 && s.last() != 0x3b {
        lemma_last_semi(s.drop_last());
        assert(forall|k: int| 0 <= k < s.len() - 1 ==> s.drop_last()[k] == s[k]);
    }
}

/// Whether a byte string is one or more decimal digits.
pub open spec fn spec_all_digits(s: Seq<u8>) -> bool {
    s.len() > 0 && forall|k: int| 0 <= k < s.len() ==> 0x30 <= #[trigger] s[k] <= 0x39
}

/// The number a decimal digit string denotes.
pub open spec fn spec_digits_value(s: Seq<u8>) -> int
    decreases s.len(),
{
    if s.len() == 0 {
        0
    } else {
        spec_digits_value(s.drop_last()) * 10 + (s.last() - 0x30)
    }
}

/// A digit string's value only grows with more digits.
pub proof fn lemma_digits_monotone(s: Seq<u8>, p: int)
    requires
        0 <= p <= s.len(),
        forall|k: int| 0 <= k < s.len() ==> 0x30 <= #[trigger] s[k] <= 0x39,
    ensures
        spec_digits_value(s) >= spec_digits_value(s.subrange(0, p)),
        spec_digits_value(s) >= 0,
    decreases s.len(),
{
    if s.len() == 0 {
        assert(s.subrange(0, p) =~= s);
    } else {
        let dl = s.drop_last();
        assert(forall|k: int| 0 <= k < dl.len() ==> dl[k] == s[k]);
        lemma_digits_monotone(dl, if p <= dl.len() {
            p
        } else {
            dl.len() as int
        });
        if p <= dl.len() {
            assert(dl.subrange(0, p) =~= s.subrange(0, p));
        } else {
            assert(s.subrange(0, p) =~= s);
        }
    }
}

/// The version a file path carries, and the path left once it is split
/// off: a trailing `;digits` suffix that fits 16 bits names the version;
/// anything else leaves the path whole at version 1. Directories are
/// version 0.
pub open spec fn spec_split_version(raw: Seq<u8>, is_dir: bool) -> (Seq<u8>, u16) {
    if is_dir {
        (raw, 0u16)
    } else {
        match spec_last_semi(raw) {
            None => (raw, 1u16),
            Some(si) => {
                let digits = raw.subrange(si + 1, raw.len() as int);
                if spec_all_digits(digits) && spec_digits_value(digits) <= 0xffff {
                    (raw.subrange(0, si), spec_digits_value(digits) as u16)
                } else {
                    (raw, 1u16)
                }
            },
        }
    }
}

/// The name bytes of the record at `pos`, truncated at an embedded NUL.
pub open spec fn spec_record_id(img: Seq<u8>, pos: int) -> Seq<u8> {
    let name = img.subrange(pos + 33, pos + 33 + img[pos + 32]);
    name.subrange(0, spec_first_nul(name))
}

/// The complete report of the record at `pos` under `parent`: its path
/// and version as the walk presents them.
pub open spec fn spec_record_report(img: Seq<u8>, pos: int, parent: Seq<u8>) -> (Seq<u8>, u16) {
    let is_dir = (img[pos + 25] & 2) != 0;
    spec_split_version(spec_raw_path(parent, spec_record_id(img, pos)), is_dir)
}

} // verus!
