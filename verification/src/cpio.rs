//! Emission of the metadata archive in the "new ASCII" cpio format.
//!
//! A newc entry is a 110-byte header of a six-byte magic and thirteen
//! eight-digit ASCII-hex fields, the NUL-terminated name padded to four
//! bytes past the header, and the data padded to four bytes. The archive
//! holds one metadata file and a trailer record, padded with zeros to a
//! whole sector.

use vstd::prelude::*;
use crate::SECTOR_SIZE;
use crate::status::LoopError;

verus! {

/// Round up to the next multiple of four.
pub open spec fn spec_four_pad(n: int) -> int {
    ((n + 3) / 4) * 4
}

/// Round up to the next multiple of four.
pub fn four_bytes_padded_size(size: usize) -> (r: usize)
    requires
        size + 3 <= usize::MAX,
    ensures
        r == spec_four_pad(size as int),
{
    (size + 3) / 4 * 4
}

/// Round up to the next whole sector.
pub open spec fn spec_sector_pad(n: int) -> int {
    ((n + (SECTOR_SIZE as int) - 1) / (SECTOR_SIZE as int)) * (SECTOR_SIZE as int)
}

/// Bytes of one cpio entry: the padded header-plus-name, then the padded
/// data.
pub open spec fn spec_entry_size(name_size: int, file_size: int) -> int {
    spec_four_pad(CPIO_HEADER_SIZE + name_size) + spec_four_pad(file_size)
}

/// Bytes of one cpio entry with the given name and data sizes.
pub fn calc_cpio_entry_size(name_size: usize, file_size: usize) -> (r: usize)
    requires
        name_size <= 0xffff,
        file_size <= usize::MAX - 0x20000,
    ensures
        r == spec_entry_size(name_size as int, file_size as int),
{
    let header_name_size = four_bytes_padded_size(CPIO_HEADER_SIZE + name_size);
    let file_size = four_bytes_padded_size(file_size);
    proof {
        assert(spec_four_pad(CPIO_HEADER_SIZE + name_size) <= CPIO_HEADER_SIZE + name_size + 3);
        assert(spec_four_pad(file_size as int) <= file_size + 3) by (nonlinear_arith);
        assert(spec_four_pad(file_size as int) >= 0) by (nonlinear_arith)
            requires
                file_size >= 0,
        ;
    }
    header_name_size + file_size
}

/// Size of a newc header: the magic plus thirteen hex fields.
pub const CPIO_HEADER_SIZE: usize = 110;

/// ASCII of one hex digit, lower case.
pub open spec fn hex_ascii(d: u8) -> u8 {
    if d < 10 {
        (0x30 + d) as u8
    } else {
        (0x57 + d) as u8
    }
}

/// The eight ASCII-hex digits of a 32-bit value, most significant first.
pub open spec fn hex8(v: u32) -> Seq<u8> {
    Seq::new(8, |i: int| hex_ascii(((v >> ((4 * (7 - i)) as u32)) & 0xf) as u8))
}

/// Write the eight ASCII-hex digits of `value` over an eight-byte buffer.
pub fn write_hex(buf: &mut Vec<u8>, value: u32)
    requires
        old(buf)@.len() == 8,
    ensures
        final(buf)@ == hex8(value),
{
    let mut i: usize = 0;
    while i < 8
        invariant
            buf@.len() == 8,
            i <= 8,
            forall|j: int| 0 <= j < i ==> buf@[j] == hex8(value)[j],
        decreases 8 - i,
    {
        let sh: u32 = 4 * (7 - i as u32);
        proof {
            assert(((value >> sh) & 0xf) < 16) by (bit_vector);
        }
        let d = ((value >> sh) & 0xf) as u8;
        let c = if d < 10 {
            0x30 + d
        } else {
            0x57 + d
        };
        buf[i] = c;
        i = i + 1;
    }
    proof {
        assert(buf@ =~= hex8(value));
    }
}

/// A run of zero bytes.
pub open spec fn zeros(n: int) -> Seq<u8> {
    Seq::new(n as nat, |i: int| 0u8)
}

/// The six magic bytes of a newc header.
pub open spec fn magic_bytes() -> Seq<u8> {
    seq![0x30u8, 0x37, 0x30, 0x37, 0x30, 0x31]
}

/// The metadata file's name, NUL included.
pub open spec fn meta_name_bytes() -> Seq<u8> {
    seq![0x2eu8, 0x75, 0x65, 0x66, 0x69, 0x2d, 0x6c, 0x6f, 0x70, 0x61, 0x74, 0x63, 0x68, 0x2d, 0x6d, 0x65, 0x74, 0x61, 0x64, 0x61, 0x74, 0x61, 0x00]
}

/// The trailer record's name, NUL included.
pub open spec fn trailer_name_bytes() -> Seq<u8> {
    seq![0x54u8, 0x52, 0x41, 0x49, 0x4c, 0x45, 0x52, 0x21, 0x21, 0x21, 0x00]
}

/// One newc header: magic, then ino, mode, uid, gid, n_link, mtime,
/// file_size, dev_major, dev_minor, rdev_major, rdev_minor, name_size and
/// check, each as eight hex digits.
pub open spec fn spec_cpio_header(ino: u32, mode: u32, n_link: u32, file_size: u32, name_size: u32) -> Seq<u8> {
    magic_bytes() + hex8(ino) + hex8(mode) + hex8(0) + hex8(0) + hex8(n_link) + hex8(0) + hex8(
        file_size,
    ) + hex8(0) + hex8(0) + hex8(0) + hex8(0) + hex8(name_size) + hex8(0)
}

/// The whole archive for one metadata payload: the metadata entry, the
/// trailer, and zero padding to a sector boundary.
pub open spec fn spec_cpio_bytes(meta: Seq<u8>) -> Seq<u8> {
    let h1 = spec_cpio_header(0xdeadbeef, 0x81a4, 1, meta.len() as u32, 23);
    let body1 = h1 + meta_name_bytes() + zeros(
        spec_four_pad(CPIO_HEADER_SIZE + 23) - (CPIO_HEADER_SIZE + 23),
    ) + meta + zeros(spec_four_pad(meta.len() as int) - meta.len());
    let h2 = spec_cpio_header(0, 0, 1, 0, 11);
    let body2 = h2 + trailer_name_bytes() + zeros(
        spec_four_pad(CPIO_HEADER_SIZE + 11) - (CPIO_HEADER_SIZE + 11),
    );
    let entries = body1 + body2;
    entries + zeros(spec_sector_pad(entries.len() as int) - entries.len())
}

/// What a chunk of the appended region holds and how it is read out.
pub trait ChunkRead {
    /// The chunk's bytes.
    spec fn content(&self) -> Seq<u8>;

    /// The chunk's well-formedness: what its arithmetic relies on.
    spec fn inv(&self) -> bool;

    /// How many bytes the chunk holds.
    fn size(&self) -> (r: usize)
        requires
            self.inv(),
        ensures
            r == self.content().len(),
    ;

    /// Produce the chunk's bytes.
    fn read_to_end(&mut self) -> (r: Result<Vec<u8>, LoopError>)
        requires
            old(self).inv(),
        ensures
            final(self).inv(),
            final(self).content() == old(self).content(),
            r matches Ok(d) && d@ == old(self).content(),
    ;
}

/// An in-memory chunk.
pub struct VecChunk(pub Vec<u8>);

impl ChunkRead for VecChunk {
    open spec fn content(&self) -> Seq<u8> {
        self.0@
    }

    open spec fn inv(&self) -> bool {
        true
    }

    fn size(&self) -> (r: usize) {
        self.0.len()
    }

    fn read_to_end(&mut self) -> (r: Result<Vec<u8>, LoopError>) {
        let mut out: Vec<u8> = Vec::new();
        let mut i: usize = 0;
        while i < self.0.len()
            invariant
                i <= self.0@.len(),
                self.0@ == old(self).0@,
                out@ == self.0@.subrange(0, i as int),
            decreases self.0@.len() - i,
        {
            out.push(self.0[i]);
            proof {
                assert(out@ =~= self.0@.subrange(0, (i + 1) as int));
            }
            i = i + 1;
        }
        proof {
            assert(out@ =~= self.0@);
        }
        Ok(out)
    }
}

/// The metadata archive chunk, produced in newc cpio format.
pub struct MetaCpioChunk {
    pub metadata: Vec<u8>,
}

impl MetaCpioChunk {
    /// Wrap a metadata payload.
    pub fn new(metadata: Vec<u8>) -> (r: MetaCpioChunk)
        ensures
            r.metadata@ == metadata@,
    {
        MetaCpioChunk { metadata }
    }
}

/// Append the hex digits of `value`.
fn push_hex8(out: &mut Vec<u8>, value: u32)
    ensures
        final(out)@ == old(out)@ + hex8(value),
{
    let ghost pre = out@;
    let mut tmp: Vec<u8> = Vec::new();
    let mut z: usize = 0;
    while z < 8
        invariant
            tmp@.len() == z,
            z <= 8,
            forall|j: int| 0 <= j < z ==> tmp@[j] == 0u8,
            out@ == pre,
        decreases 8 - z,
    {
        tmp.push(0u8);
        z = z + 1;
    }
    write_hex(&mut tmp, value);
    let mut z2: usize = 0;
    while z2 < 8
        invariant
            tmp@ == hex8(value),
            z2 <= 8,
            out@ == pre + hex8(value).subrange(0, z2 as int),
        decreases 8 - z2,
    {
        out.push(tmp[z2]);
        proof {
            assert(out@ =~= pre + hex8(value).subrange(0, (z2 + 1) as int));
        }
        z2 = z2 + 1;
    }
    proof {
        assert(hex8(value).subrange(0, 8) =~= hex8(value));
    }
}

/// Append `n` zero bytes.
fn push_zeros(out: &mut Vec<u8>, n: usize)
    requires
        old(out)@.len() + n <= usize::MAX,
    ensures
        final(out)@ == old(out)@ + zeros(n as int),
{
    let ghost pre = out@;
    let mut z: usize = 0;
    while z < n
        invariant
            z <= n,
            out@ == pre + zeros(z as int),
            pre.len() + n <= usize::MAX,
        decreases n - z,
    {
        out.push(0u8);
        proof {
            assert(out@ =~= pre + zeros((z + 1) as int));
        }
        z = z + 1;
    }
}

/// Append one newc header.
fn push_header(out: &mut Vec<u8>, ino: u32, mode: u32, n_link: u32, file_size: u32, name_size: u32)
    ensures
        final(out)@ == old(out)@ + spec_cpio_header(ino, mode, n_link, file_size, name_size),
{
    let ghost pre = out@;
    out.push(0x30u8);
    out.push(0x37u8);
    out.push(0x30u8);
    out.push(0x37u8);
    out.push(0x30u8);
    out.push(0x31u8);
    proof {
        assert(out@ =~= pre + magic_bytes());
    }
    push_hex8(out, ino);
    push_hex8(out, mode);
    push_hex8(out, 0);
    push_hex8(out, 0);
    push_hex8(out, n_link);
    push_hex8(out, 0);
    push_hex8(out, file_size);
    push_hex8(out, 0);
    push_hex8(out, 0);
    push_hex8(out, 0);
    push_hex8(out, 0);
    push_hex8(out, name_size);
    push_hex8(out, 0);
    proof {
        assert(out@ =~= pre + spec_cpio_header(ino, mode, n_link, file_size, name_size));
    }
}

impl ChunkRead for MetaCpioChunk {
    open spec fn content(&self) -> Seq<u8> {
        spec_cpio_bytes(self.metadata@)
    }

    open spec fn inv(&self) -> bool {
        self.metadata@.len() + 0x40000 <= usize::MAX && self.metadata@.len() <= u32::MAX
    }

    fn size(&self) -> (r: usize) {
        let entries = calc_cpio_entry_size(23, self.metadata.len()) + calc_cpio_entry_size(11, 0);
        proof {
            lemma_cpio_len(self.metadata@);
            assert(spec_entry_size(23, self.metadata@.len() as int) <= CPIO_HEADER_SIZE + 23 + 3
                + self.metadata@.len() + 3) by (nonlinear_arith)
                requires
                    spec_entry_size(23, self.metadata@.len() as int) == spec_four_pad(
                        CPIO_HEADER_SIZE + 23,
                    ) + spec_four_pad(self.metadata@.len() as int),
            ;
            assert(spec_sector_pad(entries as int) <= entries + (SECTOR_SIZE as int) - 1)
                by (nonlinear_arith)
                requires
                    entries >= 0,
                    SECTOR_SIZE as int == 512,
            ;
        }
        (entries + SECTOR_SIZE - 1) / SECTOR_SIZE * SECTOR_SIZE
    }

    fn read_to_end(&mut self) -> (r: Result<Vec<u8>, LoopError>) {
        let d = self.metadata.len();
        let mut out: Vec<u8> = Vec::new();
        proof {
            lemma_cpio_len(self.metadata@);
        }
        push_header(&mut out, 0xdeadbeef, 0x81a4, 1, d as u32, 23);
        let ghost acc1 = out@;
    out.push(0x2eu8);
    out.push(0x75u8);
    out.push(0x65u8);
    out.push(0x66u8);
    out.push(0x69u8);
    out.push(0x2du8);
    out.push(0x6cu8);
    out.push(0x6fu8);
    out.push(0x70u8);
    out.push(0x61u8);
    out.push(0x74u8);
    out.push(0x63u8);
    out.push(0x68u8);
    out.push(0x2du8);
    out.push(0x6du8);
    out.push(0x65u8);
    out.push(0x74u8);
    out.push(0x61u8);
    out.push(0x64u8);
    out.push(0x61u8);
    out.push(0x74u8);
    out.push(0x61u8);
        push_zeros(&mut out, 4);
        proof {
            assert(out@ =~= acc1 + meta_name_bytes() + zeros(3));
        }
        // the metadata bytes themselves
        let mut i: usize = 0;
        let ghost acc2 = out@;
        while i < self.metadata.len()
            invariant
                i <= self.metadata@.len(),
                self.metadata@ == old(self).metadata@,
                out@ == acc2 + self.metadata@.subrange(0, i as int),
                acc2.len() + self.metadata@.len() + 8192 - 110 - 24 <= usize::MAX,
            decreases self.metadata@.len() - i,
        {
            out.push(self.metadata[i]);
            proof {
                assert(out@ =~= acc2 + self.metadata@.subrange(0, (i + 1) as int));
            }
            i = i + 1;
        }
        proof {
            assert(self.metadata@.subrange(0, self.metadata@.len() as int) =~= self.metadata@);
        }
        let pad2 = four_bytes_padded_size(d) - d;
        push_zeros(&mut out, pad2);
        push_header(&mut out, 0, 0, 1, 0, 11);
        let ghost acc3 = out@;
    out.push(0x54u8);
    out.push(0x52u8);
    out.push(0x41u8);
    out.push(0x49u8);
    out.push(0x4cu8);
    out.push(0x45u8);
    out.push(0x52u8);
    out.push(0x21u8);
    out.push(0x21u8);
    out.push(0x21u8);
        push_zeros(&mut out, 4);
        proof {
            assert(out@ =~= acc3 + trailer_name_bytes() + zeros(3));
        }
        let entries = out.len();
        let total = (entries + SECTOR_SIZE - 1) / SECTOR_SIZE * SECTOR_SIZE;
        proof {
            assert(spec_sector_pad(entries as int) == total as int);
            assert(total >= entries) by (nonlinear_arith)
                requires
                    total == ((entries + 511) / 512) * 512,
                    entries >= 0,
            ;
        }
        push_zeros(&mut out, total - entries);
        proof {
            assert(out@ =~= spec_cpio_bytes(self.metadata@));
        }
        Ok(out)
    }
}

/// The archive's pieces have the sizes the entry formula names.
proof fn lemma_cpio_len(meta: Seq<u8>)
    ensures
        spec_cpio_header(0, 0, 0, 0, 0).len() == CPIO_HEADER_SIZE,
        meta_name_bytes().len() == 23,
        trailer_name_bytes().len() == 11,
        spec_four_pad(CPIO_HEADER_SIZE + 23) == 136,
        spec_four_pad(CPIO_HEADER_SIZE + 11) == 124,
        spec_four_pad(meta.len() as int) - meta.len() < 4,
        spec_four_pad(meta.len() as int) >= meta.len(),
        spec_cpio_bytes(meta).len() == spec_sector_pad(
            spec_entry_size(23, meta.len() as int) + spec_entry_size(11, 0),
        ),
{
    assert(spec_four_pad(meta.len() as int) - meta.len() < 4 && spec_four_pad(meta.len() as int)
        >= meta.len()) by (nonlinear_arith);
    let entries = 136 + spec_four_pad(meta.len() as int) + 124;
    assert(spec_cpio_bytes(meta).len() == entries + (spec_sector_pad(entries) - entries));
    assert(spec_sector_pad(entries) >= entries) by (nonlinear_arith)
        requires
            entries >= 0,
            SECTOR_SIZE as int == 512,
    ;
}

} // verus!
