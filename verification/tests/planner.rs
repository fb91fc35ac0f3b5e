//! The ISO9660 walker and the patch planner, on a small synthetic image.

use loopdrv::controller::create_loop_control;
use loopdrv::cpio::{calc_cpio_entry_size, four_bytes_padded_size, write_hex, ChunkRead,
    MetaCpioChunk, VecChunk};
use loopdrv::iso::ISO9660;
use loopdrv::planner::{attach_loop_device, detach_loop_device, get_u32_lsb_msb_bytes,
    list_loop_devices, PatchAction};
use loopdrv::status::LoopError;
use loopdrv::store::{FileStore, FsDevice, StoredFile};

fn path16(s: &str) -> Vec<u16> {
    s.encode_utf16().collect()
}

fn le32(v: u32) -> [u8; 4] {
    v.to_le_bytes()
}

/// A 4096-sector image: PVD at block 16, root directory at block 20 with
/// one file `README.TXT;1` of 4000 bytes at block 30.
fn tiny_iso() -> Vec<u8> {
    let mut img = vec![0u8; 4096 * 512];
    let pvd = 16 * 2048;
    img[pvd] = 1;
    img[pvd + 1..pvd + 6].copy_from_slice(b"CD001");
    img[pvd + 6] = 1;
    // root directory record inside the PVD
    let root = pvd + 156;
    img[root] = 34;
    img[root + 2..root + 6].copy_from_slice(&le32(20));
    img[root + 10..root + 14].copy_from_slice(&le32(2048));
    img[root + 25] = 2;
    img[root + 32] = 1;
    img[root + 33] = 0;
    // the directory extent: dot, dotdot, then the file
    let dir = 20 * 2048;
    for (k, flags) in [(0usize, 2u8), (34, 2)] {
        let e = dir + k;
        img[e] = 34;
        img[e + 2..e + 6].copy_from_slice(&le32(20));
        img[e + 10..e + 14].copy_from_slice(&le32(2048));
        img[e + 25] = flags;
        img[e + 32] = 1;
    }
    let e3 = dir + 68;
    img[e3] = 46;
    img[e3 + 2..e3 + 6].copy_from_slice(&le32(30));
    img[e3 + 10..e3 + 14].copy_from_slice(&le32(4000));
    img[e3 + 25] = 0;
    img[e3 + 32] = 12;
    img[e3 + 33..e3 + 45].copy_from_slice(b"README.TXT;1");
    // the file's content
    let data = 30 * 2048;
    for i in 0..4000 {
        img[data + i] = (i % 199) as u8;
    }
    img
}

fn iso_store() -> FileStore {
    let alt: Vec<u8> = (0..1024u32).map(|i| (i % 101) as u8).collect();
    FileStore {
        devices: vec![FsDevice {
            handle: 1,
            interface: 9,
            files: vec![
                StoredFile { path: path16("image.iso"), data: tiny_iso() },
                StoredFile { path: path16("alt.txt"), data: alt },
            ],
        }],
    }
}

#[test]
fn walker_finds_the_file() {
    let iso = ISO9660::new(tiny_iso()).unwrap();
    assert_eq!(16 * 2048, iso.find_pvd_position().unwrap());
    let (pos, size) = iso.find_root_record().unwrap();
    assert_eq!(16 * 2048 + 156, pos);
    assert_eq!(34, size);
    let mut records = Vec::new();
    iso.walk_record(pos, size, &Vec::new(), 32, &mut records).unwrap();
    assert_eq!(2, records.len());
    assert!(records[0].is_dir);
    assert_eq!(Vec::<u8>::new(), records[0].path);
    assert!(!records[1].is_dir);
    assert_eq!(b"/README.TXT".to_vec(), records[1].path);
    assert_eq!(1, records[1].file_version);
    assert_eq!(30 * 2048, records[1].extent_position);
    assert_eq!(4000, records[1].extent_size);
}

#[test]
fn walker_rejects_bad_header() {
    let mut img = tiny_iso();
    img[16 * 2048 + 3] = b'X';
    match ISO9660::new(img) {
        Err(e) => assert_eq!(LoopError::Aborted, e),
        Ok(_) => panic!("a mangled identifier must be rejected"),
    }
    match ISO9660::new(vec![0u8; 1024]) {
        Err(e) => assert_eq!(LoopError::DeviceError, e),
        Ok(_) => panic!("a short image must be rejected"),
    }
}

#[test]
fn attach_without_rules_is_one_segment() {
    let store = iso_store();
    let mut ctl = create_loop_control();
    let h = attach_loop_device(&mut ctl, &store, None, false, false, &Vec::new(), &path16(
        "image.iso",
    ))
    .unwrap();
    let idx = ctl.children.iter().position(|c| c.handle == h).unwrap();
    let dev = &ctl.children[idx].device;
    assert_eq!(4096, dev.media.last_block);
    assert_eq!(1, dev.table.len());
    // ISO9660 detection forces read-only though the caller asked otherwise
    assert!(dev.media.read_only);
    // the device contents equal the image, byte for byte where sampled
    let img = tiny_iso();
    let d = dev.read_blocks(&store, 1, 0, 2048).unwrap();
    assert_eq!(&img[..2048], &d[..]);
    let d = dev.read_blocks(&store, 1, 64, 2048).unwrap();
    assert_eq!(&img[64 * 512..64 * 512 + 2048], &d[..]);
    let d = dev.read_blocks(&store, 1, 4095, 512).unwrap();
    assert_eq!(&img[4095 * 512..], &d[..]);
    // and the whole device, byte for byte
    let d = dev.read_blocks(&store, 1, 0, 4096 * 512).unwrap();
    assert_eq!(img, d);
}

#[test]
fn attach_plain_image_keeps_writability() {
    // not an ISO: the requested writability stands
    let store = FileStore {
        devices: vec![FsDevice {
            handle: 1,
            interface: 9,
            files: vec![StoredFile { path: path16("flat.img"), data: vec![5u8; 4096] }],
        }],
    };
    let mut ctl = create_loop_control();
    let h = attach_loop_device(&mut ctl, &store, None, false, false, &Vec::new(), &path16(
        "flat.img",
    ))
    .unwrap();
    let idx = ctl.children.iter().position(|c| c.handle == h).unwrap();
    assert!(!ctl.children[idx].device.media.read_only);
    assert_eq!(8, ctl.children[idx].device.media.last_block);
}

#[test]
fn attach_single_replace_layout() {
    let store = iso_store();
    let mut ctl = create_loop_control();
    let patch = vec![(
        String::from("/README\\.TXT$"),
        vec![PatchAction::Replace(path16("alt.txt"))],
    )];
    let h = attach_loop_device(&mut ctl, &store, None, false, false, &patch, &path16("image.iso"))
        .unwrap();
    let idx = ctl.children.iter().position(|c| c.handle == h).unwrap();
    let dev = &ctl.children[idx].device;
    // original image, a patched record block, the rest, and two appended
    // sectors for the 1024-byte replacement
    assert_eq!(4098, dev.media.last_block);
    assert_eq!(4, dev.table.len());
    assert!(dev.media.read_only);
    // the patched block: block 20 of the image with the record's extent
    // fields rewritten to LBA 1024 (sector 4096 / 4) and size 1024
    let img = tiny_iso();
    let d = dev.read_blocks(&store, 1, 80, 2048).unwrap();
    let mut expect = img[20 * 2048..21 * 2048].to_vec();
    let e3 = 68;
    expect[e3 + 2..e3 + 10].copy_from_slice(&[0, 4, 0, 0, 0, 0, 4, 0]);
    expect[e3 + 10..e3 + 18].copy_from_slice(&[0, 4, 0, 0, 0, 0, 4, 0]);
    assert_eq!(expect, d);
    // sectors before and after the patched block come from the image
    let d = dev.read_blocks(&store, 1, 0, 80 * 512).unwrap();
    assert_eq!(&img[..80 * 512], &d[..]);
    let d = dev.read_blocks(&store, 1, 84, 2048).unwrap();
    assert_eq!(&img[84 * 512..84 * 512 + 2048], &d[..]);
    // the appended region carries the replacement file
    let d = dev.read_blocks(&store, 1, 4096, 1024).unwrap();
    assert_eq!(&store.devices[0].files[1].data[..], &d[..]);
}

#[test]
fn attach_meta_cpio_archive() {
    let store = iso_store();
    let mut ctl = create_loop_control();
    let patch = vec![(
        String::from("/README\\.TXT$"),
        vec![PatchAction::Replace(path16("alt.txt")), PatchAction::MetaCpio],
    )];
    let h = attach_loop_device(&mut ctl, &store, None, false, false, &patch, &path16("image.iso"))
        .unwrap();
    let idx = ctl.children.iter().position(|c| c.handle == h).unwrap();
    let dev = &ctl.children[idx].device;
    // the pool now carries the 512-byte cpio archive after the two
    // replacement sectors
    assert_eq!(4099, dev.media.last_block);
    let d = dev.read_blocks(&store, 1, 4098, 512).unwrap();
    assert_eq!(b"070701", &d[0..6]);
    assert_eq!(b"deadbeef", &d[6..14]);
    assert_eq!(b"000081a4", &d[14..22]);
    assert_eq!(b".uefi-lopatch-metadata\0", &d[110..133]);
    assert_eq!(b"LOPATCH_DEVICE_PATH='image.iso'\n", &d[136..168]);
    assert_eq!(b"070701", &d[168..174]);
    assert_eq!(b"TRAILER!!!\0", &d[278..289]);
    assert!(d[292..].iter().all(|&b| b == 0));
    // the rewritten record announces the grown extent: 1024 + 512 bytes
    let d = dev.read_blocks(&store, 1, 80, 2048).unwrap();
    assert_eq!(&1536u32.to_le_bytes(), &d[68 + 10..68 + 14]);
}

#[test]
fn detach_and_list() {
    let store = iso_store();
    let mut ctl = create_loop_control();
    attach_loop_device(&mut ctl, &store, None, false, false, &Vec::new(), &path16("image.iso"))
        .unwrap();
    let infos = list_loop_devices(&ctl);
    assert_eq!(1, infos.len());
    assert_eq!(0, infos[0].unit_number);
    detach_loop_device(&mut ctl, 0).unwrap();
    assert!(!ctl.children[0].device.media.media_present);
    assert_eq!(Err(LoopError::NotFound), detach_loop_device(&mut ctl, 9));
}

#[test]
fn attach_by_id_clears_first() {
    let store = iso_store();
    let mut ctl = create_loop_control();
    ctl.add(3).unwrap();
    let h = attach_loop_device(&mut ctl, &store, Some(3), false, false, &Vec::new(), &path16(
        "image.iso",
    ))
    .unwrap();
    let idx = ctl.children.iter().position(|c| c.handle == h).unwrap();
    assert_eq!(3, ctl.children[idx].unit);
    assert_eq!(4096, ctl.children[idx].device.media.last_block);
    assert_eq!(
        Err(LoopError::NotFound),
        attach_loop_device(&mut ctl, &store, Some(8), false, false, &Vec::new(), &path16(
            "image.iso"
        ))
    );
}

#[test]
fn cpio_entry_arithmetic() {
    assert_eq!(0, four_bytes_padded_size(0));
    assert_eq!(4, four_bytes_padded_size(1));
    assert_eq!(8, four_bytes_padded_size(5));
    assert_eq!(8, four_bytes_padded_size(8));
    assert_eq!(136 + 32, calc_cpio_entry_size(23, 31));
    assert_eq!(124, calc_cpio_entry_size(11, 0));
    let mut buf = vec![0u8; 8];
    write_hex(&mut buf, 0xdeadbeef);
    assert_eq!(b"deadbeef", &buf[..]);
    write_hex(&mut buf, 0o0100644);
    assert_eq!(b"000081a4", &buf[..]);
    write_hex(&mut buf, 1);
    assert_eq!(b"00000001", &buf[..]);
}

#[test]
fn cpio_chunk_bytes() {
    let mut chunk = MetaCpioChunk::new(b"LOPATCH_DEVICE_PATH='x'\n".to_vec());
    assert_eq!(512, chunk.size());
    let d = chunk.read_to_end().unwrap();
    assert_eq!(512, d.len());
    assert_eq!(b"070701", &d[0..6]);
    assert_eq!(b"00000018", &d[54..62]);
    assert_eq!(b"00000017", &d[94..102]);
    let mut v = VecChunk(vec![1, 2, 3]);
    assert_eq!(3, v.size());
    assert_eq!(vec![1, 2, 3], v.read_to_end().unwrap());
}

#[test]
fn both_endian_encoding() {
    assert_eq!(
        vec![4, 3, 2, 1, 1, 2, 3, 4],
        get_u32_lsb_msb_bytes(0x01020304)
    );
    assert_eq!(vec![0, 4, 0, 0, 0, 0, 4, 0], get_u32_lsb_msb_bytes(1024));
}

#[test]
fn device_paths_are_stable() {
    let c = loopdrv::dev_path::LoopControlPath::new();
    assert_eq!(24, c.bytes.len());
    assert_eq!(&[0x01, 0x04, 20, 0], &c.bytes[0..4]);
    assert_eq!(&[0x7f, 0xff, 4, 0], &c.bytes[20..24]);
    let p = loopdrv::dev_path::LoopbackPath::new(0x01020304);
    assert_eq!(48, p.bytes.len());
    assert_eq!(&[0x03, 0x0a, 24, 0], &p.bytes[20..24]);
    assert_eq!(&[4, 3, 2, 1], &p.bytes[40..44]);
    // paths of different units differ only in the unit field
    let q = loopdrv::dev_path::LoopbackPath::new(0x01020305);
    assert_eq!(&p.bytes[..40], &q.bytes[..40]);
    assert_ne!(p.bytes, q.bytes);
}
