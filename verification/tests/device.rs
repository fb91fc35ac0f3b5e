//! The loopback device: media lifecycle, pool ownership, mapping tables
//! and block I/O.

use loopdrv::device::LoopProtocol;
use loopdrv::mapping::{LoopMappingItem, LoopTarget};
use loopdrv::status::LoopError;
use loopdrv::store::{FileStore, FsDevice, StoredFile};

fn path16(s: &str) -> Vec<u16> {
    s.encode_utf16().collect()
}

fn fresh_device(id: u64) -> LoopProtocol {
    LoopProtocol {
        device_id: id,
        unit_number: 0,
        media: loopdrv::device::create_default_media(),
        table: Vec::new(),
        pools: Vec::new(),
    }
}

fn one_file_store(name: &str, data: Vec<u8>) -> FileStore {
    FileStore {
        devices: vec![FsDevice {
            handle: 1,
            interface: 77,
            files: vec![StoredFile { path: path16(name), data }],
        }],
    }
}

#[test]
fn set_file_partial_sector_invisible() {
    // 1636 bytes: three whole sectors, 100 trailing bytes that vanish
    let store = one_file_store("disk.img", vec![9u8; 1536 + 100]);
    let mut dev = fresh_device(1);
    dev.set_file(&store, false, false, 0, &path16("disk.img")).unwrap();
    assert_eq!(3, dev.media.last_block);
    assert!(dev.media.media_present);
    assert_eq!(1, dev.media.media_id);
    // the trailing bytes are unreachable: reading past the end fails
    let r = dev.read_blocks(&store, 1, 3, 512);
    assert_eq!(Err(LoopError::InvalidParameter), r);
}

#[test]
fn media_id_drift_detected() {
    let store = one_file_store("disk.img", vec![1u8; 2048]);
    let mut dev = fresh_device(1);
    dev.set_file(&store, false, false, 0, &path16("disk.img")).unwrap();
    dev.clear();
    dev.set_file(&store, false, false, 0, &path16("disk.img")).unwrap();
    dev.clear();
    dev.set_file(&store, false, false, 0, &path16("disk.img")).unwrap();
    assert_eq!(3, dev.media.media_id);
    // a reader that cached media id 3 still works...
    assert!(dev.read_blocks(&store, 3, 0, 512).is_ok());
    // ...until the media is replaced again
    dev.clear();
    dev.set_file(&store, false, false, 0, &path16("disk.img")).unwrap();
    assert_eq!(4, dev.media.media_id);
    assert_eq!(Err(LoopError::MediaChanged), dev.read_blocks(&store, 3, 0, 512));
}

#[test]
fn clear_blocks_all_reads() {
    let store = one_file_store("disk.img", vec![1u8; 2048]);
    let mut dev = fresh_device(1);
    dev.set_file(&store, false, false, 0, &path16("disk.img")).unwrap();
    let id = dev.media.media_id;
    dev.clear();
    assert_eq!(Err(LoopError::NoMedia), dev.read_blocks(&store, id, 0, 512));
    assert_eq!(Err(LoopError::NoMedia), dev.read_blocks(&store, id, 1, 512));
    assert!(!dev.media.media_present);
    assert_eq!(0, dev.media.last_block);
}

#[test]
fn foreign_pool_rejected() {
    let mut a = fresh_device(1);
    let mut b = fresh_device(2);
    let h = a.alloc_pool(512).unwrap();
    // the other device must refuse the handle without freeing anything
    assert_eq!(Err(LoopError::InvalidParameter), b.free_pool(h));
    // the owner releases it
    assert_eq!(Ok(()), a.free_pool(h));
    // and a second release is refused
    assert_eq!(Err(LoopError::InvalidParameter), a.free_pool(h));
}

#[test]
fn pool_table_round_trip() {
    // two pool segments of two sectors each; write then read back
    let store = one_file_store("unused.img", vec![0u8; 512]);
    let mut dev = fresh_device(1);
    let h1 = dev.alloc_pool(1024).unwrap();
    let h2 = dev.alloc_pool(1024).unwrap();
    let items = vec![
        LoopMappingItem {
            start_sector: 0,
            num_sectors: 2,
            target: LoopTarget::LoopPool { buffer: h1 },
            target_start_sector: 0,
        },
        LoopMappingItem {
            start_sector: 2,
            num_sectors: 2,
            target: LoopTarget::LoopPool { buffer: h2 },
            target_start_sector: 0,
        },
    ];
    dev.set_mapping_table(&store, false, false, items).unwrap();
    assert_eq!(4, dev.media.last_block);
    let mut store = store;
    let data: Vec<u8> = (0..2048u32).map(|i| (i % 251) as u8).collect();
    dev.write_blocks(&mut store, 1, 0, &data).unwrap();
    let back = dev.read_blocks(&store, 1, 0, 2048).unwrap();
    assert_eq!(data, back);
}

#[test]
fn read_crosses_segment_boundary() {
    let store = one_file_store("disk.img", vec![0u8; 512]);
    let mut dev = fresh_device(1);
    let h1 = dev.alloc_pool(512).unwrap();
    let h2 = dev.alloc_pool(512).unwrap();
    dev.pool_write(h1, 0, &vec![0xaa; 512]).unwrap();
    dev.pool_write(h2, 0, &vec![0xbb; 512]).unwrap();
    let items = vec![
        LoopMappingItem {
            start_sector: 0,
            num_sectors: 1,
            target: LoopTarget::LoopPool { buffer: h1 },
            target_start_sector: 0,
        },
        LoopMappingItem {
            start_sector: 1,
            num_sectors: 1,
            target: LoopTarget::LoopPool { buffer: h2 },
            target_start_sector: 0,
        },
    ];
    dev.set_mapping_table(&store, false, false, items).unwrap();
    // one read spanning both items reassembles the halves in order
    let d = dev.read_blocks(&store, 1, 0, 1024).unwrap();
    assert_eq!(1024, d.len());
    assert!(d[..512].iter().all(|&b| b == 0xaa));
    assert!(d[512..].iter().all(|&b| b == 0xbb));
}

#[test]
fn read_range_boundary() {
    let store = one_file_store("disk.img", vec![3u8; 4 * 512]);
    let mut dev = fresh_device(1);
    dev.set_file(&store, false, false, 0, &path16("disk.img")).unwrap();
    assert_eq!(4, dev.media.last_block);
    // the last block reads fine; one past the end is rejected
    assert!(dev.read_blocks(&store, 1, 3, 512).is_ok());
    assert_eq!(Err(LoopError::InvalidParameter), dev.read_blocks(&store, 1, 4, 512));
}

#[test]
fn zero_target_reads_zero_discards_writes() {
    let store = one_file_store("disk.img", vec![0u8; 512]);
    let mut dev = fresh_device(1);
    let items = vec![LoopMappingItem {
        start_sector: 0,
        num_sectors: 2,
        target: LoopTarget::Zero,
        target_start_sector: 0,
    }];
    dev.set_mapping_table(&store, false, false, items).unwrap();
    let mut store = store;
    dev.write_blocks(&mut store, 1, 0, &vec![0x55; 1024]).unwrap();
    let d = dev.read_blocks(&store, 1, 0, 1024).unwrap();
    assert!(d.iter().all(|&b| b == 0));
}

#[test]
fn interface_tamper_fails_reads() {
    let store = one_file_store("disk.img", vec![4u8; 2048]);
    let mut dev = fresh_device(1);
    dev.set_file(&store, false, false, 0, &path16("disk.img")).unwrap();
    assert!(dev.read_blocks(&store, 1, 0, 512).is_ok());
    // the firmware swaps the filesystem interface behind the driver's back
    let mut tampered = store;
    tampered.devices[0].interface = 78;
    assert_eq!(Err(LoopError::DeviceError), dev.read_blocks(&tampered, 1, 0, 512));
    let mut t2 = tampered;
    assert_eq!(
        Err(LoopError::DeviceError),
        dev.write_blocks(&mut t2, 1, 0, &vec![0u8; 512])
    );
    assert_eq!(Err(LoopError::DeviceError), dev.flush_blocks(&t2));
}

#[test]
fn bad_buffer_size_rejected() {
    let store = one_file_store("disk.img", vec![0u8; 2048]);
    let mut dev = fresh_device(1);
    dev.set_file(&store, false, false, 0, &path16("disk.img")).unwrap();
    assert_eq!(Err(LoopError::BadBufferSize), dev.read_blocks(&store, 1, 0, 100));
}

#[test]
fn write_protected_media() {
    let store = one_file_store("disk.img", vec![0u8; 2048]);
    let mut dev = fresh_device(1);
    dev.set_file(&store, true, false, 0, &path16("disk.img")).unwrap();
    let mut store = store;
    assert_eq!(
        Err(LoopError::WriteProtected),
        dev.write_blocks(&mut store, 1, 0, &vec![0u8; 512])
    );
    // a read-only device flushes trivially
    assert_eq!(Ok(()), dev.flush_blocks(&store));
}

#[test]
fn mapping_table_rejects_gaps() {
    let store = one_file_store("disk.img", vec![0u8; 512]);
    let mut dev = fresh_device(1);
    let h = dev.alloc_pool(512).unwrap();
    // a table starting at sector 1 leaves a gap from 0
    let items = vec![LoopMappingItem {
        start_sector: 1,
        num_sectors: 1,
        target: LoopTarget::LoopPool { buffer: h },
        target_start_sector: 0,
    }];
    assert_eq!(
        Err(LoopError::InvalidParameter),
        dev.set_mapping_table(&store, false, false, items)
    );
    assert!(!dev.media.media_present);
    // ownership of the pool transferred at the call boundary regardless
    assert_eq!(Err(LoopError::InvalidParameter), dev.free_pool(h));
}

#[test]
fn mapping_table_rejects_empty() {
    let store = one_file_store("disk.img", vec![0u8; 512]);
    let mut dev = fresh_device(1);
    assert_eq!(
        Err(LoopError::InvalidParameter),
        dev.set_mapping_table(&store, false, false, Vec::new())
    );
}

#[test]
fn file_and_pool_table_write_read() {
    // a writable table splicing a file segment and a pool segment
    let mut store = one_file_store("disk.img", (0..1024u32).map(|i| i as u8).collect());
    let mut dev = fresh_device(1);
    let h = dev.alloc_pool(512).unwrap();
    let items = vec![
        LoopMappingItem {
            start_sector: 0,
            num_sectors: 2,
            target: LoopTarget::File { fs_device: 1, path: path16("disk.img") },
            target_start_sector: 0,
        },
        LoopMappingItem {
            start_sector: 2,
            num_sectors: 1,
            target: LoopTarget::LoopPool { buffer: h },
            target_start_sector: 0,
        },
    ];
    dev.set_mapping_table(&store, false, false, items).unwrap();
    let data: Vec<u8> = (0..1536u32).map(|i| (i % 13) as u8).collect();
    dev.write_blocks(&mut store, 1, 0, &data).unwrap();
    let back = dev.read_blocks(&store, 1, 0, 1536).unwrap();
    assert_eq!(data, back);
    // the file itself now carries the first two sectors
    assert_eq!(&data[..1024], &store.devices[0].files[0].data[..]);
}

#[test]
fn pool_write_then_read_back() {
    let mut dev = fresh_device(1);
    let h = dev.alloc_pool(16).unwrap();
    dev.pool_write(h, 4, &vec![1, 2, 3]).unwrap();
    assert_eq!(vec![0, 0, 0, 0, 1, 2, 3, 0], dev.pool_read(h, 0, 8).unwrap());
    // out-of-bounds access is refused
    assert_eq!(Err(LoopError::InvalidParameter), dev.pool_read(h, 10, 8));
    assert_eq!(Err(LoopError::InvalidParameter), dev.pool_write(h, 15, &vec![1, 2]));
}
