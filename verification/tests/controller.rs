//! The loop controller: unit allocation, lookup, retirement, and the
//! protocol-database atomicity it rests on.

use loopdrv::controller::{
    create_loop_control, install_loop_control, uninstall_loop_control, BLOCK_IO_PROTOCOL_GUID,
    DEVICE_PATH_PROTOCOL_GUID, LOOP_CONTROL_PROTOCOL_GUID, LOOP_PROTOCOL_GUID,
};
use loopdrv::protodb::ProtocolDb;
use loopdrv::status::LoopError;

#[test]
fn get_free_creates_then_reuses() {
    let mut ctl = create_loop_control();
    // no children: a new child with unit 0 appears
    let h = ctl.get_free().unwrap();
    assert_eq!(1, ctl.children.len());
    assert_eq!(0, ctl.children[0].unit);
    assert_eq!(h, ctl.children[0].handle);
    // unit 0 is still free, so the same child is handed out again
    let h2 = ctl.get_free().unwrap();
    assert_eq!(h, h2);
    assert_eq!(1, ctl.children.len());
}

#[test]
fn add_conflict_rejected() {
    let mut ctl = create_loop_control();
    ctl.add(7).unwrap();
    assert_eq!(Err(LoopError::InvalidParameter), ctl.add(7));
    assert_eq!(1, ctl.children.len());
}

#[test]
fn add_remove_find_round_trip() {
    let mut ctl = create_loop_control();
    let h = ctl.add(5).unwrap();
    assert!(ctl.find(5).is_ok());
    ctl.remove(h).unwrap();
    assert_eq!(Err(LoopError::NotFound), ctl.find(5));
}

#[test]
fn children_stay_sorted() {
    let mut ctl = create_loop_control();
    ctl.add(7).unwrap();
    ctl.add(2).unwrap();
    ctl.add(5).unwrap();
    let units: Vec<u32> = ctl.children.iter().map(|c| c.unit).collect();
    assert_eq!(vec![2, 5, 7], units);
    // get_free now takes the smallest unused unit once none is free: all
    // three children are free, so the first one is reused instead
    let h = ctl.get_free().unwrap();
    assert_eq!(ctl.children[0].handle, h);
}

#[test]
fn get_free_picks_smallest_gap() {
    let mut ctl = create_loop_control();
    let store = loopdrv::store::FileStore {
        devices: vec![loopdrv::store::FsDevice {
            handle: 1,
            interface: 9,
            files: vec![loopdrv::store::StoredFile {
                path: "a.img".encode_utf16().collect(),
                data: vec![0u8; 1024],
            }],
        }],
    };
    // occupy units 0 and 2
    let h0 = ctl.add(0).unwrap();
    let h2 = ctl.add(2).unwrap();
    let path: Vec<u16> = "a.img".encode_utf16().collect();
    for h in [h0, h2] {
        let idx = ctl.children.iter().position(|c| c.handle == h).unwrap();
        let mut entry = ctl.children.remove(idx);
        entry.device.set_file(&store, false, false, 0, &path).unwrap();
        ctl.children.insert(idx, entry);
    }
    // both bound: a fresh child takes the smallest unused unit, 1
    ctl.get_free().unwrap();
    let units: Vec<u32> = ctl.children.iter().map(|c| c.unit).collect();
    assert_eq!(vec![0, 1, 2], units);
}

#[test]
fn remove_children_empties_the_bus() {
    let mut ctl = create_loop_control();
    ctl.add(1).unwrap();
    ctl.add(2).unwrap();
    ctl.add(3).unwrap();
    ctl.remove_children().unwrap();
    assert_eq!(0, ctl.children.len());
}

#[test]
fn stop_removes_listed_children() {
    let mut ctl = create_loop_control();
    let h1 = ctl.add(1).unwrap();
    let h2 = ctl.add(2).unwrap();
    ctl.stop(&vec![h1, h2]).unwrap();
    assert_eq!(0, ctl.children.len());
    assert!(ctl.stop(&vec![h1]).is_err());
}

#[test]
fn supported_only_for_own_terminal_bus() {
    let mut ctl = create_loop_control();
    ctl.bus_handle = 42;
    assert_eq!(Ok(()), ctl.supported(42, None));
    // an end-only remaining path is terminal
    assert_eq!(Ok(()), ctl.supported(42, Some(&vec![0x7f, 0xff, 4, 0])));
    // a remaining path with a further node is not
    assert_eq!(
        Err(LoopError::Unsupported),
        ctl.supported(42, Some(&vec![0x01, 0x04, 20, 0]))
    );
    assert_eq!(Err(LoopError::Unsupported), ctl.supported(41, None));
    assert_eq!(Err(LoopError::InvalidParameter), ctl.supported(0, None));
    assert_eq!(Ok(()), ctl.start(42));
}

#[test]
fn child_protocols_installed_and_removed() {
    let mut ctl = create_loop_control();
    let h = ctl.add(4).unwrap();
    assert!(ctl.db.has_protocol(h, LOOP_PROTOCOL_GUID));
    assert!(ctl.db.has_protocol(h, DEVICE_PATH_PROTOCOL_GUID));
    assert!(ctl.db.has_protocol(h, BLOCK_IO_PROTOCOL_GUID));
    ctl.remove(h).unwrap();
    assert!(!ctl.db.has_protocol(h, LOOP_PROTOCOL_GUID));
    assert!(!ctl.db.has_protocol(h, DEVICE_PATH_PROTOCOL_GUID));
    assert!(!ctl.db.has_protocol(h, BLOCK_IO_PROTOCOL_GUID));
}

#[test]
fn multi_install_is_atomic() {
    let mut db = ProtocolDb::new();
    let h = db.install_multiple_protocols(0, &vec![10, 20]).unwrap();
    assert!(db.has_protocol(h, 10));
    assert!(db.has_protocol(h, 20));
    let entries_before = db.entries.len();
    // installing a set with a duplicate would fail partway: nothing happens
    assert!(db.install_multiple_protocols(h, &vec![30, 30]).is_err());
    assert_eq!(entries_before, db.entries.len());
    assert!(!db.has_protocol(h, 30));
    // installing over an existing interface fails wholesale too
    assert!(db.install_multiple_protocols(h, &vec![30, 20]).is_err());
    assert!(!db.has_protocol(h, 30));
    assert!(db.has_protocol(h, 20));
}

#[test]
fn multi_uninstall_is_atomic() {
    let mut db = ProtocolDb::new();
    let h = db.install_multiple_protocols(0, &vec![10, 20]).unwrap();
    // removing one present and one absent interface restores everything
    assert!(db.uninstall_multiple_protocols(h, &vec![10, 30]).is_err());
    assert!(db.has_protocol(h, 10));
    assert!(db.has_protocol(h, 20));
    // removing the present pair succeeds
    db.uninstall_multiple_protocols(h, &vec![10, 20]).unwrap();
    assert!(!db.has_protocol(h, 10));
    assert!(!db.has_protocol(h, 20));
}

#[test]
fn controller_installs_once() {
    let db = ProtocolDb::new();
    let ctl = match install_loop_control(db) {
        Ok(c) => c,
        Err(_) => panic!("a fresh database accepts the controller"),
    };
    assert!(ctl.db.has_protocol(ctl.bus_handle, LOOP_CONTROL_PROTOCOL_GUID));
    // a second controller in the same database is refused
    let db2 = {
        let mut ctl = ctl;
        ctl.add(0).unwrap();
        let db = uninstall_loop_control(ctl).unwrap();
        db
    };
    // after teardown the protocol is gone and a new controller may install
    assert!(install_loop_control(db2).is_ok());
}

#[test]
fn second_controller_refused() {
    let db = ProtocolDb::new();
    let ctl = match install_loop_control(db) {
        Ok(c) => c,
        Err(_) => panic!("a fresh database accepts the controller"),
    };
    // simulate a second driver image seeing the same database
    let db_copy_has = ctl.db.has_protocol(ctl.bus_handle, LOOP_CONTROL_PROTOCOL_GUID);
    assert!(db_copy_has);
    let err = install_loop_control(ctl.db);
    match err {
        Err((_, e)) => assert_eq!(LoopError::AlreadyStarted, e),
        Ok(_) => panic!("a second controller must be refused"),
    }
}

#[test]
fn component_names() {
    let mut ctl = create_loop_control();
    assert_eq!("Loopback Driver", loopdrv::controller::get_driver_name());
    assert_eq!("en-us;en", loopdrv::controller::supported_languages());
    assert_eq!(
        b"Loopback Controller".to_vec(),
        ctl.get_child_name(None).unwrap()
    );
    let h = ctl.add(42).unwrap();
    assert_eq!(
        b"Loopback Device #42".to_vec(),
        ctl.get_child_name(Some(h)).unwrap()
    );
    assert_eq!(
        Err(LoopError::InvalidParameter),
        ctl.get_child_name(Some(h + 1))
    );
}
