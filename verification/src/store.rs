//! A plain-data model of the host filesystem services the driver relies on.
//!
//! File-backed mapping targets read and write through a [`FileStore`]: a set
//! of filesystem devices, each identified by a nonzero handle, exposing one
//! filesystem interface pointer and a set of regular files addressed by path.
//! The interface pointer may be swapped behind the driver's back; every file
//! operation re-validates it against the snapshot taken when the file was
//! resolved.

use vstd::prelude::*;
use crate::status::LoopError;

verus! {

/// One regular file: its path (16-bit characters, as the firmware presents
/// them) and its current content.
pub struct StoredFile {
    pub path: Vec<u16>,
    pub data: Vec<u8>,
}

/// One filesystem device: a handle, the interface pointer currently installed
/// on it, and the files it serves.
pub struct FsDevice {
    pub handle: u64,
    pub interface: u64,
    pub files: Vec<StoredFile>,
}

/// The filesystem world visible to the driver.
pub struct FileStore {
    pub devices: Vec<FsDevice>,
}

impl FsDevice {
    /// Index of the file with the given path, if any.
    pub open spec fn spec_find_file(&self, path: Seq<u16>) -> Option<int> {
        if exists|i: int| 0 <= i < self.files.len() && self.files[i].path@ == path {
            Some(choose|i: int| 0 <= i < self.files.len() && self.files[i].path@ == path)
        } else {
            None
        }
    }

    /// Well-formed: file paths are distinct.
    pub open spec fn wf(&self) -> bool {
        forall|i: int, j: int|
            0 <= i < j < self.files.len() ==> self.files[i].path@ != self.files[j].path@
    }

    /// Look up a file by path.
    pub fn find_file(&self, path: &Vec<u16>) -> (r: Option<usize>)
        ensures
            match r {
                Some(i) => i < self.files.len() && self.files[i as int].path@ == path@,
                None => forall|i: int| 0 <= i < self.files.len() ==> self.files[i].path@ != path@,
            },
    {
        let mut i: usize = 0;
        while i < self.files.len()
            invariant
                i <= self.files.len(),
                forall|k: int| 0 <= k < i ==> self.files[k].path@ != path@,
            decreases self.files.len() - i,
        {
            if vecs_eq_u16(&self.files[i].path, path) {
                return Some(i);
            }
            i = i + 1;
        }
        None
    }
}

/// Element-wise copy of a `u16` vector.
pub fn copy_u16_vec(v: &Vec<u16>) -> (r: Vec<u16>)
    ensures
        r@ == v@,
{
    let mut r: Vec<u16> = Vec::new();
    let mut i: usize = 0;
    while i < v.len()
        invariant
            i <= v@.len(),
            r@ == v@.subrange(0, i as int),
        decreases v@.len() - i,
    {
        r.push(v[i]);
        proof {
            assert(r@ =~= v@.subrange(0, (i + 1) as int));
        }
        i = i + 1;
    }
    proof {
        assert(v@.subrange(0, v@.len() as int) =~= v@);
    }
    r
}

/// Element-wise equality of two `u16` vectors.
pub fn vecs_eq_u16(a: &Vec<u16>, b: &Vec<u16>) -> (r: bool)
    ensures
        r <==> a@ == b@,
{
    if a.len() != b.len() {
        assert(a@.len() != b@.len());
        return false;
    }
    let mut i: usize = 0;
    while i < a.len()
        invariant
            i <= a.len(),
            a@.len() == b@.len(),
            forall|k: int| 0 <= k < i ==> a@[k] == b@[k],
        decreases a.len() - i,
    {
        if a[i] != b[i] {
            return false;
        }
        i = i + 1;
    }
    proof {
        assert(a@ =~= b@);
    }
    true
}

impl FileStore {
    /// Index of the device carrying the given handle, if any.
    pub open spec fn spec_device_index(&self, handle: u64) -> Option<int> {
        if exists|i: int| 0 <= i < self.devices.len() && self.devices[i].handle == handle {
            Some(choose|i: int| 0 <= i < self.devices.len() && self.devices[i].handle == handle)
        } else {
            None
        }
    }

    /// Well-formed: handles are nonzero and distinct, and each device is
    /// well-formed.
    pub open spec fn wf(&self) -> bool {
        &&& forall|i: int| 0 <= i < self.devices.len() ==> self.devices[i].handle != 0
        &&& forall|i: int, j: int|
            0 <= i < j < self.devices.len() ==> self.devices[i].handle != self.devices[j].handle
        &&& forall|i: int| 0 <= i < self.devices.len() ==> (#[trigger] self.devices[i]).wf()
    }

    /// Look up a device by handle.
    pub fn find_device(&self, handle: u64) -> (r: Option<usize>)
        requires
            self.wf(),
        ensures
            match r {
                Some(i) => {
                    &&& i < self.devices.len()
                    &&& self.devices[i as int].handle == handle
                    &&& self.spec_device_index(handle) == Some(i as int)
                },
                None => self.spec_device_index(handle) is None,
            },
    {
        let mut i: usize = 0;
        while i < self.devices.len()
            invariant
                self.wf(),
                i <= self.devices.len(),
                forall|k: int| 0 <= k < i ==> self.devices[k].handle != handle,
            decreases self.devices.len() - i,
        {
            if self.devices[i].handle == handle {
                return Some(i);
            }
            i = i + 1;
        }
        None
    }

    /// First device (in order) holding a file with the given path; models
    /// locating a filesystem device from a file path alone.
    pub fn locate_device_for_path(&self, path: &Vec<u16>) -> (r: Option<usize>)
        ensures
            match r {
                Some(i) => {
                    &&& i < self.devices.len()
                    &&& self.devices[i as int].spec_find_file(path@) is Some
                    &&& forall|k: int|
                        0 <= k < i ==> (#[trigger] self.devices[k]).spec_find_file(path@) is None
                },
                None => forall|i: int|
                    0 <= i < self.devices.len()
                        ==> (#[trigger] self.devices[i]).spec_find_file(path@) is None,
            },
    {
        let mut i: usize = 0;
        while i < self.devices.len()
            invariant
                i <= self.devices.len(),
                forall|k: int| 0 <= k < i
                    ==> (#[trigger] self.devices[k]).spec_find_file(path@) is None,
            decreases self.devices.len() - i,
        {
            match self.devices[i].find_file(path) {
                Some(j) => {
                    proof {
                        let ghost d = self.devices[i as int];
                        assert(d.files[j as int].path@ == path@);
                        assert(d.spec_find_file(path@) is Some);
                    }
                    return Some(i);
                }
                None => {
                    proof {
                        let ghost d = self.devices[i as int];
                        if d.spec_find_file(path@) is Some {
                            let w = choose|k: int|
                                0 <= k < d.files.len() && d.files[k].path@ == path@;
                            assert(d.files[w].path@ == path@);
                        }
                    }
                }
            }
            i = i + 1;
        }
        None
    }
}

/// Outcome of resolving a file target against the store: the resolved device
/// handle, a snapshot of its interface pointer, and the file's size in bytes.
pub struct ResolvedFile {
    pub fs_device: u64,
    pub interface: u64,
    pub file_index: usize,
    pub file_size: u64,
}

/// Index of the first device in order that holds a file with the given path;
/// models locating a filesystem device when no explicit handle is given.
pub open spec fn spec_locate(devices: Seq<FsDevice>, path: Seq<u16>) -> Option<int>
    decreases devices.len(),
{
    if devices.len() == 0 {
        None
    } else if devices[0].spec_find_file(path) is Some {
        Some(0int)
    } else {
        match spec_locate(devices.drop_first(), path) {
            Some(i) => Some(i + 1),
            None => None,
        }
    }
}

/// What resolving `(fs_device, path)` yields, if anything: the device named
/// by a nonzero handle, or the first device holding the path for a zero
/// handle; then the file on that device.
pub open spec fn spec_resolve(store: FileStore, fs_device: u64, path: Seq<u16>) -> Option<
    ResolvedFile,
> {
    let devi = if fs_device != 0 {
        store.spec_device_index(fs_device)
    } else {
        spec_locate(store.devices@, path)
    };
    match devi {
        None => None,
        Some(di) => {
            let d = store.devices[di];
            match d.spec_find_file(path) {
                None => None,
                Some(fi) => Some(
                    ResolvedFile {
                        fs_device: d.handle,
                        interface: d.interface,
                        file_index: fi as usize,
                        file_size: d.files[fi].data.len() as u64,
                    },
                ),
            }
        },
    }
}

proof fn lemma_spec_locate(devices: Seq<FsDevice>, path: Seq<u16>, upto: int)
    requires
        0 <= upto <= devices.len(),
        forall|k: int| 0 <= k < upto ==> (#[trigger] devices[k]).spec_find_file(path) is None,
        upto < devices.len() ==> devices[upto].spec_find_file(path) is Some,
    ensures
        upto < devices.len() ==> spec_locate(devices, path) == Some(upto),
        upto == devices.len() ==> spec_locate(devices, path) is None,
    decreases devices.len(),
{
    if devices.len() > 0 {
        if upto == 0 {
        } else {
            lemma_spec_locate(devices.drop_first(), path, upto - 1);
        }
    }
}

/// Resolve a file reference as the driver does when a mapping target is
/// materialized: an explicit nonzero device handle is looked up, a zero
/// handle is located from the path; then the file is opened on that device.
pub fn resolve_file(store: &FileStore, fs_device: u64, path: &Vec<u16>) -> (r: Result<
    ResolvedFile,
    LoopError,
>)
    requires
        store.wf(),
    ensures
        match spec_resolve(*store, fs_device, path@) {
            Some(res) => r == Ok::<ResolvedFile, LoopError>(res),
            None => r == Err::<ResolvedFile, LoopError>(LoopError::NotFound),
        },
{
    let dev_idx: usize;
    if fs_device != 0 {
        match store.find_device(fs_device) {
            Some(i) => {
                dev_idx = i;
            }
            None => {
                return Err(LoopError::NotFound);
            }
        }
    } else {
        match store.locate_device_for_path(path) {
            Some(i) => {
                proof {
                    lemma_spec_locate(store.devices@, path@, i as int);
                }
                dev_idx = i;
            }
            None => {
                proof {
                    lemma_spec_locate(store.devices@, path@, store.devices@.len() as int);
                }
                return Err(LoopError::NotFound);
            }
        }
    }
    let dev = &store.devices[dev_idx];
    proof {
        assert(store.devices[dev_idx as int].wf());
    }
    match dev.find_file(path) {
        Some(fi) => {
            proof {
                assert(dev.files[fi as int].path@ == path@);
                assert(dev.spec_find_file(path@) is Some);
                let w = dev.spec_find_file(path@).unwrap();
                assert(dev.files[w].path@ == path@);
                if w != fi as int {
                    // distinct files carry distinct paths
                    assert(false);
                }
            }
            Ok(ResolvedFile {
                fs_device: dev.handle,
                interface: dev.interface,
                file_index: fi,
                file_size: dev.files[fi].data.len() as u64,
            })
        }
        None => {
            proof {
                if dev.spec_find_file(path@) is Some {
                    let w = choose|k: int|
                        0 <= k < dev.files.len() && dev.files[k].path@ == path@;
                    assert(dev.files[w].path@ == path@);
                }
            }
            Err(LoopError::NotFound)
        }
    }
}


proof fn lemma_spec_locate_bounds(devices: Seq<FsDevice>, path: Seq<u16>)
    ensures
        spec_locate(devices, path) matches Some(i) ==> 0 <= i < devices.len()
            && devices[i].spec_find_file(path) is Some,
    decreases devices.len(),
{
    if devices.len() > 0 && !(devices[0].spec_find_file(path) is Some) {
        lemma_spec_locate_bounds(devices.drop_first(), path);
        match spec_locate(devices.drop_first(), path) {
            Some(i) => {
                assert(devices.drop_first()[i] == devices[i + 1]);
            },
            None => {},
        }
    }
}

/// A successful resolution names a device slot and file slot that exist,
/// and its size is that file's length.
pub proof fn lemma_resolve_valid(store: FileStore, fs_device: u64, path: Seq<u16>)
    requires
        store.wf(),
        spec_resolve(store, fs_device, path) is Some,
    ensures
        ({
            let r = spec_resolve(store, fs_device, path).unwrap();
            &&& store.spec_device_index(r.fs_device) is Some
            &&& (r.file_index as int) < store.devices@[store.spec_device_index(
                r.fs_device,
            ).unwrap()].files@.len()
            &&& store.devices@[store.spec_device_index(r.fs_device).unwrap()].files@[
                r.file_index as int].data@.len() == r.file_size
            &&& store.devices@[store.spec_device_index(r.fs_device).unwrap()].interface
                == r.interface
        }),
{
    let devi = if fs_device != 0 {
        store.spec_device_index(fs_device)
    } else {
        spec_locate(store.devices@, path)
    };
    if fs_device == 0 {
        lemma_spec_locate_bounds(store.devices@, path);
    }
    let di = devi.unwrap();
    assert(0 <= di < store.devices.len()) by {
        if fs_device != 0 {
            let w = choose|w: int|
                0 <= w < store.devices.len() && store.devices[w].handle == fs_device;
            if di != w {
            }
        }
    }
    let d = store.devices[di];
    let fi = d.spec_find_file(path).unwrap();
    assert(0 <= fi < d.files.len() && d.files[fi].path@ == path) by {
        let w = choose|w: int| 0 <= w < d.files.len() && d.files[w].path@ == path;
        if fi != w {
        }
    }
    let r = spec_resolve(store, fs_device, path).unwrap();
    assert(r.fs_device == d.handle);
    assert(store.spec_device_index(d.handle) == Some(di)) by {
        assert(store.devices[di].handle == d.handle);
        assert(store.spec_device_index(d.handle) is Some);
        let w = store.spec_device_index(d.handle).unwrap();
        assert(store.devices[w].handle == d.handle);
        if w != di {
            if w < di {
                assert(store.devices[w].handle != store.devices[di].handle);
            } else {
                assert(store.devices[di].handle != store.devices[w].handle);
            }
            assert(false);
        }
    }
}

} // verus!
