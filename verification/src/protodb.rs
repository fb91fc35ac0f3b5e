//! A model of the firmware's handle database: each handle carries a set of
//! installed protocol interfaces, named by GUID.
//!
//! Multi-protocol install and uninstall are atomic: on any failure midway,
//! the entries already processed are rolled back, so a handle either gains
//! all the requested interfaces or none, and loses all or none.

use vstd::prelude::*;
use crate::status::LoopError;

verus! {

/// One handle and the protocols installed on it.
pub struct HandleEntry {
    pub handle: u64,
    pub protocols: Vec<u128>,
}

/// The firmware handle database.
pub struct ProtocolDb {
    pub entries: Vec<HandleEntry>,
    pub next_handle: u64,
}

impl HandleEntry {
    /// Protocols on one handle are distinct.
    pub open spec fn wf(&self) -> bool {
        forall|i: int, j: int|
            0 <= i < j < self.protocols.len() ==> self.protocols[i] != self.protocols[j]
    }

    /// Whether the given protocol is installed on this handle.
    pub open spec fn spec_has(&self, guid: u128) -> bool {
        exists|i: int| 0 <= i < self.protocols.len() && self.protocols[i] == guid
    }

    fn find(&self, guid: u128) -> (r: Option<usize>)
        ensures
            match r {
                Some(i) => i < self.protocols.len() && self.protocols[i as int] == guid,
                None => !self.spec_has(guid),
            },
    {
        let mut i: usize = 0;
        while i < self.protocols.len()
            invariant
                i <= self.protocols.len(),
                forall|k: int| 0 <= k < i ==> self.protocols[k] != guid,
            decreases self.protocols.len() - i,
        {
            if self.protocols[i] == guid {
                return Some(i);
            }
            i = i + 1;
        }
        None
    }
}

impl ProtocolDb {
    /// Handles are nonzero, distinct, below the issue counter, and each
    /// entry is well-formed.
    pub open spec fn wf(&self) -> bool {
        &&& forall|i: int| 0 <= i < self.entries.len() ==> (#[trigger] self.entries[i]).handle != 0
        &&& forall|i: int|
            0 <= i < self.entries.len() ==> (#[trigger] self.entries[i]).handle < self.next_handle
        &&& forall|i: int, j: int|
            0 <= i < j < self.entries.len() ==> self.entries[i].handle != self.entries[j].handle
        &&& forall|i: int| 0 <= i < self.entries.len() ==> (#[trigger] self.entries[i]).wf()
        &&& self.next_handle >= 1
    }

    /// A fresh, empty database.
    pub fn new() -> (r: ProtocolDb)
        ensures
            r.wf(),
            r.entries@.len() == 0,
    {
        ProtocolDb { entries: Vec::new(), next_handle: 1 }
    }

    /// Index of the entry for `handle`, if present.
    pub open spec fn spec_entry_index(&self, handle: u64) -> Option<int> {
        if exists|i: int| 0 <= i < self.entries.len() && self.entries[i].handle == handle {
            Some(choose|i: int| 0 <= i < self.entries.len() && self.entries[i].handle == handle)
        } else {
            None
        }
    }

    /// Whether `guid` is installed on `handle`.
    pub open spec fn spec_has(&self, handle: u64, guid: u128) -> bool {
        match self.spec_entry_index(handle) {
            Some(i) => self.entries[i].spec_has(guid),
            None => false,
        }
    }

    /// Whether any handle carries `guid`.
    pub open spec fn spec_any_has(&self, guid: u128) -> bool {
        exists|i: int| 0 <= i < self.entries.len() && (#[trigger] self.entries[i]).spec_has(guid)
    }

    /// Look up the entry for `handle`.
    pub fn find_entry(&self, handle: u64) -> (r: Option<usize>)
        requires
            self.wf(),
        ensures
            match r {
                Some(i) => {
                    &&& i < self.entries.len()
                    &&& self.entries[i as int].handle == handle
                    &&& self.spec_entry_index(handle) == Some(i as int)
                },
                None => self.spec_entry_index(handle) is None,
            },
    {
        let mut i: usize = 0;
        while i < self.entries.len()
            invariant
                self.wf(),
                i <= self.entries.len(),
                forall|k: int| 0 <= k < i ==> (#[trigger] self.entries[k]).handle != handle,
            decreases self.entries.len() - i,
        {
            if self.entries[i].handle == handle {
                proof {
                    assert(self.spec_entry_index(handle) is Some);
                    let w = self.spec_entry_index(handle).unwrap();
                    assert(self.entries[w].handle == handle);
                    if w != i as int {
                        assert(false);
                    }
                }
                return Some(i);
            }
            i = i + 1;
        }
        None
    }

    /// Whether some handle carries `guid`; models locating a protocol.
    pub fn any_has(&self, guid: u128) -> (r: bool)
        ensures
            r == self.spec_any_has(guid),
    {
        let mut i: usize = 0;
        while i < self.entries.len()
            invariant
                i <= self.entries.len(),
                forall|k: int| 0 <= k < i ==> !(#[trigger] self.entries[k]).spec_has(guid),
            decreases self.entries.len() - i,
        {
            match self.entries[i].find(guid) {
                Some(_) => {
                    proof {
                        assert(self.entries[i as int].spec_has(guid));
                    }
                    return true;
                },
                None => {},
            }
            i = i + 1;
        }
        false
    }

    /// Whether `guid` is installed on `handle`; models looking an interface
    /// up to compare it with a snapshot.
    pub fn has_protocol(&self, handle: u64, guid: u128) -> (r: bool)
        requires
            self.wf(),
        ensures
            r == self.spec_has(handle, guid),
    {
        match self.find_entry(handle) {
            Some(i) => match self.entries[i].find(guid) {
                Some(_) => {
                    proof {
                        assert(self.entries[i as int].spec_has(guid));
                    }
                    true
                },
                None => false,
            },
            None => false,
        }
    }

    /// Install one interface. A zero handle asks for a new handle to be
    /// created; installing a protocol twice on one handle is rejected.
    pub fn install_protocol_interface(&mut self, handle: u64, guid: u128) -> (r: Result<
        u64,
        LoopError,
    >)
        requires
            old(self).wf(),
        ensures
            final(self).wf(),
            match r {
                Ok(h) => {
                    &&& h != 0
                    &&& if handle == 0 {
                        &&& old(self).next_handle < u64::MAX
                        &&& h == old(self).next_handle
                        &&& final(self).next_handle == old(self).next_handle + 1
                        &&& final(self).entries@.len() == old(self).entries@.len() + 1
                        &&& final(self).entries@.last().handle == h
                        &&& final(self).entries@.last().protocols@ == seq![guid]
                        &&& final(self).entries@.subrange(0, old(self).entries@.len() as int)
                            == old(self).entries@
                    } else {
                        &&& h == handle
                        &&& old(self).spec_entry_index(handle) is Some
                        &&& !old(self).spec_has(handle, guid)
                        &&& final(self).next_handle == old(self).next_handle
                        &&& final(self).entries@.len() == old(self).entries@.len()
                        &&& {
                            let i = old(self).spec_entry_index(handle).unwrap();
                            &&& forall|k: int|
                                0 <= k < old(self).entries@.len() && k != i ==> final(self).entries@[k] == old(self).entries@[k]
                            &&& final(self).entries@[i].handle == handle
                            &&& final(self).entries@[i].protocols@ == old(self).entries@[i].protocols@.push(guid)
                        }
                    }
                },
                Err(e) => {
                    &&& *final(self) == *old(self)
                    &&& if handle == 0 {
                        e == LoopError::Aborted && old(self).next_handle == u64::MAX
                    } else {
                        e == LoopError::InvalidParameter && (old(self).spec_entry_index(handle)
                            is None || old(self).spec_has(handle, guid))
                    }
                },
            },
    {
        if handle == 0 {
            if self.next_handle == u64::MAX {
                return Err(LoopError::Aborted);
            }
            let h = self.next_handle;
            self.next_handle = self.next_handle + 1;
            let mut protocols: Vec<u128> = Vec::new();
            protocols.push(guid);
            self.entries.push(HandleEntry { handle: h, protocols });
            proof {
                assert(final(self).entries@.subrange(0, old(self).entries@.len() as int) =~= old(self).entries@);
                assert(final(self).entries@.last().protocols@ =~= seq![guid]);
            }
            Ok(h)
        } else {
            let i = match self.find_entry(handle) {
                None => {
                    return Err(LoopError::InvalidParameter);
                },
                Some(i) => i,
            };
            match self.entries[i].find(guid) {
                Some(_) => {
                    proof {
                        assert(self.entries[i as int].spec_has(guid));
                    }
                    return Err(LoopError::InvalidParameter);
                },
                None => {},
            }
            self.entries[i].protocols.push(guid);
            proof {
                assert(final(self).wf()) by {
                    assert forall|k: int|
                        0 <= k < self.entries.len() implies (#[trigger] self.entries[k]).wf() by {
                        if k != i as int {
                            assert(self.entries@[k] == old(self).entries@[k]);
                        }
                    }
                }
            }
            Ok(handle)
        }
    }

    /// Uninstall one interface from a handle.
    pub fn uninstall_protocol_interface(&mut self, handle: u64, guid: u128) -> (r: Result<
        (),
        LoopError,
    >)
        requires
            old(self).wf(),
        ensures
            final(self).wf(),
            match r {
                Ok(()) => {
                    &&& old(self).spec_has(handle, guid)
                    &&& final(self).next_handle == old(self).next_handle
                    &&& final(self).entries@.len() == old(self).entries@.len()
                    &&& {
                        let i = old(self).spec_entry_index(handle).unwrap();
                        &&& forall|k: int|
                            0 <= k < old(self).entries@.len() && k != i ==> final(self).entries@[k]
                                == old(self).entries@[k]
                        &&& final(self).entries@[i].handle == handle
                        &&& {
                            let pi = choose|pi: int|
                                0 <= pi < old(self).entries@[i].protocols@.len() && old(self).entries@[i].protocols@[pi] == guid;
                            final(self).entries@[i].protocols@ == old(self).entries@[i].protocols@.remove(pi)
                        }
                    }
                },
                Err(e) => {
                    &&& *final(self) == *old(self)
                    &&& e == LoopError::NotFound
                    &&& !old(self).spec_has(handle, guid)
                },
            },
    {
        let i = match self.find_entry(handle) {
            None => {
                return Err(LoopError::NotFound);
            },
            Some(i) => i,
        };
        let pi = match self.entries[i].find(guid) {
            None => {
                return Err(LoopError::NotFound);
            },
            Some(pi) => pi,
        };
        proof {
            assert(self.entries[i as int].spec_has(guid));
        }
        self.entries[i].protocols.remove(pi);
        proof {
            let w = choose|w: int|
                0 <= w < old(self).entries@[i as int].protocols@.len() && old(self).entries@[i as int].protocols@[w] == guid;
            assert(old(self).entries@[i as int].wf());
            if w != pi as int {
                assert(old(self).entries@[i as int].protocols@[w] == old(self).entries@[i as int].protocols@[pi as int]);
                assert(false);
            }
            assert(final(self).wf()) by {
                assert forall|k: int|
                    0 <= k < self.entries.len() implies (#[trigger] self.entries[k]).wf() by {
                    if k != i as int {
                        assert(self.entries@[k] == old(self).entries@[k]);
                    } else {
                        let oldp = old(self).entries@[k].protocols@;
                        assert forall|a: int, b: int|
                            0 <= a < b < self.entries@[k].protocols@.len() implies self.entries@[k].protocols@[a]
                            != self.entries@[k].protocols@[b] by {
                            assert(self.entries@[k].protocols@ == oldp.remove(pi as int));
                            assert(self.entries@[k].protocols@[a] == if a < pi as int {
                                oldp[a]
                            } else {
                                oldp[a + 1]
                            });
                            assert(self.entries@[k].protocols@[b] == if b < pi as int {
                                oldp[b]
                            } else {
                                oldp[b + 1]
                            });
                        }
                    }
                }
            }
        }
        Ok(())
    }
}



/// Membership in a sequence of GUIDs after one removal.
proof fn lemma_remove_membership(s: Seq<u128>, pi: int)
    requires
        0 <= pi < s.len(),
        forall|i: int, j: int| 0 <= i < j < s.len() ==> s[i] != s[j],
    ensures
        forall|g: u128| s.remove(pi).contains(g) <==> (s.contains(g) && g != s[pi]),
        forall|i: int, j: int|
            0 <= i < j < s.remove(pi).len() ==> s.remove(pi)[i] != s.remove(pi)[j],
{
    let out = s.remove(pi);
    assert forall|g: u128| out.contains(g) implies (s.contains(g) && g != s[pi]) by {
        let w = choose|w: int| 0 <= w < out.len() && out[w] == g;
        if w < pi {
            assert(s[w] == g);
        } else {
            assert(s[w + 1] == g);
        }
    }
    assert forall|g: u128| s.contains(g) && g != s[pi] implies out.contains(g) by {
        let w = choose|w: int| 0 <= w < s.len() && s[w] == g;
        if w < pi {
            assert(out[w] == g);
        } else {
            assert(w > pi);
            assert(out[w - 1] == g);
        }
    }
}

/// Whether installing `guids[j]` would fail, installs being performed from
/// the last entry to the first: the interface is already on the handle, or
/// a later entry of the set installs the same interface before this one.
pub open spec fn spec_install_bad(db: ProtocolDb, handle: u64, guids: Seq<u128>, j: int) -> bool {
    ||| (handle != 0 && db.spec_has(handle, guids[j]))
    ||| exists|j2: int| j < j2 < guids.len() && #[trigger] guids[j2] == guids[j]
}

/// The first failing index in install order (last to first), scanning from
/// `j` downward.
pub open spec fn spec_install_fail(db: ProtocolDb, handle: u64, guids: Seq<u128>, j: int) -> Option<
    int,
>
    decreases j + 1,
{
    if j < 0 {
        None
    } else if spec_install_bad(db, handle, guids, j) {
        Some(j)
    } else {
        spec_install_fail(db, handle, guids, j - 1)
    }
}

/// No failing index means no entry of the set would fail.
pub proof fn lemma_install_fail_none(db: ProtocolDb, handle: u64, guids: Seq<u128>, j: int)
    ensures
        spec_install_fail(db, handle, guids, j) is None <==> forall|jj: int|
            0 <= jj <= j ==> !spec_install_bad(db, handle, guids, jj),
    decreases j + 1,
{
    if j >= 0 {
        lemma_install_fail_none(db, handle, guids, j - 1);
    }
}

impl ProtocolDb {
    /// Install a set of interfaces onto a handle (a zero handle asks for a
    /// fresh one), one conceptual install per entry from the last to the
    /// first, checking every install before performing any: a call that
    /// would fail partway leaves the database exactly as it was, so a
    /// handle gains all the interfaces or none. On failure the index of
    /// the interface whose install fails is reported.
    pub fn install_multiple_protocols(&mut self, handle: u64, guids: &Vec<u128>) -> (r: Result<
        u64,
        (usize, LoopError),
    >)
        requires
            old(self).wf(),
            guids@.len() > 0,
        ensures
            final(self).wf(),
            match r {
                Ok(h) => {
                    &&& h != 0
                    &&& (handle != 0 ==> h == handle && final(self).next_handle == old(
                        self,
                    ).next_handle)
                    &&& (handle == 0 ==> h == old(self).next_handle && old(self).spec_entry_index(h)
                        is None && final(self).next_handle == old(self).next_handle + 1)
                    &&& final(self).spec_entry_index(h) is Some
                    &&& forall|j: int|
                        0 <= j < guids@.len() ==> final(self).spec_has(h, #[trigger] guids@[j])
                    &&& forall|h2: u64, g: u128|
                        h2 != h ==> #[trigger] final(self).spec_has(h2, g) == old(self).spec_has(
                            h2,
                            g,
                        )
                    &&& forall|g: u128|
                        !guids@.contains(g) ==> #[trigger] final(self).spec_has(h, g) == old(
                            self,
                        ).spec_has(h, g)
                    &&& forall|i: int, j: int| 0 <= i < j < guids@.len() ==> guids@[i] != guids@[j]
                    &&& (handle != 0 ==> forall|j: int|
                        0 <= j < guids@.len() ==> !old(self).spec_has(h, #[trigger] guids@[j]))
                },
                Err((k, e)) => {
                    &&& *final(self) == *old(self)
                    &&& (k as int) < guids@.len()
                    &&& if handle == 0 && old(self).next_handle == u64::MAX {
                        k as int == guids@.len() - 1 && e == LoopError::Aborted
                    } else if handle != 0 && old(self).spec_entry_index(handle) is None {
                        k as int == guids@.len() - 1 && e == LoopError::InvalidParameter
                    } else {
                        &&& spec_install_fail(*old(self), handle, guids@, guids@.len() - 1)
                            == Some(k as int)
                        &&& spec_install_bad(*old(self), handle, guids@, k as int)
                        &&& e == LoopError::InvalidParameter
                    }
                    &&& !({
                        &&& (forall|i: int, j: int|
                            0 <= i < j < guids@.len() ==> guids@[i] != guids@[j])
                        &&& if handle == 0 {
                            old(self).next_handle < u64::MAX
                        } else {
                            old(self).spec_entry_index(handle) is Some && forall|j: int|
                                0 <= j < guids@.len() ==> !old(self).spec_has(
                                    handle,
                                    #[trigger] guids@[j],
                                )
                        }
                    })
                },
            },
    {
        // the creating install fails first if the handle space is spent,
        // or if a named handle does not exist
        if handle == 0 && self.next_handle == u64::MAX {
            return Err((guids.len() - 1, LoopError::Aborted));
        }
        let existing_index: usize;
        if handle != 0 {
            match self.find_entry(handle) {
                None => {
                    return Err((guids.len() - 1, LoopError::InvalidParameter));
                },
                Some(i) => {
                    existing_index = i;
                },
            }
        } else {
            existing_index = 0;
        }
        // find the first failing install, from the last entry down
        let ghost fail_full = spec_install_fail(*self, handle, guids@, guids@.len() - 1);
        let mut jj: usize = guids.len();
        while jj > 0
            invariant
                old(self).wf(),
                *self == *old(self),
                guids@.len() > 0,
                jj <= guids@.len(),
                handle == 0 ==> old(self).next_handle < u64::MAX,
                fail_full == spec_install_fail(*old(self), handle, guids@, guids@.len() - 1),
                handle != 0 ==> {
                    &&& (existing_index as int) < self.entries@.len()
                    &&& self.spec_entry_index(handle) == Some(existing_index as int)
                    &&& self.entries@[existing_index as int].handle == handle
                },
                fail_full == spec_install_fail(*old(self), handle, guids@, jj as int - 1),
            decreases jj,
        {
            jj = jj - 1;
            let mut bad = false;
            if handle != 0 {
                match self.entries[existing_index].find(guids[jj]) {
                    Some(_) => {
                        proof {
                            assert(self.entries@[existing_index as int].spec_has(
                                guids@[jj as int],
                            ));
                        }
                        bad = true;
                    },
                    None => {},
                }
            }
            let ghost present = bad;
            let mut j2: usize = jj + 1;
            while j2 < guids.len()
                invariant
                    jj < j2 <= guids@.len(),
                    bad == (present || exists|w: int|
                        jj < w < j2 && #[trigger] guids@[w] == guids@[jj as int]),
                decreases guids@.len() - j2,
            {
                if guids[j2] == guids[jj] {
                    bad = true;
                }
                j2 = j2 + 1;
            }
            if bad {
                proof {
                    assert(spec_install_bad(*old(self), handle, guids@, jj as int)) by {
                        if !present {
                            let w = choose|w: int|
                                jj < w < guids@.len() && #[trigger] guids@[w]
                                    == guids@[jj as int];
                            assert(guids@[w] == guids@[jj as int]);
                        }
                    }
                    assert(fail_full == Some(jj as int));
                    // either an interface is already present or the set
                    // holds a duplicate: the success conditions cannot hold
                    if !(handle != 0 && old(self).spec_has(handle, guids@[jj as int])) {
                        let w = choose|w: int|
                            jj < w < guids@.len() && #[trigger] guids@[w] == guids@[jj as int];
                        assert(guids@[w] == guids@[jj as int]);
                        assert(!(forall|i: int, j: int|
                            0 <= i < j < guids@.len() ==> guids@[i] != guids@[j]));
                    }
                }
                return Err((jj, LoopError::InvalidParameter));
            }
            proof {
                assert(!spec_install_bad(*old(self), handle, guids@, jj as int)) by {
                    if exists|j3: int|
                        jj < j3 < guids@.len() && #[trigger] guids@[j3] == guids@[jj as int] {
                        let w = choose|j3: int|
                            jj < j3 < guids@.len() && #[trigger] guids@[j3]
                                == guids@[jj as int];
                        assert(guids@[w] == guids@[jj as int]);
                        assert(false);
                    }
                    if handle != 0 && old(self).spec_has(handle, guids@[jj as int]) {
                        assert(self.entries@[existing_index as int].spec_has(
                            guids@[jj as int],
                        ));
                        assert(false);
                    }
                }
            }
        }
        proof {
            lemma_install_fail_none(*old(self), handle, guids@, guids@.len() - 1);
            assert forall|i: int, j: int|
                0 <= i < j < guids@.len() implies guids@[i] != guids@[j] by {
                if guids@[i] == guids@[j] {
                    assert(spec_install_bad(*old(self), handle, guids@, i));
                }
            }
            if handle != 0 {
                assert forall|j: int| 0 <= j < guids@.len() implies !old(self).spec_has(
                    handle,
                    #[trigger] guids@[j],
                ) by {
                    if old(self).spec_has(handle, guids@[j]) {
                        assert(spec_install_bad(*old(self), handle, guids@, j));
                    }
                }
            }
        }
        // nothing can fail: perform the installs
        let entry_index: usize;
        if handle == 0 {
            let h = self.next_handle;
            self.next_handle = self.next_handle + 1;
            self.entries.push(HandleEntry { handle: h, protocols: Vec::new() });
            entry_index = self.entries.len() - 1;
            proof {
                assert(old(self).spec_entry_index(h) is None) by {
                    if old(self).spec_entry_index(h) is Some {
                        let w = old(self).spec_entry_index(h).unwrap();
                        assert(old(self).entries[w].handle == h);
                        assert(old(self).entries[w].handle < old(self).next_handle);
                    }
                }
                assert(self.entries@.subrange(0, old(self).entries@.len() as int) =~= old(
                    self,
                ).entries@);
                assert(self.wf()) by {
                    assert forall|i: int, j: int|
                        0 <= i < j < self.entries@.len() implies self.entries@[i].handle
                        != self.entries@[j].handle by {
                        if j < self.entries@.len() - 1 {
                            assert(self.entries@[i] == old(self).entries@[i]);
                            assert(self.entries@[j] == old(self).entries@[j]);
                        } else {
                            assert(self.entries@[i] == old(self).entries@[i]);
                            assert(self.entries@[i].handle < old(self).next_handle);
                        }
                    }
                    assert forall|i: int|
                        0 <= i < self.entries@.len() implies (#[trigger] self.entries@[i]).handle
                        != 0 && self.entries@[i].handle < self.next_handle && self.entries@[i].wf()
                        by {
                        if i < self.entries@.len() - 1 {
                            assert(self.entries@[i] == old(self).entries@[i]);
                        }
                    }
                }
            }
        } else {
            entry_index = existing_index;
            proof {
                assert forall|j: int|
                    0 <= j < guids@.len() implies !self.entries@[entry_index as int].spec_has(
                    #[trigger] guids@[j],
                ) by {
                    assert(!old(self).spec_has(handle, guids@[j]));
                }
            }
        }
        let ghost mid = *self;
        let h = self.entries[entry_index].handle;
        // place the interfaces, last first
        let mut entry = self.entries.remove(entry_index);
        let ghost orig_prot = entry.protocols@;
        let mut k: usize = guids.len();
        while k > 0
            invariant
                k <= guids@.len(),
                entry.handle == h,
                entry.protocols@ == orig_prot + guids@.subrange(
                    k as int,
                    guids@.len() as int,
                ).reverse(),
            decreases k,
        {
            k = k - 1;
            entry.protocols.push(guids[k]);
            proof {
                let sub1 = guids@.subrange(k as int, guids@.len() as int).reverse();
                let sub0 = guids@.subrange(k as int + 1, guids@.len() as int).reverse();
                assert(sub1 =~= sub0.push(guids@[k as int]));
                assert(entry.protocols@ =~= orig_prot + sub1);
            }
        }
        self.entries.insert(entry_index, entry);
        proof {
            assert(guids@.subrange(0, guids@.len() as int) =~= guids@);
            assert(self.entries@ =~= mid.entries@.update(
                entry_index as int,
                self.entries@[entry_index as int],
            ));
            assert(self.entries@[entry_index as int].protocols@ == orig_prot + guids@.subrange(
                0,
                guids@.len() as int,
            ).reverse());
            assert(self.wf()) by {
                assert forall|q: int|
                    0 <= q < self.entries@.len() implies (#[trigger] self.entries@[q]).handle != 0
                    && self.entries@[q].handle < self.next_handle && self.entries@[q].wf() by {
                    if q != entry_index as int {
                        assert(self.entries@[q] == mid.entries@[q]);
                    } else {
                        assert(forall|j: int|
                            0 <= j < guids@.len() ==> !orig_prot.contains(#[trigger] guids@[j]));
                        lemma_appended_distinct(orig_prot, guids@, 0);
                    }
                }
                assert forall|i: int, j: int|
                    0 <= i < j < self.entries@.len() implies self.entries@[i].handle
                    != self.entries@[j].handle by {
                    assert(mid.entries@[i].handle == self.entries@[i].handle);
                    assert(mid.entries@[j].handle == self.entries@[j].handle);
                }
            }
            if handle != 0 {
                assert(mid == *old(self));
            } else {
                assert(mid.entries@.subrange(0, old(self).entries@.len() as int) =~= old(
                    self,
                ).entries@);
            }
            finish_install(mid, *self, old(self), handle, h, entry_index as int, guids@);
        }
        Ok(h)
    }
}


/// A well-formed entry extended by a reversed tail of fresh, distinct GUIDs
/// stays duplicate-free.
proof fn lemma_appended_distinct(orig: Seq<u128>, guids: Seq<u128>, k: int)
    requires
        0 <= k <= guids.len(),
        forall|i: int, j: int| 0 <= i < j < orig.len() ==> orig[i] != orig[j],
        forall|i: int, j: int| 0 <= i < j < guids.len() ==> guids[i] != guids[j],
        forall|j: int| 0 <= j < guids.len() ==> !orig.contains(#[trigger] guids[j]),
    ensures
        ({
            let out = orig + guids.subrange(k, guids.len() as int).reverse();
            forall|i: int, j: int| 0 <= i < j < out.len() ==> out[i] != out[j]
        }),
{
    let tail = guids.subrange(k, guids.len() as int).reverse();
    let out = orig + tail;
    assert forall|i: int, j: int| 0 <= i < j < out.len() implies out[i] != out[j] by {
        if j < orig.len() {
        } else if i >= orig.len() {
            let a = i - orig.len();
            let b = j - orig.len();
            assert(tail[a] == guids[k + (tail.len() - 1 - a)]);
            assert(tail[b] == guids[k + (tail.len() - 1 - b)]);
        } else {
            let b = j - orig.len();
            assert(tail[b] == guids[k + (tail.len() - 1 - b)]);
            assert(!orig.contains(guids[k + (tail.len() - 1 - b)]));
            if out[i] == out[j] {
                assert(orig[i] == guids[k + (tail.len() - 1 - b)]);
            }
        }
    }
}

/// Conclude the membership contract of a multi-install from the structural
/// relation between the three database states.
proof fn finish_install(
    mid: ProtocolDb,
    post: ProtocolDb,
    db0: &ProtocolDb,
    handle: u64,
    h: u64,
    entry_index: int,
    guids: Seq<u128>,
)
    requires
        db0.wf(),
        mid.wf(),
        post.wf(),
        0 <= entry_index < post.entries@.len(),
        post.entries@.len() == mid.entries@.len(),
        forall|q: int|
            0 <= q < post.entries@.len() && q != entry_index ==> post.entries@[q]
                == mid.entries@[q],
        post.entries@[entry_index].handle == h,
        mid.entries@[entry_index].handle == h,
        post.entries@[entry_index].protocols@ == mid.entries@[entry_index].protocols@
            + guids.subrange(0, guids.len() as int).reverse(),
        if handle == 0 {
            &&& mid.entries@.len() == db0.entries@.len() + 1
            &&& mid.entries@.subrange(0, db0.entries@.len() as int) == db0.entries@
            &&& entry_index == db0.entries@.len()
            &&& mid.entries@[entry_index].protocols@ == Seq::<u128>::empty()
            &&& h == db0.next_handle
        } else {
            &&& mid == *db0
            &&& h == handle
        },
    ensures
        post.spec_entry_index(h) == Some(entry_index),
        forall|j: int| 0 <= j < guids.len() ==> post.spec_has(h, #[trigger] guids[j]),
        forall|h2: u64, g: u128|
            h2 != h ==> #[trigger] post.spec_has(h2, g) == db0.spec_has(h2, g),
        forall|g: u128|
            !guids.contains(g) ==> #[trigger] post.spec_has(h, g) == db0.spec_has(h, g),
        handle == 0 ==> db0.spec_entry_index(h) is None,
{
    let tail = guids.subrange(0, guids.len() as int).reverse();
    assert(tail.len() == guids.len());
    assert(post.spec_entry_index(h) == Some(entry_index)) by {
        assert(post.entries[entry_index].handle == h);
        assert(post.spec_entry_index(h) is Some);
        let w = post.spec_entry_index(h).unwrap();
        assert(post.entries[w].handle == h);
        if w != entry_index {
            assert(false);
        }
    }
    if handle == 0 {
        assert(db0.spec_entry_index(h) is None) by {
            if db0.spec_entry_index(h) is Some {
                let w = db0.spec_entry_index(h).unwrap();
                assert(db0.entries[w].handle == h);
                assert(db0.entries[w].handle < db0.next_handle);
            }
        }
    }
    assert forall|j: int| 0 <= j < guids.len() implies post.spec_has(h, #[trigger] guids[j]) by {
        let pos = mid.entries@[entry_index].protocols@.len() + (guids.len() - 1 - j);
        assert(tail[guids.len() - 1 - j] == guids[j]);
        assert(post.entries@[entry_index].protocols@[pos as int] == guids[j]);
        assert(post.entries[entry_index].spec_has(guids[j]));
    }
    assert forall|h2: u64, g: u128| h2 != h implies #[trigger] post.spec_has(h2, g)
        == db0.spec_has(h2, g) by {
        lemma_other_handle(mid, post, db0, handle, h, entry_index, h2);
    }
    assert forall|g: u128| !guids.contains(g) implies #[trigger] post.spec_has(h, g)
        == db0.spec_has(h, g) by {
        let origp = mid.entries@[entry_index].protocols@;
        assert(post.entries[entry_index].spec_has(g) == origp.contains(g)) by {
            if post.entries[entry_index].spec_has(g) {
                let w = choose|w: int|
                    0 <= w < post.entries@[entry_index].protocols@.len()
                        && post.entries@[entry_index].protocols@[w] == g;
                if w >= origp.len() {
                    let a = w - origp.len();
                    assert(tail[a] == guids[guids.len() - 1 - a]);
                    assert(guids.contains(g));
                } else {
                    assert(origp[w] == g);
                }
            } else {
                if origp.contains(g) {
                    let w = choose|w: int| 0 <= w < origp.len() && origp[w] == g;
                    assert(post.entries@[entry_index].protocols@[w] == g);
                }
            }
        }
        if handle == 0 {
            assert(!post.entries[entry_index].spec_has(g));
            assert(db0.spec_has(h, g) == false);
        } else {
            assert(db0.spec_entry_index(h) == Some(entry_index)) by {
                assert(db0.entries[entry_index].handle == h);
                assert(db0.spec_entry_index(h) is Some);
                let w = db0.spec_entry_index(h).unwrap();
                assert(db0.entries[w].handle == h);
                if w != entry_index {
                    assert(false);
                }
            }
        }
    }
}

/// A handle other than the target resolves to the same entry, with the
/// same protocols, before and after the install.
proof fn lemma_other_handle(
    mid: ProtocolDb,
    post: ProtocolDb,
    db0: &ProtocolDb,
    handle: u64,
    h: u64,
    entry_index: int,
    h2: u64,
)
    requires
        db0.wf(),
        mid.wf(),
        post.wf(),
        0 <= entry_index < post.entries@.len(),
        post.entries@.len() == mid.entries@.len(),
        forall|q: int|
            0 <= q < post.entries@.len() && q != entry_index ==> post.entries@[q]
                == mid.entries@[q],
        post.entries@[entry_index].handle == h,
        mid.entries@[entry_index].handle == h,
        if handle == 0 {
            &&& mid.entries@.len() == db0.entries@.len() + 1
            &&& mid.entries@.subrange(0, db0.entries@.len() as int) == db0.entries@
            &&& entry_index == db0.entries@.len()
        } else {
            mid == *db0
        },
        h2 != h,
    ensures
        forall|g: u128| #[trigger] post.spec_has(h2, g) == db0.spec_has(h2, g),
{
    assert forall|g: u128| #[trigger] post.spec_has(h2, g) == db0.spec_has(h2, g) by {
        if db0.spec_entry_index(h2) is Some {
            let w = db0.spec_entry_index(h2).unwrap();
            assert(db0.entries[w].handle == h2);
            if handle == 0 {
                assert(mid.entries@.subrange(0, db0.entries@.len() as int)[w]
                    == db0.entries@[w]);
            }
            assert(post.entries@[w] == db0.entries@[w]);
            assert(post.spec_entry_index(h2) == Some(w)) by {
                assert(post.entries[w].handle == h2);
                assert(post.spec_entry_index(h2) is Some);
                let v = post.spec_entry_index(h2).unwrap();
                assert(post.entries[v].handle == h2);
                if v != w {
                    assert(false);
                }
            }
        } else {
            assert(post.spec_entry_index(h2) is None) by {
                if post.spec_entry_index(h2) is Some {
                    let v = post.spec_entry_index(h2).unwrap();
                    assert(post.entries[v].handle == h2);
                    if v == entry_index {
                        assert(false);
                    } else {
                        if handle == 0 && v < db0.entries@.len() {
                            assert(mid.entries@.subrange(0, db0.entries@.len() as int)[v]
                                == db0.entries@[v]);
                            assert(db0.entries[v].handle == h2);
                            assert(false);
                        } else if handle == 0 {
                            assert(false);
                        } else {
                            assert(db0.entries[v].handle == h2);
                            assert(false);
                        }
                    }
                }
            }
        }
    }
}


impl ProtocolDb {
    /// Uninstall a set of interfaces from a handle, checking every removal
    /// before performing any: a call that would fail partway leaves the
    /// handle with exactly the set it began with. On failure the index of
    /// the offending interface is reported.
    pub fn uninstall_multiple_protocols(&mut self, handle: u64, guids: &Vec<u128>) -> (r: Result<
        (),
        (usize, LoopError),
    >)
        requires
            old(self).wf(),
        ensures
            final(self).wf(),
            match r {
                Ok(()) => {
                    &&& old(self).spec_entry_index(handle) is Some
                    &&& final(self).next_handle == old(self).next_handle
                    &&& forall|j: int|
                        0 <= j < guids@.len() ==> old(self).spec_has(handle, #[trigger] guids@[j])
                    &&& forall|i: int, j: int| 0 <= i < j < guids@.len() ==> guids@[i] != guids@[j]
                    &&& forall|j: int|
                        0 <= j < guids@.len() ==> !final(self).spec_has(
                            handle,
                            #[trigger] guids@[j],
                        )
                    &&& forall|g: u128|
                        !guids@.contains(g) ==> #[trigger] final(self).spec_has(handle, g) == old(
                            self,
                        ).spec_has(handle, g)
                    &&& forall|h2: u64, g: u128|
                        h2 != handle ==> #[trigger] final(self).spec_has(h2, g) == old(
                            self,
                        ).spec_has(h2, g)
                },
                Err((k, e)) => {
                    &&& *final(self) == *old(self)
                    &&& e == LoopError::NotFound
                    &&& !({
                        &&& old(self).spec_entry_index(handle) is Some
                        &&& forall|j: int|
                            0 <= j < guids@.len() ==> old(self).spec_has(
                                handle,
                                #[trigger] guids@[j],
                            )
                        &&& forall|i: int, j: int|
                            0 <= i < j < guids@.len() ==> guids@[i] != guids@[j]
                    })
                },
            },
    {
        // validate everything first; only then touch the database
        let entry_index = match self.find_entry(handle) {
            None => {
                return Err((0, LoopError::NotFound));
            },
            Some(i) => i,
        };
        let mut j: usize = 0;
        while j < guids.len()
            invariant
                self.wf(),
                *self == *old(self),
                (entry_index as int) < self.entries@.len(),
                self.spec_entry_index(handle) == Some(entry_index as int),
                self.entries@[entry_index as int].handle == handle,
                j <= guids@.len(),
                forall|k: int|
                    0 <= k < j ==> self.entries@[entry_index as int].spec_has(
                        #[trigger] guids@[k],
                    ),
                forall|a: int, b: int| 0 <= a < b < j ==> guids@[a] != guids@[b],
            decreases guids@.len() - j,
        {
            match self.entries[entry_index].find(guids[j]) {
                None => {
                    return Err((j, LoopError::NotFound));
                },
                Some(_) => {
                    proof {
                        assert(self.entries@[entry_index as int].spec_has(guids@[j as int]));
                    }
                },
            }
            let mut b: usize = 0;
            while b < j
                invariant
                    old(self).wf(),
                    *self == *old(self),
                    b <= j < guids@.len(),
                    forall|i: int| 0 <= i < b ==> guids@[i] != guids@[j as int],
                decreases j - b,
            {
                if guids[b] == guids[j] {
                    // removing the same interface twice would fail midway
                    return Err((j, LoopError::NotFound));
                }
                b = b + 1;
            }
            j = j + 1;
        }
        let ghost mid = *self;
        let mut entry = self.entries.remove(entry_index);
        let ghost orig_prot = entry.protocols@;
        proof {
            assert(orig_prot == mid.entries@[entry_index as int].protocols@);
        }
        let mut k: usize = 0;
        while k < guids.len()
            invariant
                k <= guids@.len(),
                entry.handle == handle,
                forall|a: int, b: int|
                    0 <= a < b < entry.protocols@.len() ==> entry.protocols@[a]
                        != entry.protocols@[b],
                forall|g: u128|
                    entry.protocols@.contains(g) <==> (orig_prot.contains(g)
                        && !guids@.subrange(0, k as int).contains(g)),
                forall|a: int, b: int| 0 <= a < b < guids@.len() ==> guids@[a] != guids@[b],
                forall|a: int|
                    0 <= a < guids@.len() ==> orig_prot.contains(#[trigger] guids@[a]),
                forall|a: int, b: int|
                    0 <= a < b < orig_prot.len() ==> orig_prot[a] != orig_prot[b],
            decreases guids@.len() - k,
        {
            let g = guids[k];
            proof {
                assert(entry.protocols@.contains(g)) by {
                    assert(orig_prot.contains(guids@[k as int]));
                    assert(!guids@.subrange(0, k as int).contains(g)) by {
                        if guids@.subrange(0, k as int).contains(g) {
                            let w = choose|w: int|
                                0 <= w < k && guids@.subrange(0, k as int)[w] == g;
                            assert(guids@[w] == guids@[k as int]);
                        }
                    }
                }
            }
            let pi = match entry.find(g) {
                None => {
                    proof {
                        assert(false);
                    }
                    return Err((k, LoopError::NotFound));
                },
                Some(pi) => pi,
            };
            let ghost before = entry.protocols@;
            entry.protocols.remove(pi);
            proof {
                lemma_remove_membership(before, pi as int);
                assert forall|g2: u128| entry.protocols@.contains(g2) <==> (orig_prot.contains(g2)
                    && !guids@.subrange(0, (k + 1) as int).contains(g2)) by {
                    let prefix1 = guids@.subrange(0, (k + 1) as int);
                    let prefix0 = guids@.subrange(0, k as int);
                    assert(prefix1.drop_last() =~= prefix0);
                    assert(prefix1.last() == guids@[k as int]);
                    if g2 == g {
                        assert(prefix1[k as int] == g);
                        assert(prefix1.contains(g));
                    } else {
                        assert(prefix1.contains(g2) == prefix0.contains(g2)) by {
                            if prefix1.contains(g2) {
                                let w = choose|w: int|
                                    0 <= w < prefix1.len() && prefix1[w] == g2;
                                if w < k {
                                    assert(prefix0[w] == g2);
                                }
                            }
                            if prefix0.contains(g2) {
                                let w = choose|w: int|
                                    0 <= w < prefix0.len() && prefix0[w] == g2;
                                assert(prefix1[w] == g2);
                            }
                        }
                    }
                }
            }
            k = k + 1;
        }
        self.entries.insert(entry_index, entry);
        proof {
            assert(handle != 0) by {
                assert(mid.entries@[entry_index as int].handle != 0);
            }
            assert(self.entries@ =~= mid.entries@.update(
                entry_index as int,
                self.entries@[entry_index as int],
            ));
            assert(self.wf()) by {
                assert forall|q: int|
                    0 <= q < self.entries@.len() implies (#[trigger] self.entries@[q]).handle != 0
                    && self.entries@[q].handle < self.next_handle && self.entries@[q].wf() by {
                    if q != entry_index as int {
                        assert(self.entries@[q] == mid.entries@[q]);
                    }
                }
                assert forall|i2: int, j2: int|
                    0 <= i2 < j2 < self.entries@.len() implies self.entries@[i2].handle
                    != self.entries@[j2].handle by {
                    assert(mid.entries@[i2].handle == self.entries@[i2].handle);
                    assert(mid.entries@[j2].handle == self.entries@[j2].handle);
                }
            }
            assert(mid == *old(self));
            assert forall|h2: u64, g: u128| h2 != handle implies #[trigger] self.spec_has(h2, g)
                == old(self).spec_has(h2, g) by {
                lemma_other_handle(mid, *self, old(self), handle, handle, entry_index as int, h2);
            }
            assert(self.spec_entry_index(handle) == Some(entry_index as int)) by {
                assert(self.entries[entry_index as int].handle == handle);
                assert(self.spec_entry_index(handle) is Some);
                let w = self.spec_entry_index(handle).unwrap();
                assert(self.entries[w].handle == handle);
                if w != entry_index as int {
                    assert(false);
                }
            }
            assert(guids@.subrange(0, guids@.len() as int) =~= guids@);
            assert(old(self).spec_entry_index(handle) == Some(entry_index as int)) by {
                assert(old(self).entries[entry_index as int].handle == handle);
                assert(old(self).spec_entry_index(handle) is Some);
                let w = old(self).spec_entry_index(handle).unwrap();
                assert(old(self).entries[w].handle == handle);
                if w != entry_index as int {
                    assert(false);
                }
            }
            assert forall|g: u128| #[trigger] self.entries@[entry_index as int].spec_has(g)
                == self.entries@[entry_index as int].protocols@.contains(g) by {
                lemma_has_is_contains(self.entries@[entry_index as int]);
            }
            assert forall|g: u128| #[trigger] old(self).entries@[entry_index as int].spec_has(g)
                == orig_prot.contains(g) by {
                lemma_has_is_contains(old(self).entries@[entry_index as int]);
            }
            assert forall|j2: int| 0 <= j2 < guids@.len() implies !self.spec_has(
                handle,
                #[trigger] guids@[j2],
            ) by {
                assert(guids@.contains(guids@[j2]));
            }
            assert forall|g: u128| !guids@.contains(g) implies #[trigger] self.spec_has(handle, g)
                == old(self).spec_has(handle, g) by {
                assert(self.entries@[entry_index as int].protocols@.contains(g)
                    == orig_prot.contains(g));
            }
        }
        Ok(())
    }
}


/// An entry holds a protocol exactly when its list contains it.
proof fn lemma_has_is_contains(e: HandleEntry)
    ensures
        forall|g: u128| #[trigger] e.spec_has(g) == e.protocols@.contains(g),
{
    assert forall|g: u128| #[trigger] e.spec_has(g) == e.protocols@.contains(g) by {
        if e.spec_has(g) {
            let w = choose|w: int| 0 <= w < e.protocols.len() && e.protocols[w] == g;
            assert(e.protocols@[w] == g);
        }
        if e.protocols@.contains(g) {
            let w = choose|w: int| 0 <= w < e.protocols@.len() && e.protocols@[w] == g;
            assert(e.protocols[w] == g);
        }
    }
}

} // verus!
