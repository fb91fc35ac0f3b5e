//! Mapping tables: the device-mapper-style linear layout of a loopback
//! device.
//!
//! A table is a list of items, each sending a range of logical sectors to a
//! target: zero-fill, a device-owned pool, or a region of a file. The public
//! form ([`LoopMappingItem`]) is what callers supply; the internal form
//! ([`PrivMappingItem`]) carries the resolved file metadata and the attached
//! pool slot.

use vstd::prelude::*;
use crate::pool::PoolHandle;

verus! {

/// The target of one mapping item, as supplied by a caller.
pub enum LoopTarget {
    /// Reads return zero bytes; writes are discarded.
    Zero,
    /// A pool previously handed out by this device's allocator. Ownership of
    /// the buffer transfers back to the device at the call boundary.
    LoopPool { buffer: PoolHandle },
    /// A region of a regular file. A zero `fs_device` means the filesystem
    /// device is located from the path.
    File { fs_device: u64, path: Vec<u16> },
}

/// One caller-supplied mapping item. All quantities are in 512-byte sectors.
pub struct LoopMappingItem {
    pub start_sector: u64,
    pub num_sectors: u64,
    pub target: LoopTarget,
    pub target_start_sector: u64,
}

impl LoopMappingItem {
    /// First sector after this item.
    pub fn end_sector(&self) -> (r: u64)
        requires
            self.start_sector + self.num_sectors <= u64::MAX,
        ensures
            r == self.start_sector + self.num_sectors,
    {
        self.start_sector + self.num_sectors
    }
}

/// The resolved target held by the device.
pub enum PrivTarget {
    /// Zero-fill.
    Zero,
    /// The pool slot attached to this item; the device owns it.
    Pool { index: usize },
    /// A resolved file: the filesystem device's handle, the file's path, the
    /// opened file's index on its device, a snapshot of the filesystem
    /// interface pointer for tamper detection, and the file size observed at
    /// resolution time.
    File { fs_device: u64, path: Vec<u16>, file_index: usize, interface: u64, file_size: u64 },
}

/// One internal mapping item.
pub struct PrivMappingItem {
    pub start_sector: u64,
    pub num_sectors: u64,
    pub target: PrivTarget,
    pub target_start_sector: u64,
}

impl PrivMappingItem {
    /// First sector after this item (specification form).
    pub open spec fn spec_end_sector(&self) -> int {
        self.start_sector + self.num_sectors
    }
}

/// The first sector not covered by the table: 0 for an empty table, the last
/// item's end otherwise.
pub open spec fn table_end(t: Seq<PrivMappingItem>) -> int {
    if t.len() == 0 {
        0
    } else {
        t.last().spec_end_sector()
    }
}

/// A well-formed table partitions `[0, table_end)` contiguously from 0: the
/// first item starts at sector 0 and each item begins where its predecessor
/// ends. Sums stay within `u64`.
pub open spec fn table_contiguous(t: Seq<PrivMappingItem>) -> bool {
    &&& forall|i: int|
        0 <= i < t.len() ==> (#[trigger] t[i]).start_sector + t[i].num_sectors <= u64::MAX
    &&& t.len() > 0 ==> t[0].start_sector == 0
    &&& forall|i: int|
        0 < i < t.len() ==> (#[trigger] t[i]).start_sector == t[i - 1].spec_end_sector()
}

/// Index of the item containing sector `s`, for `0 <= s < table_end(t)`.
pub open spec fn item_index_for(t: Seq<PrivMappingItem>, s: int) -> int
    decreases t.len(),
{
    if t.len() == 0 {
        0
    } else if s < t.last().start_sector {
        item_index_for(t.drop_last(), s)
    } else {
        t.len() - 1
    }
}

/// In a contiguous table, every sector below `table_end` lies in exactly the
/// item that `item_index_for` names.
pub proof fn lemma_item_index_for(t: Seq<PrivMappingItem>, s: int)
    requires
        table_contiguous(t),
        0 <= s < table_end(t),
    ensures
        0 <= item_index_for(t, s) < t.len(),
        t[item_index_for(t, s)].start_sector <= s < t[item_index_for(t, s)].spec_end_sector(),
    decreases t.len(),
{
    if t.len() == 0 {
        // excluded by 0 <= s < table_end(t) == 0
    } else if s < t.last().start_sector {
        assert(t.len() > 1) by {
            if t.len() == 1 {
                assert(t[0].start_sector == 0);
            }
        }
        assert(table_contiguous(t.drop_last())) by {
            assert(forall|i: int|
                0 <= i < t.len() - 1 ==> t.drop_last()[i] == t[i]);
        }
        assert(table_end(t.drop_last()) == t[t.len() - 2].spec_end_sector());
        assert(t.last().start_sector == t[t.len() - 2].spec_end_sector());
        lemma_item_index_for(t.drop_last(), s);
        assert(t.drop_last()[item_index_for(t.drop_last(), s)]
            == t[item_index_for(t.drop_last(), s)]);
    } else {
    }
}

/// The sequence is ordered by `start_sector`.
pub open spec fn sorted_by_start(s: Seq<LoopMappingItem>) -> bool {
    forall|i: int, j: int|
        0 <= i < j < s.len() ==> (#[trigger] s[i]).start_sector <= (#[trigger] s[j]).start_sector
}

/// Insert `x` into `s` from the right, before every element with a strictly
/// larger start sector; the specification of one stable insertion-sort step.
pub open spec fn spec_insert_by_start(s: Seq<LoopMappingItem>, x: LoopMappingItem) -> Seq<
    LoopMappingItem,
>
    decreases s.len(),
{
    if s.len() == 0 {
        seq![x]
    } else if x.start_sector < s.last().start_sector {
        spec_insert_by_start(s.drop_last(), x).push(s.last())
    } else {
        s.push(x)
    }
}

/// Stable sort of mapping items by start sector.
pub open spec fn spec_sort_by_start(s: Seq<LoopMappingItem>) -> Seq<LoopMappingItem>
    decreases s.len(),
{
    if s.len() == 0 {
        s
    } else {
        spec_insert_by_start(spec_sort_by_start(s.drop_last()), s.last())
    }
}

proof fn lemma_insert_sorted(s: Seq<LoopMappingItem>, x: LoopMappingItem)
    requires
        sorted_by_start(s),
    ensures
        spec_insert_by_start(s, x).len() == s.len() + 1,
        sorted_by_start(spec_insert_by_start(s, x)),
        forall|i: int|
            0 <= i < spec_insert_by_start(s, x).len() ==> (#[trigger] spec_insert_by_start(s, x)[i])
                == x || s.contains(spec_insert_by_start(s, x)[i]),
    decreases s.len(),
{
    let out = spec_insert_by_start(s, x);
    if s.len() == 0 {
    } else if x.start_sector < s.last().start_sector {
        let dl = s.drop_last();
        assert(sorted_by_start(dl)) by {
            assert(forall|i: int| 0 <= i < dl.len() ==> dl[i] == s[i]);
        }
        lemma_insert_sorted(dl, x);
        let sub = spec_insert_by_start(dl, x);
        assert(forall|i: int| 0 <= i < sub.len() ==> sub[i] == x || dl.contains(sub[i]));
        assert forall|i: int| 0 <= i < out.len() implies out[i] == x || s.contains(out[i]) by {
            if i < sub.len() {
                assert(out[i] == sub[i]);
                if sub[i] != x {
                    let w = choose|k: int| 0 <= k < dl.len() && dl[k] == sub[i];
                    assert(s[w] == sub[i]);
                }
            } else {
                assert(out[i] == s.last());
                assert(s[s.len() - 1] == s.last());
            }
        }
        assert forall|i: int, j: int| 0 <= i < j < out.len() implies out[i].start_sector
            <= out[j].start_sector by {
            if j < sub.len() {
            } else {
                // out[j] is the old last element, at least every dl element and x
                assert(out[j] == s.last());
                if out[i] == x {
                } else {
                    let w = choose|k: int| 0 <= k < dl.len() && dl[k] == out[i];
                    assert(s[w].start_sector <= s[s.len() - 1].start_sector);
                }
            }
        }
    } else {
        assert forall|i: int, j: int| 0 <= i < j < out.len() implies out[i].start_sector
            <= out[j].start_sector by {
            if j == s.len() {
                assert(out[j] == x);
                if i < s.len() {
                    assert(out[i] == s[i]);
                    if i < s.len() - 1 {
                        assert(s[i].start_sector <= s[s.len() - 1].start_sector);
                    }
                }
            }
        }
    }
}


proof fn lemma_insert_at(s: Seq<LoopMappingItem>, x: LoopMappingItem, j: int)
    requires
        sorted_by_start(s),
        0 <= j <= s.len(),
        forall|k: int| 0 <= k < j ==> (#[trigger] s[k]).start_sector <= x.start_sector,
        j < s.len() ==> s[j].start_sector > x.start_sector,
    ensures
        spec_insert_by_start(s, x) == s.subrange(0, j) + seq![x] + s.subrange(j, s.len() as int),
    decreases s.len(),
{
    if s.len() == 0 {
        assert(spec_insert_by_start(s, x) =~= s.subrange(0, 0) + seq![x] + s.subrange(0, 0));
    } else if x.start_sector < s.last().start_sector {
        assert(j < s.len()) by {
            if j == s.len() {
                assert(s[s.len() - 1].start_sector <= x.start_sector);
            }
        }
        let dl = s.drop_last();
        assert(sorted_by_start(dl)) by {
            assert(forall|i: int| 0 <= i < dl.len() ==> dl[i] == s[i]);
        }
        assert(j < dl.len() ==> dl[j].start_sector > x.start_sector) by {
            if j < dl.len() {
                assert(dl[j] == s[j]);
            }
        }
        assert(forall|k: int| 0 <= k < j ==> (#[trigger] dl[k]).start_sector <= x.start_sector)
            by {
            assert(forall|k: int| 0 <= k < j ==> dl[k] == s[k]);
        }
        lemma_insert_at(dl, x, j);
        assert(spec_insert_by_start(s, x) =~= s.subrange(0, j) + seq![x] + s.subrange(
            j,
            s.len() as int,
        ));
    } else {
        assert(j == s.len()) by {
            if j < s.len() {
                assert(s[j].start_sector <= s[s.len() - 1].start_sector);
            }
        }
        assert(spec_insert_by_start(s, x) =~= s.subrange(0, j) + seq![x] + s.subrange(
            j,
            s.len() as int,
        ));
    }
}

/// Sort a caller-supplied table by start sector, stably, as the device does
/// before validating it.
pub fn sort_items_by_start(v: &mut Vec<LoopMappingItem>)
    ensures
        final(v)@ == spec_sort_by_start(old(v)@),
{
    let ghost orig = v@;
    let mut i: usize = 0;
    while i < v.len()
        invariant
            i <= v@.len(),
            v@.len() == orig.len(),
            v@.subrange(i as int, v@.len() as int) == orig.subrange(i as int, orig.len() as int),
            v@.subrange(0, i as int) == spec_sort_by_start(orig.subrange(0, i as int)),
            sorted_by_start(v@.subrange(0, i as int)),
        decreases v@.len() - i,
    {
        let ghost pre = v@;
        let ghost prefix = v@.subrange(0, i as int);
        let mut j: usize = 0;
        while j < i && v[j].start_sector <= v[i].start_sector
            invariant
                j <= i,
                i < v@.len(),
                v@ == pre,
                forall|k: int|
                    0 <= k < j ==> (#[trigger] v@[k]).start_sector <= v@[i as int].start_sector,
            decreases i - j,
        {
            j = j + 1;
        }
        let x = v.remove(i);
        v.insert(j, x);
        proof {
            assert(pre.subrange(i as int, pre.len() as int)[0] == pre[i as int]);
            let removed = pre.remove(i as int);
            assert(v@ =~= removed.insert(j as int, x));
            lemma_insert_at(prefix, x, j as int);
            assert(v@.subrange(0, (i + 1) as int) =~= prefix.subrange(0, j as int) + seq![x]
                + prefix.subrange(j as int, prefix.len() as int));
            assert(v@.subrange(0, (i + 1) as int) == spec_insert_by_start(prefix, x));
            let t1 = orig.subrange(0, (i + 1) as int);
            assert(t1.drop_last() =~= orig.subrange(0, i as int));
            assert(t1.last() == orig[i as int]);
            assert(x == pre[i as int]);
            assert(pre.subrange(i as int, pre.len() as int) == orig.subrange(
                i as int,
                orig.len() as int,
            ));
            assert(x == orig[i as int]) by {
                assert(pre.subrange(i as int, pre.len() as int)[0] == pre[i as int]);
                assert(orig.subrange(i as int, orig.len() as int)[0] == orig[i as int]);
            }
            assert(v@.subrange(0, (i + 1) as int) == spec_sort_by_start(t1));
            lemma_insert_sorted(prefix, x);
            assert(sorted_by_start(v@.subrange(0, (i + 1) as int)));
            assert(v@.subrange((i + 1) as int, v@.len() as int) =~= orig.subrange(
                (i + 1) as int,
                orig.len() as int,
            )) by {
                assert(forall|k: int|
                    i + 1 <= k < pre.len() ==> v@[k] == pre[k]);
                assert(forall|k: int|
                    i + 1 <= k < pre.len() ==> pre.subrange(i as int, pre.len() as int)[k - i]
                        == pre[k]);
                assert(forall|k: int|
                    i + 1 <= k < orig.len() ==> orig.subrange(i as int, orig.len() as int)[k - i]
                        == orig[k]);
            }
        }
        i = i + 1;
    }
    proof {
        assert(orig.subrange(0, orig.len() as int) =~= orig);
        assert(v@.subrange(0, v@.len() as int) =~= v@);
    }
}

/// Items of a contiguous table do not overlap: each item ends at or before
/// any later item's start.
pub proof fn lemma_table_monotone(t: Seq<PrivMappingItem>, i: int, j: int)
    requires
        table_contiguous(t),
        0 <= i < j < t.len(),
    ensures
        t[i].spec_end_sector() <= t[j].start_sector,
    decreases j - i,
{
    if j == i + 1 {
    } else {
        lemma_table_monotone(t, i, j - 1);
    }
}

/// Any item observed to contain sector `s` is the one `item_index_for`
/// names.
pub proof fn lemma_item_index_unique(t: Seq<PrivMappingItem>, s: int, i: int)
    requires
        table_contiguous(t),
        0 <= i < t.len(),
        t[i].start_sector <= s < t[i].spec_end_sector(),
    ensures
        i == item_index_for(t, s),
{
    assert(s < table_end(t)) by {
        if i < t.len() - 1 {
            lemma_table_monotone(t, i, t.len() - 1);
        }
    }
    lemma_item_index_for(t, s);
    let w = item_index_for(t, s);
    if w < i {
        lemma_table_monotone(t, w, i);
    } else if i < w {
        lemma_table_monotone(t, i, w);
    }
}

/// Find the item containing sector `s` by linear scan.
pub fn find_item(table: &Vec<PrivMappingItem>, s: u64) -> (idx: usize)
    requires
        table_contiguous(table@),
        0 <= s < table_end(table@),
    ensures
        idx == item_index_for(table@, s as int),
        (idx as int) < table@.len(),
        table@[idx as int].start_sector <= s < table@[idx as int].spec_end_sector(),
{
    let mut i: usize = 0;
    loop
        invariant
            table_contiguous(table@),
            0 <= s < table_end(table@),
            i <= table@.len(),
            forall|k: int|
                0 <= k < i ==> !((#[trigger] table@[k]).start_sector <= s
                    < table@[k].spec_end_sector()),
        decreases table@.len() - i,
    {
        proof {
            lemma_item_index_for(table@, s as int);
            if i >= table@.len() {
                assert(false);
            }
        }
        if i >= table.len() {
            // unreachable: some item contains every sector below the end
            return 0;
        }
        if table[i].start_sector <= s {
            let end_ok = s - table[i].start_sector < table[i].num_sectors;
            if end_ok {
                proof {
                    lemma_item_index_unique(table@, s as int, i as int);
                }
                return i;
            }
        }
        i = i + 1;
    }
}



/// Whatever the caller supplied is among the sorted items.
pub proof fn lemma_insert_contains(s: Seq<LoopMappingItem>, x: LoopMappingItem, y: LoopMappingItem)
    requires
        y == x || s.contains(y),
    ensures
        spec_insert_by_start(s, x).contains(y),
    decreases s.len(),
{
    let out = spec_insert_by_start(s, x);
    if s.len() == 0 {
        assert(out[0] == x);
    } else if x.start_sector < s.last().start_sector {
        if y == s.last() {
            assert(out[out.len() - 1] == y);
        } else {
            let dl = s.drop_last();
            if s.contains(y) {
                let w = choose|w: int| 0 <= w < s.len() && s[w] == y;
                assert(w < s.len() - 1) by {
                    if w == s.len() - 1 {
                        assert(s[w] == s.last());
                    }
                }
                assert(dl[w] == y);
            }
            lemma_insert_contains(dl, x, y);
            let sub = spec_insert_by_start(dl, x);
            let w2 = choose|w2: int| 0 <= w2 < sub.len() && sub[w2] == y;
            assert(out[w2] == y);
        }
    } else {
        if y == x {
            assert(out[out.len() - 1] == y);
        } else {
            let w = choose|w: int| 0 <= w < s.len() && s[w] == y;
            assert(out[w] == y);
        }
    }
}

/// Sorting keeps every supplied item.
pub proof fn lemma_sort_contains(s: Seq<LoopMappingItem>, y: LoopMappingItem)
    requires
        s.contains(y),
    ensures
        spec_sort_by_start(s).contains(y),
    decreases s.len(),
{
    if s.len() > 0 {
        let dl = s.drop_last();
        if y == s.last() {
            lemma_insert_contains(spec_sort_by_start(dl), s.last(), y);
        } else {
            let w = choose|w: int| 0 <= w < s.len() && s[w] == y;
            assert(w < s.len() - 1) by {
                if w == s.len() - 1 {
                    assert(s[w] == s.last());
                }
            }
            assert(dl[w] == y);
            lemma_sort_contains(dl, y);
            let w2 = choose|w2: int|
                0 <= w2 < spec_sort_by_start(dl).len() && spec_sort_by_start(dl)[w2] == y;
            lemma_insert_contains(spec_sort_by_start(dl), s.last(), y);
        }
    }
}

/// In a contiguous table no item reaches past the table's end.
pub proof fn lemma_item_end_bounded(t: Seq<PrivMappingItem>, i: int)
    requires
        table_contiguous(t),
        0 <= i < t.len(),
    ensures
        t[i].spec_end_sector() <= table_end(t),
{
    if i < t.len() - 1 {
        lemma_table_monotone(t, i, t.len() - 1);
    }
}

} // verus!
