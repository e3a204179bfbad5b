//! The extents that an inode holds: which block a logical block stands in, and
//! what appending a block to them does.

use vstd::prelude::*;
use crate::bytes::{
    put16, put16_then_read, put32, put32_then_read, splice, u16_at, u32_at, zero_bytes,
};
use crate::ext4::counts::runs_apart;
use crate::ext4::model::{
    extent_append, extent_area, extent_len, extent_map, extent_start, ino_extents, leaf_find,
};
use crate::fs::FsView;

verus! {

/// An extent: its first logical block, its length, its first physical block.
pub open spec fn run_at(d: Seq<u8>, e: int) -> (int, int, int) {
    (
        u32_at(d, 12 + 12 * e) as int,
        extent_len(d, 12 + 12 * e),
        extent_start(d, 12 + 12 * e) as int,
    )
}

/// The number of extents of a node.
pub open spec fn run_count(d: Seq<u8>) -> int {
    u16_at(d, 2) as int
}

/// The logical block behind the last extent.
pub open spec fn mapped_end(ib: Seq<u8>) -> int {
    if run_count(ib) > 0 {
        run_at(ib, run_count(ib) - 1).0 + run_at(ib, run_count(ib) - 1).1
    } else {
        0
    }
}

/// The extent area of an inode as a leaf: its extents, four at most, stand in
/// the area itself.
pub open spec fn is_leaf(ib: Seq<u8>) -> bool {
    &&& ib.len() == 60
    &&& u16_at(ib, 0) == 0xF30A
    &&& u16_at(ib, 6) == 0
    &&& run_count(ib) <= 4
}

/// No extent covers the logical block `n`.
pub open spec fn none_covers(ib: Seq<u8>, n: int) -> bool {
    forall|e: int|
        0 <= e < run_count(ib) ==> !((#[trigger] run_at(ib, e)).0 <= n < run_at(ib, e).0 + run_at(
            ib,
            e,
        ).1)
}

/// A leaf whose last extent reaches furthest.
pub open spec fn area_ok(ib: Seq<u8>) -> bool {
    &&& is_leaf(ib)
    &&& forall|e: int|
        0 <= e < run_count(ib) ==> (#[trigger] run_at(ib, e)).0 + run_at(ib, e).1 <= mapped_end(ib)
}

/// The extents before the last map no more than they can hold together.
pub open spec fn packed(ib: Seq<u8>) -> bool {
    run_count(ib) > 0 ==> run_at(ib, run_count(ib) - 1).0 <= 0x7FFF * (run_count(ib) - 1)
}

/// The block lies in the `e`-th extent.
pub open spec fn run_holds(d: Seq<u8>, e: int, b: int) -> bool {
    run_at(d, e).2 <= b < run_at(d, e).2 + run_at(d, e).1
}

/// The block lies in one of the extents.
pub open spec fn leaf_holds(d: Seq<u8>, b: int) -> bool {
    exists|e: int| 0 <= e < run_count(d) && 24 + 12 * e <= d.len() && #[trigger] run_holds(d, e, b)
}

/// What is found lies in one of the extents.
pub proof fn found_is_held(d: Seq<u8>, l: u32, e: int)
    requires
        0 <= e,
    ensures
        leaf_find(d, l, e) matches Some(p) ==> leaf_holds(d, p as int),
    decreases run_count(d) - e,
{
    let o = 12 + 12 * e;
    if e < run_count(d) && o + 12 <= d.len() {
        if u32_at(d, o) <= l < u32_at(d, o) + extent_len(d, o) {
            let p = extent_start(d, o) + (l - u32_at(d, o));
            assert(run_holds(d, e, p));
        } else {
            found_is_held(d, l, e + 1);
        }
    }
}

/// The runs of `d2` are those of `d`, and one block more behind the last: in a
/// run of its own, or at the end of the last one.
spec fn one_more(d: Seq<u8>, d2: Seq<u8>, phys: u32) -> bool {
    let n = run_count(d);
    let n2 = run_count(d2);
    &&& d.len() == 60 && d2.len() == 60
    &&& n <= 4 && n2 <= 4
    &&& forall|e: int| 0 <= e < n2 - 1 ==> #[trigger] run_at(d2, e) == run_at(d, e)
    &&& if n2 == n {
        let r = run_at(d, n - 1);
        n > 0 && r.2 + r.1 == phys && run_at(d2, n - 1) == (r.0, r.1 + 1, r.2)
    } else {
        n2 == n + 1 && run_at(d2, n) == (mapped_end(d), 1int, phys as int)
    }
}

proof fn more_found(d: Seq<u8>, d2: Seq<u8>, phys: u32, l: u32, e: int)
    requires
        is_leaf(d),
        none_covers(d, mapped_end(d)),
        one_more(d, d2, phys),
        0 <= e < run_count(d2),
    ensures
        leaf_find(d2, l, e) == (if l == mapped_end(d) {
            Some(phys)
        } else {
            leaf_find(d, l, e)
        }),
    decreases run_count(d2) - e,
{
    let n = run_count(d);
    let n2 = run_count(d2);
    assert(run_at(d2, e) == run_at(d2, e));
    if e < n2 - 1 {
        more_found(d, d2, phys, l, e + 1);
        assert(run_at(d2, e) == run_at(d, e));
    } else {
        assert(leaf_find(d2, l, n2) is None);
        if n2 == n {
            assert(leaf_find(d, l, n) is None);
        }
    }
}

proof fn more_mapped(d: Seq<u8>, d2: Seq<u8>, phys: u32)
    requires
        area_ok(d),
        one_more(d, d2, phys),
        u16_at(d2, 0) == 0xF30A,
        u16_at(d2, 6) == 0,
    ensures
        area_ok(d2),
        run_count(d2) > 0,
        mapped_end(d2) == mapped_end(d) + 1,
        packed(d) ==> packed(d2),
{
    let n2 = run_count(d2);
    assert(run_at(d2, n2 - 1) == run_at(d2, n2 - 1));
    assert forall|e: int| 0 <= e < n2 implies (#[trigger] run_at(d2, e)).0 + run_at(d2, e).1
        <= mapped_end(d2) by {
        if e < n2 - 1 {
            assert(run_at(d2, e) == run_at(d, e));
            assert(run_at(d, e).0 + run_at(d, e).1 <= mapped_end(d));
        }
    }
}

proof fn more_held(d: Seq<u8>, d2: Seq<u8>, phys: u32, b: int)
    requires
        area_ok(d),
        one_more(d, d2, phys),
    ensures
        leaf_holds(d2, b) == (leaf_holds(d, b) || b == phys),
{
    let n = run_count(d);
    let n2 = run_count(d2);
    if leaf_holds(d2, b) {
        let e = choose|e: int|
            0 <= e < n2 && 24 + 12 * e <= d2.len() && #[trigger] run_holds(d2, e, b);
        if e < n2 - 1 {
            assert(run_at(d2, e) == run_at(d, e));
            assert(run_holds(d, e, b));
        } else if n2 == n && b != phys {
            assert(run_holds(d, e, b));
        }
    }
    if leaf_holds(d, b) {
        let e = choose|e: int|
            0 <= e < n && 24 + 12 * e <= d.len() && #[trigger] run_holds(d, e, b);
        if e < n2 - 1 {
            assert(run_at(d2, e) == run_at(d, e));
        }
        assert(run_holds(d2, e, b));
    }
    if b == phys {
        assert(run_holds(d2, n2 - 1, b));
    }
}

/// A block that no extent holds is appended: still no two hold the same.
pub proof fn appended_apart(raw: Seq<u8>, phys: u32)
    requires
        raw.len() == 256,
        is_leaf(extent_area(raw)),
        runs_apart(ino_extents(raw)),
        !leaf_holds(extent_area(raw), phys as int),
        extent_append(raw, phys) is Ok,
    ensures
        runs_apart(ino_extents(extent_append(raw, phys)->Ok_0)),
{
    reveal(runs_apart);
    append_is_one_more(raw, phys);
    let d = extent_area(raw);
    let d2 = ino_extents(extent_append(raw, phys)->Ok_0);
    let n2 = run_count(d2);
    let n = run_count(d);
    assert forall|e: int, f: int, b: int|
        0 <= e < f < n2 && 24 + 12 * f <= d2.len() && #[trigger] run_holds(d2, e, b) implies !#[trigger] run_holds(
        d2,
        f,
        b,
    ) by {
        assert(run_at(d2, e) == run_at(d, e));
        assert(run_holds(d, e, b));
        assert(leaf_holds(d, b));
        if f < n2 - 1 {
            assert(run_at(d2, f) == run_at(d, f));
            assert(!run_holds(d, f, b));
        } else if n2 == n {
            assert(!run_holds(d, f, b));
        }
    }
}

/// The two halves of a block number, put together, are the number.
pub proof fn high_half(p: u32)
    ensures
        (p | ((((p / 0x1_0000) as u16) as u32 * 0x1_0000) as u32)) == p,
{
    assert((p | ((((p / 0x1_0000) as u16) as u32 * 0x1_0000) as u32)) == p) by (bit_vector);
}

/// The two ways in which a block is appended.
proof fn append_is_one_more(raw: Seq<u8>, phys: u32)
    requires
        raw.len() == 256,
        is_leaf(extent_area(raw)),
        extent_append(raw, phys) is Ok,
    ensures
        ({
            let raw2 = extent_append(raw, phys)->Ok_0;
            let ib2 = ino_extents(raw2);
            &&& raw2 == splice(raw, 40, ib2)
            &&& one_more(extent_area(raw), ib2, phys)
            &&& extent_area(raw2) == ib2
            &&& u16_at(ib2, 0) == 0xF30A
            &&& u16_at(ib2, 6) == 0
        }),
{
    reveal(extent_append);
    let ib = extent_area(raw);
    let raw2 = extent_append(raw, phys)->Ok_0;
    let ib2 = ino_extents(raw2);
    let n = run_count(ib);
    let o = 12 + 12 * (n - 1);
    let last = mapped_end(ib);
    if n > 0 && extent_start(ib, o) + extent_len(ib, o) == phys && extent_len(ib, o) < 0x7FFF {
        let len = (extent_len(ib, o) + 1) as u16;
        let a = put16(ib, o + 4, len);
        put16_then_read(ib, o + 4, len);
        assert(splice(raw, 40, a).subrange(40, 100) =~= a);
        assert(ib2 == a);
        assert(forall|k: int| 0 <= k < 60 && k != o + 4 && k != o + 5 ==> a[k] == ib[k]);
        assert(run_at(a, n - 1) == (run_at(ib, n - 1).0, run_at(ib, n - 1).1 + 1, run_at(ib, n - 1).2));
        assert forall|e: int| 0 <= e < n - 1 implies #[trigger] run_at(a, e) == run_at(ib, e) by {}
    } else {
        let p = 12 + 12 * n;
        let hi = (phys / 0x1_0000) as u16;
        let a = put32(ib, p, last as u32);
        let b = put16(a, p + 4, 1);
        let c = put16(b, p + 6, hi);
        let d = put32(c, p + 8, phys);
        let f = put16(d, 2, (n + 1) as u16);
        put32_then_read(ib, p, last as u32);
        put16_then_read(a, p + 4, 1);
        put16_then_read(b, p + 6, hi);
        put32_then_read(c, p + 8, phys);
        put16_then_read(d, 2, (n + 1) as u16);
        assert(splice(raw, 40, f).subrange(40, 100) =~= f);
        assert(ib2 == f);
        assert(forall|k: int| 0 <= k < 60 && k != 2 && k != 3 && !(p <= k < p + 12) ==> f[k] == ib[k]);
        assert(forall|k: int| p <= k < p + 4 ==> f[k] == a[k]);
        assert(forall|k: int| p + 4 <= k < p + 6 ==> f[k] == b[k]);
        assert(forall|k: int| p + 6 <= k < p + 8 ==> f[k] == c[k]);
        assert(forall|k: int| p + 8 <= k < p + 12 ==> f[k] == d[k]);
        assert(u32_at(f, p) == last);
        assert(u16_at(f, p + 4) == 1);
        assert(u16_at(f, p + 6) == hi);
        assert(u32_at(f, p + 8) == phys);
        high_half(phys);
        assert(run_at(f, n) == (last, 1int, phys as int));
        assert forall|e: int| 0 <= e < n implies #[trigger] run_at(f, e) == run_at(ib, e) by {}
    }
    assert(splice(raw, 40, ib2) =~= raw2);
}

/// Appending a block maps it behind the blocks that are mapped, and leaves
/// those, and the rest of the inode, as they were.
pub proof fn appended_is_found(raw: Seq<u8>, phys: u32)
    requires
        raw.len() == 256,
        area_ok(extent_area(raw)),
        extent_append(raw, phys) is Ok,
    ensures
        ({
            let ib = extent_area(raw);
            let raw2 = extent_append(raw, phys)->Ok_0;
            let ib2 = ino_extents(raw2);
            &&& raw2 == splice(raw, 40, ib2)
            &&& area_ok(ib2)
            &&& extent_area(raw2) == ib2
            &&& mapped_end(ib2) == mapped_end(ib) + 1
            &&& packed(ib) ==> packed(ib2)
            &&& forall|l: u32| #[trigger]
                leaf_find(ib2, l, 0) == (if l == mapped_end(ib) {
                    Some(phys)
                } else {
                    leaf_find(ib, l, 0)
                })
            &&& forall|b: int| #[trigger] leaf_holds(ib2, b) == (leaf_holds(ib, b) || b == phys)
        }),
{
    let ib = extent_area(raw);
    let raw2 = extent_append(raw, phys)->Ok_0;
    let ib2 = ino_extents(raw2);
    append_is_one_more(raw, phys);
    assert(none_covers(ib, mapped_end(ib)));
    more_mapped(ib, ib2, phys);
    assert forall|l: u32| #[trigger]
        leaf_find(ib2, l, 0) == (if l == mapped_end(ib) {
            Some(phys)
        } else {
            leaf_find(ib, l, 0)
        }) by {
        more_found(ib, ib2, phys, l, 0);
    }
    assert forall|b: int| #[trigger] leaf_holds(ib2, b) == (leaf_holds(ib, b) || b == phys) by {
        more_held(ib, ib2, phys, b);
    }
}

/// A block that is appended is mapped next: where the extents map exactly the
/// logical blocks below `n`, and the last of them ends there, block `n` is
/// mapped to it afterwards, those below are mapped as they were, and none above
/// is.
pub proof fn appended_block_is_mapped(s: FsView, raw: Seq<u8>, phys: u32, n: u32, k: u32)
    requires
        raw.len() == 256,
        is_leaf(extent_area(raw)),
        forall|l: u32| (#[trigger] extent_map(s, extent_area(raw), l)) is Some <==> l < n,
        none_covers(extent_area(raw), n as int),
        mapped_end(extent_area(raw)) == n,
        extent_append(raw, phys) is Ok,
    ensures
        ({
            let ib = extent_area(raw);
            let ib2 = ino_extents(extent_append(raw, phys)->Ok_0);
            &&& extent_map(s, ib2, n) == Some(phys)
            &&& k < n ==> extent_map(s, ib2, k) == extent_map(s, ib, k)
            &&& k > n ==> extent_map(s, ib2, k) is None
        }),
{
    reveal(extent_map);
    let ib = extent_area(raw);
    let ib2 = ino_extents(extent_append(raw, phys)->Ok_0);
    append_is_one_more(raw, phys);
    assert(extent_map(s, ib, k) is Some <==> k < n);
    more_found(ib, ib2, phys, k, 0);
    more_found(ib, ib2, phys, n, 0);
}

/// An inode without extents maps no block.
pub proof fn empty_area_maps_nothing(s: FsView, raw: Seq<u8>, l: u32)
    requires
        raw.len() == 256,
        u16_at(ino_extents(raw), 0) != 0xF30A,
    ensures
        is_leaf(extent_area(raw)),
        extent_map(s, extent_area(raw), l) is None,
        none_covers(extent_area(raw), 0),
        mapped_end(extent_area(raw)) == 0,
{
    reveal(extent_map);
    let z = zero_bytes(60);
    let a = put16(z, 0, 0xF30A);
    let b = put16(a, 2, 0);
    let c = put16(b, 4, 4);
    let d = put16(c, 6, 0);
    put16_then_read(z, 0, 0xF30A);
    put16_then_read(a, 2, 0);
    put16_then_read(c, 6, 0);
    assert(extent_area(raw) == d);
    assert(d[0] == a[0] && d[1] == a[1] && d[2] == b[2] && d[3] == b[3]);
    assert(u16_at(d, 0) == u16_at(a, 0));
    assert(u16_at(d, 2) == u16_at(b, 2));
}

} // verus!
