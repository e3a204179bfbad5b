//! Entering a name into a directory: the name is found afterwards, the other
//! names lead where they led, and nothing but the directory changes.

use vstd::prelude::*;
use crate::bytes::{
    put16, put16_then_read, put32, put32_then_read, splice, u16_at, u32_at, zero_bytes,
};
use crate::ext4::contents::{
    block_added, is_node, leaf_has_no_nodes, leaf_is_map, leaf_is_tree, map_same, node_is_held,
    nodes_same, stored_like, tree_holds, tree_same,
};
use crate::ext4::counts::{counted, loaded_apart, steady};
use crate::ext4::entries::{
    block_sound, name_entered, named_in_both, only_added, only_added_in_both, sound_is_good, times,
    times_in_both,
};
use crate::ext4::inodes::{data_reads_back, inode_len, inode_reads_back, stored};
use crate::ext4::model::{
    align4, alloc_block, block_entries, dir_add, dir_entries, dir_find_slot, dir_grow, entries_from,
    entry_named, extent_append, extent_area, extent_map, file_block, fill_slot, ino_extents,
    ino_size, inode_load, inode_save, leaf_find, logical_of, lookup_dir, make_slot, read_block,
    slot_from, slot_in_block, with_size, write_block, Entry,
};
use crate::ext4::runs::{
    appended_apart, appended_is_found, area_ok, leaf_holds, mapped_end, run_count,
};
use crate::ext4::space::{block_len, in_use, inode_in_use, is_system, space_ok, Place};
use crate::ext4::tree::{blocks_sound, full, is_dir, uses};
use crate::fs::{FsErr, FsView};

verus! {

// ---------- a slot is filled ----------

/// The slot that is found is the first in a block of the directory.
proof fn slot_is_there(s: FsView, ib: Seq<u8>, off: int, size: int, need: int)
    requires
        blocks_sound(s, ib, off, size),
    ensures
        slot_from(s, ib, off, size, need) matches Ok((phys, o, n)) ==> {
            &&& tree_holds(s, ib, phys as int)
            &&& !is_node(s, ib, phys as int)
            &&& read_block(s, phys as int) is Some
            &&& block_sound(read_block(s, phys as int)->0, 0)
            &&& slot_in_block(read_block(s, phys as int)->0, 0, need) == Some((o, n))
        },
    decreases size + 4096 - off,
{
    if off < size {
        map_same(s, s, ib, logical_of(off));
        slot_is_there(s, ib, off + 4096, size, need);
    }
}

/// The blocks of a directory are as they were, but for one, which holds
/// entries.
pub open spec fn all_but_one(s: FsView, t: FsView, ib: Seq<u8>, phys: int) -> bool {
    &&& forall|b: int|
        tree_holds(s, ib, b) && b != phys ==> #[trigger] read_block(t, b) == read_block(s, b)
    &&& !is_node(s, ib, phys)
    &&& read_block(s, phys) is Some
    &&& read_block(t, phys) is Some
}

/// One block of the directory has changed: a name was entered in it.
spec fn one_filled(s: FsView, t: FsView, ib: Seq<u8>, phys: int, need: int, e: Entry) -> bool {
    &&& all_but_one(s, t, ib, phys)
    &&& slot_in_block(read_block(s, phys)->0, 0, need) is Some
    &&& ({
        let (o, n) = slot_in_block(read_block(s, phys)->0, 0, need)->0;
        read_block(t, phys) == Some(
            fill_slot(read_block(s, phys)->0, o, n, need, e.ino, e.name, e.ftype),
        )
    })
    &&& 8 + e.name.len() <= need
    &&& e.name.len() <= 255
    &&& e.ino != 0
}

/// What stands at an offset of the directory afterwards.
pub proof fn block_beside(s: FsView, t: FsView, ib: Seq<u8>, phys: int, off: int)
    requires
        all_but_one(s, t, ib, phys),
        file_block(s, ib, off) is Some,
    ensures
        ({
            let p = (file_block(s, ib, off)->0).0;
            &&& extent_map(t, ib, logical_of(off)) == Some(p)
            &&& file_block(t, ib, off) is Some
            &&& (file_block(t, ib, off)->0).0 == p
            &&& is_node(t, ib, p as int) == is_node(s, ib, p as int)
            &&& p != phys ==> file_block(t, ib, off) == file_block(s, ib, off)
            &&& p == phys ==> (file_block(s, ib, off)->0).1 == read_block(s, phys)->0 && (file_block(
                t,
                ib,
                off,
            )->0).1 == read_block(t, phys)->0
        }),
{
    assert forall|b: int| is_node(s, ib, b) implies #[trigger] read_block(t, b) == read_block(s, b) by {
        node_is_held(s, ib, b);
    }
    map_same(s, t, ib, logical_of(off));
    nodes_same(s, t, ib, (file_block(s, ib, off)->0).0 as int);
}

/// What a name is found to be in the directory afterwards.
#[verifier::spinoff_prover]
proof fn entered_in_dir(
    s: FsView,
    t: FsView,
    ib: Seq<u8>,
    phys: int,
    need: int,
    e: Entry,
    off: int,
    size: int,
    m: Seq<u8>,
)
    requires
        one_filled(s, t, ib, phys, need, e),
        blocks_sound(s, ib, off, size),
    ensures
        blocks_sound(t, ib, off, size),
        only_added(entries_from(s, ib, off, size).0, entries_from(t, ib, off, size).0, e),
        m != e.name ==> entry_named(entries_from(t, ib, off, size).0, m) == entry_named(
            entries_from(s, ib, off, size).0,
            m,
        ) && times(entries_from(t, ib, off, size).0, m) == times(
            entries_from(s, ib, off, size).0,
            m,
        ),
        entry_named(entries_from(s, ib, off, size).0, e.name) is None ==> {
            let r = entry_named(entries_from(t, ib, off, size).0, e.name);
            &&& r is None || r == Some(e)
            &&& slot_from(s, ib, off, size, need) is Ok && (slot_from(s, ib, off, size, need)->Ok_0).0
                == phys ==> r == Some(e)
        },
    decreases size + 4096 - off,
{
    if off < size {
        block_beside(s, t, ib, phys, off);
        entered_in_dir(s, t, ib, phys, need, e, off + 4096, size, m);
        let (p, b) = file_block(s, ib, off)->0;
        let (q, c) = file_block(t, ib, off)->0;
        block_len(s, phys);
        if p == phys {
            name_entered(b, need, e, m);
        }
        sound_is_good(b, 0);
        sound_is_good(c, 0);
        let eb = block_entries(b, 0).0;
        let ec = block_entries(c, 0).0;
        let rb = entries_from(s, ib, off + 4096, size).0;
        let rc = entries_from(t, ib, off + 4096, size).0;
        assert(entries_from(s, ib, off, size).0 == eb + rb);
        assert(entries_from(t, ib, off, size).0 == ec + rc);
        named_in_both(eb, rb, m);
        named_in_both(ec, rc, m);
        named_in_both(eb, rb, e.name);
        named_in_both(ec, rc, e.name);
        only_added_in_both(eb, rb, ec, rc, e);
        times_in_both(eb, rb, m);
        times_in_both(ec, rc, m);
    }
}

/// A directory that a name can be entered into.
pub open spec fn dir_ready(s: FsView, pl: Seq<Place>, p: u32) -> bool {
    let raw = inode_load(s, p)->Ok_0;
    &&& space_ok(s, pl)
    &&& 1 <= p <= 8192 * pl.len()
    &&& is_dir(s, p)
    &&& blocks_sound(s, ino_extents(raw), 0, ino_size(raw) as int)
    &&& full(raw)
    &&& forall|b: int| #[trigger] uses(s, p, b) ==> in_use(s, pl, b) && !is_system(s, pl, b)
}

/// What entering the name of `e` into directory `p` does.
pub open spec fn named_in(s: FsView, t: FsView, pl: Seq<Place>, p: u32, e: Entry) -> bool {
    &&& dir_ready(t, pl, p)
    &&& steady(s, t)
    &&& forall|x: u32|
        1 <= x <= 8192 * pl.len() && x != p ==> #[trigger] inode_load(t, x) == inode_load(s, x)
    &&& forall|x: int| #[trigger] inode_in_use(t, pl, x) == inode_in_use(s, pl, x)
    &&& forall|b: int| in_use(s, pl, b) ==> #[trigger] in_use(t, pl, b)
    &&& forall|b: int|
        in_use(s, pl, b) && !is_system(s, pl, b) && !uses(s, p, b) ==> #[trigger] read_block(t, b)
            == read_block(s, b)
    &&& forall|b: int| #[trigger] uses(t, p, b) ==> uses(s, p, b) || !in_use(s, pl, b)
    &&& only_added(dir_entries(s, p).0, dir_entries(t, p).0, e)
    &&& forall|m: Seq<u8>|
        m != e.name ==> #[trigger] times(dir_entries(t, p).0, m) == times(dir_entries(s, p).0, m)
    &&& forall|m: Seq<u8>|
        m != e.name && lookup_dir(s, p, m) is Ok ==> #[trigger] lookup_dir(t, p, m) == lookup_dir(
            s,
            p,
            m,
        )
    &&& lookup_dir(s, p, e.name) is Err ==> lookup_dir(t, p, e.name) == Ok::<(u32, u8), FsErr>(
        (e.ino, e.ftype),
    )
}

/// What is found in a directory that can be read.
pub proof fn lookup_is_named(s: FsView, p: u32, m: Seq<u8>)
    requires
        is_dir(s, p),
    ensures
        ({
            let raw = inode_load(s, p)->Ok_0;
            let es = entries_from(s, ino_extents(raw), 0, ino_size(raw) as int).0;
            match entry_named(es, m) {
                Some(e) => lookup_dir(s, p, m) == Ok::<(u32, u8), FsErr>((e.ino, e.ftype)),
                None => lookup_dir(s, p, m) is Err,
            }
        }),
{
    reveal(lookup_dir);
    reveal(dir_entries);
}

/// The entries of a directory are those of its blocks.
pub proof fn entries_of_dir(s: FsView, p: u32)
    requires
        is_dir(s, p),
    ensures
        dir_entries(s, p) == entries_from(
            s,
            ino_extents(inode_load(s, p)->Ok_0),
            0,
            ino_size(inode_load(s, p)->Ok_0) as int,
        ),
{
    reveal(dir_entries);
}

#[verifier::spinoff_prover]
proof fn slot_taken(s: FsView, pl: Seq<Place>, p: u32, need: int, e: Entry)
    requires
        dir_ready(s, pl, p),
        8 + e.name.len() <= need,
        e.name.len() <= 255,
        e.ino != 0,
        dir_find_slot(s, p, need) is Ok,
        ({
            let (phys, o, n) = dir_find_slot(s, p, need)->Ok_0;
            let b = read_block(s, phys as int)->0;
            write_block(s, phys as int, fill_slot(b, o, n, need, e.ino, e.name, e.ftype)).1
        }),
    ensures
        ({
            let (phys, o, n) = dir_find_slot(s, p, need)->Ok_0;
            let b = read_block(s, phys as int)->0;
            named_in(
                s,
                write_block(s, phys as int, fill_slot(b, o, n, need, e.ino, e.name, e.ftype)).0,
                pl,
                p,
                e,
            )
        }),
{
    let raw = inode_load(s, p)->Ok_0;
    let ib = ino_extents(raw);
    let size = ino_size(raw) as int;
    assert(dir_find_slot(s, p, need) == slot_from(s, ib, 0, size, need)) by {
        reveal(dir_find_slot);
    }
    let (phys, o, n) = dir_find_slot(s, p, need)->Ok_0;
    slot_is_there(s, ib, 0, size, need);
    assert(uses(s, p, phys as int));
    let b = read_block(s, phys as int)->0;
    block_len(s, phys as int);
    name_entered(b, need, e, e.name);
    let c = fill_slot(b, o, n, need, e.ino, e.name, e.ftype);
    data_reads_back(s, pl, phys as int, c);
    let t = write_block(s, phys as int, c).0;
    assert(inode_load(t, p) == inode_load(s, p));
    assert forall|x: int| tree_holds(s, ib, x) && x != phys implies #[trigger] read_block(t, x)
        == read_block(s, x) by {
        assert(uses(s, p, x));
    }
    assert(one_filled(s, t, ib, phys as int, need, e));
    assert forall|x: int| is_node(s, ib, x) implies #[trigger] read_block(t, x) == read_block(s, x) by {
        node_is_held(s, ib, x);
    }
    assert forall|x: int| #[trigger] uses(t, p, x) implies in_use(t, pl, x) && !is_system(t, pl, x)
        && uses(s, p, x) by {
        tree_same(s, t, ib, x);
        assert(uses(s, p, x));
    }
    entries_of_dir(s, p);
    entries_of_dir(t, p);
    assert forall|m: Seq<u8>| m != e.name && lookup_dir(s, p, m) is Ok implies #[trigger] lookup_dir(
        t,
        p,
        m,
    ) == lookup_dir(s, p, m) by {
        entered_in_dir(s, t, ib, phys as int, need, e, 0, size, m);
        lookup_is_named(s, p, m);
        lookup_is_named(t, p, m);
    }
    assert forall|m: Seq<u8>| m != e.name implies #[trigger] times(dir_entries(t, p).0, m) == times(
        dir_entries(s, p).0,
        m,
    ) by {
        entered_in_dir(s, t, ib, phys as int, need, e, 0, size, m);
    }
    entered_in_dir(s, t, ib, phys as int, need, e, 0, size, e.name);
    lookup_is_named(s, p, e.name);
    lookup_is_named(t, p, e.name);
}

// ---------- a directory grows ----------

/// The inode of a directory to which a block was appended.
spec fn longer(raw2: Seq<u8>) -> Seq<u8> {
    put32(
        with_size(raw2, ino_size(raw2) + 4096),
        28,
        ((u32_at(raw2, 28) + 8) % 0x1_0000_0000) as u32,
    )
}

/// A 64-bit number is put together from its halves.
proof fn halves(v: int)
    requires
        0 <= v < 0x1_0000_0000_0000_0000,
    ensures
        v % 0x1_0000_0000 + 0x1_0000_0000 * (v / 0x1_0000_0000 % 0x1_0000_0000) == v,
{
    assert(v / 0x1_0000_0000 < 0x1_0000_0000);
    assert(v / 0x1_0000_0000 % 0x1_0000_0000 == v / 0x1_0000_0000);
}

#[verifier::spinoff_prover]
proof fn longer_fields(raw2: Seq<u8>)
    requires
        raw2.len() == 256,
        ino_size(raw2) + 4096 < 0x1_0000_0000_0000_0000,
    ensures
        ({
            let r = longer(raw2);
            &&& r.len() == 256
            &&& u16_at(r, 0) == u16_at(raw2, 0)
            &&& ino_size(r) == ino_size(raw2) + 4096
            &&& ino_extents(r) == ino_extents(raw2)
        }),
{
    let size = ino_size(raw2) + 4096;
    let lo = (size % 0x1_0000_0000) as u32;
    let hi = (size / 0x1_0000_0000 % 0x1_0000_0000) as u32;
    let a = put32(raw2, 4, lo);
    let b = put32(a, 108, hi);
    let v = ((u32_at(raw2, 28) + 8) % 0x1_0000_0000) as u32;
    let r = put32(b, 28, v);
    put32_then_read(raw2, 4, lo);
    put32_then_read(a, 108, hi);
    assert(r == longer(raw2));
    assert(forall|k: int| 4 <= k < 8 ==> r[k] == a[k]);
    assert(forall|k: int| 108 <= k < 112 ==> r[k] == b[k]);
    assert(u32_at(r, 4) == lo);
    assert(u32_at(r, 108) == hi);
    halves(size);
    assert(ino_size(r) == size);
    assert(r[0] == raw2[0] && r[1] == raw2[1]);
    assert(ino_extents(r) =~= ino_extents(raw2));
}

/// The blocks up to `size` are found where they were, and behind them stands
/// a block without entries.
spec fn one_behind(s: FsView, t: FsView, ib: Seq<u8>, ib2: Seq<u8>, size: int) -> bool {
    &&& size % 4096 == 0
    &&& forall|off: int|
        0 <= off < size && off % 4096 == 0 ==> #[trigger] file_block(t, ib2, off) == file_block(
            s,
            ib,
            off,
        )
    &&& file_block(t, ib2, size) is Some
    &&& (file_block(t, ib2, size)->0).1 == zero_bytes(4096)
    &&& forall|b: int| !is_node(t, ib2, b)
}

proof fn entries_behind(s: FsView, t: FsView, ib: Seq<u8>, ib2: Seq<u8>, off: int, size: int)
    requires
        one_behind(s, t, ib, ib2, size),
        blocks_sound(s, ib, off, size),
        0 <= off <= size,
        off % 4096 == 0,
    ensures
        entries_from(t, ib2, off, size + 4096) == entries_from(s, ib, off, size),
        blocks_sound(t, ib2, off, size + 4096),
    decreases size - off,
{
    if off < size {
        entries_behind(s, t, ib, ib2, off + 4096, size);
        assert(file_block(t, ib2, off) == file_block(s, ib, off));
    } else {
        let z = zero_bytes(4096);
        assert(u16_at(z, 4) == 0);
        assert(block_entries(z, 0) == (Seq::<Entry>::empty(), false));
        assert(block_sound(z, 0));
        assert(entries_from(t, ib2, size + 4096, size + 4096) == (Seq::<Entry>::empty(), None::<FsErr>));
        assert(blocks_sound(t, ib2, size + 4096, size + 4096));
        assert(Seq::<Entry>::empty() + Seq::<Entry>::empty() =~= Seq::<Entry>::empty());
        assert(entries_from(t, ib2, size, size + 4096) == (Seq::<Entry>::empty(), None::<FsErr>));
    }
}

/// What growing directory `p` does.
pub open spec fn stretched(s: FsView, t: FsView, pl: Seq<Place>, p: u32) -> bool {
    &&& dir_ready(t, pl, p)
    &&& steady(s, t)
    &&& forall|x: u32|
        1 <= x <= 8192 * pl.len() && x != p ==> #[trigger] inode_load(t, x) == inode_load(s, x)
    &&& forall|x: int| #[trigger] inode_in_use(t, pl, x) == inode_in_use(s, pl, x)
    &&& forall|b: int| in_use(s, pl, b) ==> #[trigger] in_use(t, pl, b)
    &&& forall|b: int|
        in_use(s, pl, b) && !is_system(s, pl, b) ==> #[trigger] read_block(t, b) == read_block(s, b)
    &&& forall|b: int| #[trigger] uses(t, p, b) ==> uses(s, p, b) || !in_use(s, pl, b)
    &&& dir_entries(t, p).0 == dir_entries(s, p).0
    &&& forall|m: Seq<u8>| #[trigger] lookup_dir(t, p, m) is Ok == lookup_dir(s, p, m) is Ok
    &&& forall|m: Seq<u8>|
        lookup_dir(s, p, m) is Ok ==> #[trigger] lookup_dir(t, p, m) == lookup_dir(s, p, m)
}

/// The parts of a growth that went through.
proof fn grow_parts(s: FsView, p: u32)
    requires
        dir_grow(s, p).1 is Ok,
    ensures
        inode_load(s, p) is Ok,
        ({
            let raw = inode_load(s, p)->Ok_0;
            let (s1, r1) = alloc_block(s);
            let blk = r1->Ok_0;
            let w = write_block(s1, blk as int, zero_bytes(4096));
            let raw2 = extent_append(raw, blk)->Ok_0;
            &&& r1 is Ok
            &&& w.1
            &&& extent_append(raw, blk) is Ok
            &&& inode_save(w.0, p, longer(raw2)).1 is Ok
            &&& dir_grow(s, p).0 == inode_save(w.0, p, longer(raw2)).0
        }),
{
    reveal(dir_grow);
}

/// Appending needs extents that stand in the inode.
proof fn append_needs(raw: Seq<u8>, blk: u32)
    requires
        extent_append(raw, blk) is Ok,
    ensures
        u16_at(extent_area(raw), 6) == 0,
        area_ok(extent_area(raw)) ==> mapped_end(extent_area(raw)) <= u32::MAX,
{
    reveal(extent_append);
}

/// The extents take up the bytes from 40 to 100.
proof fn size_stays(raw: Seq<u8>, ib: Seq<u8>)
    requires
        raw.len() == 256,
        ib.len() == 60,
    ensures
        ({
            let raw2 = splice(raw, 40, ib);
            &&& raw2.len() == 256
            &&& u16_at(raw2, 0) == u16_at(raw, 0)
            &&& ino_size(raw2) == ino_size(raw)
        }),
{
    let raw2 = splice(raw, 40, ib);
    assert(forall|k: int| 0 <= k < 40 ==> raw2[k] == raw[k]);
    assert(forall|k: int| 100 <= k < 256 ==> raw2[k] == raw[k]);
    assert(u32_at(raw2, 4) == u32_at(raw, 4));
    assert(u32_at(raw2, 108) == u32_at(raw, 108));
}

/// A block that was mapped is found where it was.
proof fn mapped_stays(s: FsView, t: FsView, raw: Seq<u8>, ib2: Seq<u8>, off: int)
    requires
        area_ok(extent_area(raw)),
        area_ok(ib2),
        mapped_end(extent_area(raw)) <= u32::MAX,
        0 <= off < 4096 * mapped_end(extent_area(raw)),
        off % 4096 == 0,
        forall|l: u32|
            l < mapped_end(extent_area(raw)) ==> #[trigger] leaf_find(ib2, l, 0) == leaf_find(
                extent_area(raw),
                l,
                0,
            ),
        forall|b: int|
            tree_holds(s, ino_extents(raw), b) ==> #[trigger] read_block(t, b) == read_block(s, b),
    ensures
        file_block(t, ib2, off) == file_block(s, ino_extents(raw), off),
{
    let ob = ino_extents(raw);
    if u16_at(ob, 0) == 0xF30A {
        let l = logical_of(off);
        assert(l == off / 4096);
        leaf_is_map(t, ib2, l);
        leaf_is_map(s, ob, l);
        map_same(s, s, ob, l);
    } else {
        fresh_is_empty(raw);
    }
}

/// The appended block stands behind the others.
proof fn appended_is_last(t: FsView, ib2: Seq<u8>, end: int, blk: u32)
    requires
        area_ok(ib2),
        0 <= end <= u32::MAX,
        leaf_find(ib2, end as u32, 0) == Some(blk),
        read_block(t, blk as int) == Some(zero_bytes(4096)),
    ensures
        file_block(t, ib2, 4096 * end) == Some((blk, zero_bytes(4096))),
{
    assert(logical_of(4096 * end) == end);
    leaf_is_map(t, ib2, end as u32);
}

/// The directory has the blocks that it had, and the appended one.
proof fn held_before(s: FsView, t: FsView, raw: Seq<u8>, ib2: Seq<u8>, blk: int, b: int)
    requires
        area_ok(extent_area(raw)),
        area_ok(ib2),
        leaf_holds(ib2, b) == (leaf_holds(extent_area(raw), b) || b == blk),
    ensures
        tree_holds(t, ib2, b) ==> tree_holds(s, ino_extents(raw), b) || b == blk,
        !is_node(t, ib2, b),
{
    leaf_has_no_nodes(t, ib2, b);
    leaf_is_tree(t, ib2, b);
    if u16_at(ino_extents(raw), 0) == 0xF30A {
        leaf_is_tree(s, ino_extents(raw), b);
    } else {
        fresh_is_empty(raw);
    }
}

/// The extents of a directory before and after a block is appended.
#[verifier::spinoff_prover]
#[verifier::rlimit(80)]
proof fn extents_stretched(s: FsView, t: FsView, raw: Seq<u8>, blk: u32)
    requires
        raw.len() == 256,
        full(raw),
        extent_append(raw, blk) is Ok,
        read_block(t, blk as int) == Some(zero_bytes(4096)),
        forall|b: int|
            tree_holds(s, ino_extents(raw), b) ==> #[trigger] read_block(t, b) == read_block(s, b),
    ensures
        ({
            let raw2 = extent_append(raw, blk)->Ok_0;
            let ib2 = ino_extents(raw2);
            &&& raw2.len() == 256
            &&& u16_at(raw2, 0) == u16_at(raw, 0)
            &&& ino_size(raw2) == ino_size(raw)
            &&& ino_size(raw) + 4096 < 0x1_0000_0000_0000_0000
            &&& one_behind(s, t, ino_extents(raw), ib2, ino_size(raw) as int)
            &&& area_ok(ib2)
            &&& extent_area(raw2) == ib2
            &&& 4096 * mapped_end(ib2) == ino_size(raw) + 4096
            &&& forall|b: int| #[trigger]
                tree_holds(t, ib2, b) ==> tree_holds(s, ino_extents(raw), b) || b == blk
        }),
{
    let ib = extent_area(raw);
    let ob = ino_extents(raw);
    append_needs(raw, blk);
    appended_is_found(raw, blk);
    let raw2 = extent_append(raw, blk)->Ok_0;
    let ib2 = ino_extents(raw2);
    let size = ino_size(raw) as int;
    size_stays(raw, ib2);
    assert forall|off: int| 0 <= off < size && off % 4096 == 0 implies #[trigger] file_block(
        t,
        ib2,
        off,
    ) == file_block(s, ob, off) by {
        mapped_stays(s, t, raw, ib2, off);
    }
    let end = mapped_end(ib);
    assert(leaf_find(ib2, end as u32, 0) == Some(blk));
    appended_is_last(t, ib2, end, blk);
    assert forall|b: int| #[trigger] tree_holds(t, ib2, b) implies tree_holds(s, ob, b) || b == blk by {
        assert(leaf_holds(ib2, b) == (leaf_holds(ib, b) || b == blk));
        held_before(s, t, raw, ib2, blk as int, b);
    }
    assert forall|b: int| !is_node(t, ib2, b) by {
        leaf_has_no_nodes(t, ib2, b);
    }
}

/// An extent area that was made ready maps nothing.
proof fn fresh_is_empty(raw: Seq<u8>)
    requires
        u16_at(ino_extents(raw), 0) != 0xF30A,
    ensures
        mapped_end(extent_area(raw)) == 0,
        forall|b: int| !leaf_holds(extent_area(raw), b),
{
    let a = put16(zero_bytes(60), 0, 0xF30A);
    let b = put16(a, 2, 0);
    let c = put16(b, 4, 4);
    let d = put16(c, 6, 0);
    put16_then_read(a, 2, 0);
    assert(d[2] == b[2] && d[3] == b[3]);
    assert(run_count(d) == 0);
}

#[verifier::spinoff_prover]
proof fn dir_stretched(s: FsView, pl: Seq<Place>, p: u32)
    requires
        dir_ready(s, pl, p),
        dir_grow(s, p).1 is Ok,
    ensures
        stretched(s, dir_grow(s, p).0, pl, p),
{
    grow_parts(s, p);
    let raw = inode_load(s, p)->Ok_0;
    inode_len(s, p);
    let (s1, r1) = alloc_block(s);
    let blk = r1->Ok_0;
    let z = zero_bytes(4096);
    block_added(s, pl, z);
    let s2 = write_block(s1, blk as int, z).0;
    let raw2 = extent_append(raw, blk)->Ok_0;
    let ob = ino_extents(raw);
    let ib2 = ino_extents(raw2);
    let size = ino_size(raw) as int;
    assert forall|b: int| tree_holds(s, ob, b) implies #[trigger] read_block(s2, b) == read_block(
        s,
        b,
    ) by {
        assert(uses(s, p, b));
    }
    extents_stretched(s, s2, raw, blk);
    longer_fields(raw2);
    let r = longer(raw2);
    assert(inode_load(s2, p) == inode_load(s, p));
    if counted(s2) {
        loaded_apart(s2, pl, p);
        append_needs(raw, blk);
        if u16_at(ob, 0) != 0xF30A {
            fresh_is_empty(raw);
        } else if leaf_holds(ob, blk as int) {
            leaf_is_tree(s, ob, blk as int);
            assert(uses(s, p, blk as int));
        }
        appended_apart(raw, blk);
    }
    inode_reads_back(s2, pl, p, r);
    let t = inode_save(s2, p, r).0;
    stored_like(s2, p, r);
    let e = stored(s2, p, r);
    assert(inode_load(t, p) == Ok::<Seq<u8>, FsErr>(e));
    assert(ino_extents(e) == ib2);
    assert(ino_size(e) == size + 4096);
    assert(is_dir(t, p));
    assert forall|b: int| in_use(s, pl, b) && !is_system(s, pl, b) implies #[trigger] read_block(t, b)
        == read_block(s, b) by {
        assert(!is_system(s2, pl, b));
        assert(read_block(s2, b) == read_block(s, b));
    }
    assert(read_block(t, blk as int) == Some(z)) by {
        assert(!is_system(s2, pl, blk as int));
    }
    assert forall|b: int| tree_holds(s, ob, b) implies #[trigger] read_block(t, b) == read_block(s, b) by {
        assert(uses(s, p, b));
    }
    extents_stretched(s, t, raw, blk);
    entries_behind(s, t, ob, ib2, 0, size);
    entries_of_dir(s, p);
    entries_of_dir(t, p);
    assert(extent_area(e) == ib2);
    assert(full(e));
    assert forall|b: int| #[trigger] uses(t, p, b) implies in_use(t, pl, b) && !is_system(t, pl, b) && (
    uses(s, p, b) || !in_use(s, pl, b)) by {
        assert(tree_holds(t, ib2, b));
        if b != blk {
            assert(uses(s, p, b));
            assert(in_use(s2, pl, b));
        } else {
            assert(in_use(s2, pl, b));
        }
    }
    assert forall|m: Seq<u8>| #[trigger] lookup_dir(t, p, m) is Ok == lookup_dir(s, p, m) is Ok by {
        lookup_is_named(s, p, m);
        lookup_is_named(t, p, m);
    }
    assert forall|m: Seq<u8>| lookup_dir(s, p, m) is Ok implies #[trigger] lookup_dir(t, p, m)
        == lookup_dir(s, p, m) by {
        lookup_is_named(s, p, m);
        lookup_is_named(t, p, m);
    }
    assert forall|b: int| in_use(s, pl, b) implies #[trigger] in_use(t, pl, b) by {
        assert(in_use(s2, pl, b));
    }
    assert forall|x: u32| 1 <= x <= 8192 * pl.len() && x != p implies #[trigger] inode_load(t, x)
        == inode_load(s, x) by {
        assert(inode_load(s2, x) == inode_load(s, x));
    }
    assert forall|x: int| #[trigger] inode_in_use(t, pl, x) == inode_in_use(s, pl, x) by {
        assert(inode_in_use(s2, pl, x) == inode_in_use(s, pl, x));
    }
}

proof fn named_after_growth(s: FsView, s1: FsView, t: FsView, pl: Seq<Place>, p: u32, e: Entry)
    requires
        stretched(s, s1, pl, p),
        named_in(s1, t, pl, p, e),
    ensures
        named_in(s, t, pl, p, e),
{
    assert forall|b: int|
        in_use(s, pl, b) && !is_system(s, pl, b) && !uses(s, p, b) implies #[trigger] read_block(t, b)
        == read_block(s, b) by {
        assert(in_use(s1, pl, b));
        assert(!is_system(s1, pl, b));
        assert(!uses(s1, p, b));
        assert(read_block(s1, b) == read_block(s, b));
    }
    assert forall|b: int| in_use(s, pl, b) implies #[trigger] in_use(t, pl, b) by {
        assert(in_use(s1, pl, b));
    }
    assert forall|x: u32| 1 <= x <= 8192 * pl.len() && x != p implies #[trigger] inode_load(t, x)
        == inode_load(s, x) by {
        assert(inode_load(s1, x) == inode_load(s, x));
    }
    assert forall|x: int| #[trigger] inode_in_use(t, pl, x) == inode_in_use(s, pl, x) by {
        assert(inode_in_use(s1, pl, x) == inode_in_use(s, pl, x));
    }
    assert forall|m: Seq<u8>| m != e.name && lookup_dir(s, p, m) is Ok implies #[trigger] lookup_dir(
        t,
        p,
        m,
    ) == lookup_dir(s, p, m) by {
        assert(lookup_dir(s1, p, m) == lookup_dir(s, p, m));
    }
    assert(lookup_dir(s1, p, e.name) is Ok == lookup_dir(s, p, e.name) is Ok);
}

/// A name that was entered into a directory is found there, the other names
/// lead where they led, and no other inode changes, nor a block that was in
/// use but is not the directory's own.
pub proof fn name_is_entered(s: FsView, pl: Seq<Place>, p: u32, e: Entry)
    requires
        dir_ready(s, pl, p),
        e.name.len() <= 255,
        e.ino != 0,
        dir_add(s, p, e.name, e.ino, e.ftype).1 is Ok,
    ensures
        named_in(s, dir_add(s, p, e.name, e.ino, e.ftype).0, pl, p, e),
{
    reveal(dir_add);
    reveal(make_slot);
    let need = align4(8 + e.name.len() as int);
    let (s1, r1) = make_slot(s, p, need);
    if dir_find_slot(s, p, need) is Ok {
        slot_taken(s, pl, p, need, e);
    } else {
        dir_stretched(s, pl, p);
        slot_taken(s1, pl, p, need, e);
        named_after_growth(s, s1, dir_add(s, p, e.name, e.ino, e.ftype).0, pl, p, e);
    }
}

} // verus!
