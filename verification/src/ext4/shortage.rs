//! A write that ends for lack of space: what it took is given back, and the
//! file is left empty.

use vstd::prelude::*;
use crate::bytes::{head, put32, put32_then_read, splice, u16_at, u32_at, zero_bytes};
use crate::ext4::contents::{
    block_added, emptied_fields, file_given_back, fresh_file, grown, grown_twice, held_ok,
    leaf_is_tree, others_stay, same_rest, stored_like, tree_holds,
};
use crate::ext4::counts::{counted, counts_before, desc_counts, few_apart, runs_apart};
use crate::ext4::files::{
    extents_are_freed, file_made, file_replaced, given_back, given_name, new_file, old_file,
    outcome, refilled,
};
use crate::ext4::inodes::{inode_reads_back, stored};
use crate::ext4::model::{
    abandoned, alloc_block, alloc_block_from, alloc_inode, append_data, bit_set, clear_from,
    data_block, data_from, desc_block_of, desc_read, desc_write, emptied, extent_append,
    extent_area, extent_len, extent_start, file_data, fill_file, filled, find_file, free_block,
    free_entries, free_extents, free_run, group_blocks, ino_extents, inode_load, inode_save,
    min_int, new_inode, read_block, sb_write, take_block, target, with_bit, write_block, write_file,
};
use crate::ext4::runs::{appended_apart, appended_is_found, area_ok, leaf_holds};
use crate::ext4::space::{
    bit_is_set, block_len, block_step, group_block, in_use, inode_in_use, is_system, place_of,
    shape, space_ok, Place,
};
use crate::ext4::supply::{block_map_changed, lowest_clear, remapped};
use crate::ext4::tree::tree_ok;
use crate::fs::{Ext4Info, FsErr, FsView};

verus! {

// ---------- where the lack of space shows ----------

proof fn saving_needs_none(s: FsView, ino: u32, raw: Seq<u8>)
    ensures
        inode_save(s, ino, raw).1 != Err::<(), FsErr>(FsErr::NoSpace),
{
    reveal(inode_save);
    reveal(desc_read);
}

proof fn freeing_needs_none(s: FsView, blk: u32)
    ensures
        free_block(s, blk).1 != Err::<(), FsErr>(FsErr::NoSpace),
{
    reveal(free_block);
    reveal(desc_read);
    reveal(desc_write);
    reveal(sb_write);
}

proof fn run_needs_none(s: FsView, from: int, k: int, n: int)
    ensures
        free_run(s, from, k, n).1 != Err::<(), FsErr>(FsErr::NoSpace),
    decreases n - k,
{
    if k < n && from + k <= u32::MAX {
        let blk = (from + k) as u32;
        freeing_needs_none(s, blk);
        run_needs_none(free_block(s, blk).0, from, k + 1, n);
    }
}

proof fn entries_need_none(s: FsView, ib: Seq<u8>, e: int)
    ensures
        free_entries(s, ib, e).1 != Err::<(), FsErr>(FsErr::NoSpace),
    decreases u16_at(ib, 2) - e,
{
    let o = 12 + 12 * e;
    if e < u16_at(ib, 2) && o + 12 <= 60 {
        let from = extent_start(ib, o) as int;
        let n = extent_len(ib, o);
        run_needs_none(s, from, 0, n);
        entries_need_none(free_run(s, from, 0, n).0, ib, e + 1);
    }
}

/// A write that ended for lack of space ended with the data: what it took was
/// given back, and the inode saved.
proof fn short_parts(s: FsView, ino: u32, raw0: Seq<u8>, data: Seq<u8>)
    requires
        fill_file(s, ino, raw0, data).1 == Err::<(), FsErr>(FsErr::NoSpace),
    ensures
        ({
            let s1 = inode_save(s, ino, emptied(raw0)).0;
            let (s2, raw2, r2) = append_data(s1, emptied(raw0), data, 0);
            let s3 = free_extents(s2, raw2).0;
            &&& inode_save(s, ino, emptied(raw0)).1 is Ok
            &&& r2 == Err::<(), FsErr>(FsErr::NoSpace)
            &&& free_extents(s2, raw2).1 is Ok
            &&& inode_save(s3, ino, abandoned(raw2)).1 is Ok
            &&& fill_file(s, ino, raw0, data).0 == inode_save(s3, ino, abandoned(raw2)).0
        }),
{
    reveal(fill_file);
    saving_needs_none(s, ino, emptied(raw0));
    let s1 = inode_save(s, ino, emptied(raw0)).0;
    let (s2, raw2, r2) = append_data(s1, emptied(raw0), data, 0);
    reveal(free_extents);
    entries_need_none(s2, ino_extents(raw2), 0);
    let s3 = free_extents(s2, raw2).0;
    saving_needs_none(s3, ino, abandoned(raw2));
    saving_needs_none(s2, ino, filled(raw2, data.len() as int));
}

// ---------- no block is left ----------

/// A block that cannot be taken for lack of space.
proof fn none_taken_from(s: FsView, pl: Seq<Place>, i: Ext4Info, g: int)
    requires
        space_ok(s, pl),
        s.ext == Some(i),
        0 <= g,
        alloc_block_from(s, i, g).1 == Err::<u32, FsErr>(FsErr::NoSpace),
    ensures
        grown(s, alloc_block_from(s, i, g).0, pl),
    decreases i.groups - g,
{
    if g < i.groups {
        assert(desc_read(s, g) is Ok);
        let d = desc_read(s, g)->Ok_0;
        assert(place_of(d) == pl[g]);
        let bmap = read_block(s, pl[g].bmap as int)->0;
        assert(read_block(s, pl[g].bmap as int) is Some);
        lowest_clear(bmap, 0, group_blocks(i, g));
        match clear_from(bmap, 0, group_blocks(i, g)) {
            None => {
                none_taken_from(s, pl, i, g + 1);
            },
            Some(bit) => {
                miscounted(s, pl, i, g, d, bmap, bit);
            },
        }
    }
}

/// The descriptor counts no free block although the bitmap has one: the bit is
/// set, and nothing else changes.
proof fn miscounted(s: FsView, pl: Seq<Place>, i: Ext4Info, g: int, d: Seq<u8>, bmap: Seq<u8>, bit: int)
    requires
        space_ok(s, pl),
        s.ext == Some(i),
        0 <= g < pl.len(),
        desc_read(s, g) == Ok::<Seq<u8>, FsErr>(d),
        read_block(s, pl[g].bmap as int) == Some(bmap),
        0 <= bit < group_blocks(i, g),
        !bit_set(bmap, bit),
        take_block(s, g, d, bmap, bit).1 == Err::<u32, FsErr>(FsErr::NoSpace),
    ensures
        grown(s, take_block(s, g, d, bmap, bit).0, pl),
{
    reveal(take_block);
    assert(place_of(d) == pl[g]);
    assert(group_block(pl, g, 0) == pl[g].bmap);
    let bm = with_bit(bmap, bit);
    block_len(s, pl[g].bmap as int);
    bit_is_set(bmap, bit, bit);
    block_len(s, desc_block_of(g));
    assert(d.len() == 64) by {
        reveal(desc_read);
    }
    reveal(desc_write);
    reveal(sb_write);
    assert(write_block(s, pl[g].bmap as int, bm).1);
    block_step(s, pl, pl[g].bmap as int, bm);
    let s1 = write_block(s, pl[g].bmap as int, bm).0;
    let imap = read_block(s1, pl[g].imap as int)->0;
    desc_counts(d, bm, imap, 12, 0, 0);
    assert(take_block(s, g, d, bmap, bit).0 == s1);
    if counted(s) {
        counts_before(s, pl, g, 0, bit);
        assert(false);
    }
    let blk = g * 32768 + bit;
    assert(blk / 32768 == g && blk % 32768 == bit);
    assert(!in_use(s, pl, blk));
    assert(!is_system(s, pl, blk));
    assert(shape(s1) == shape(s));
    assert(remapped(s, s1, pl, pl[g].bmap as int, bm));
    block_map_changed(s, s1, pl, blk, bm, true);
    assert forall|b: int| in_use(s, pl, b) implies #[trigger] in_use(s1, pl, b) by {}
}

/// Appending data until no block is left: what was appended so far is held by
/// the extents, and was not in use before.
#[verifier::spinoff_prover]
#[verifier::rlimit(60)]
proof fn appended_short(s: FsView, pl: Seq<Place>, raw: Seq<u8>, data: Seq<u8>, at: int)
    requires
        space_ok(s, pl),
        raw.len() == 256,
        area_ok(extent_area(raw)),
        held_ok(s, pl, extent_area(raw)),
        runs_apart(ino_extents(raw)),
        append_data(s, raw, data, at).2 == Err::<(), FsErr>(FsErr::NoSpace),
    ensures
        ({
            let (t, raw2, r) = append_data(s, raw, data, at);
            let ib2 = extent_area(raw2);
            &&& grown(s, t, pl)
            &&& same_rest(raw, raw2)
            &&& area_ok(ib2)
            &&& held_ok(t, pl, ib2)
            &&& runs_apart(ino_extents(raw2))
            &&& raw2 == raw || ino_extents(raw2) == ib2
            &&& forall|b: int| #[trigger]
                leaf_holds(ib2, b) ==> leaf_holds(extent_area(raw), b) || !in_use(s, pl, b)
        }),
    decreases data.len() + 4096 - at,
{
    let (s1, r1) = alloc_block(s);
    reveal(alloc_block);
    if r1 is Err {
        none_taken_from(s, pl, s.ext->0, 0);
    } else {
        let blk = r1->Ok_0;
        let b = data_block(data, at);
        let n = min_int(data.len() - at, 4096);
        assert(b.len() == 4096);
        let s2 = write_block(s1, blk as int, b).0;
        block_added(s, pl, b);
        assert(extent_append(raw, blk) is Ok) by {
            reveal(extent_append);
        }
        appended_is_found(raw, blk);
        appended_apart(raw, blk);
        let raw1 = extent_append(raw, blk)->Ok_0;
        let ib = extent_area(raw);
        let ib1 = extent_area(raw1);
        assert(same_rest(raw, raw1));
        assert forall|c: int| #[trigger] leaf_holds(ib1, c) implies in_use(s2, pl, c) && !is_system(
            s2,
            pl,
            c,
        ) by {
            if c != blk {
                assert(leaf_holds(ib, c));
            }
        }
        appended_short(s2, pl, raw1, data, at + 4096);
        let (t, raw2, r) = append_data(s2, raw1, data, at + 4096);
        grown_twice(s, s2, t, pl);
        let ib2 = extent_area(raw2);
        assert forall|c: int| #[trigger] leaf_holds(ib2, c) implies leaf_holds(ib, c) || !in_use(s, pl, c) by {
            if in_use(s, pl, c) {
                assert(in_use(s2, pl, c));
                assert(leaf_holds(ib1, c));
            }
        }
    }
}

/// The fields of an inode that was given up.
proof fn abandoned_fields(raw: Seq<u8>)
    requires
        raw.len() == 256,
    ensures
        ({
            let e = abandoned(raw);
            &&& e.len() == 256
            &&& u16_at(e, 0) == u16_at(raw, 0)
            &&& u32_at(e, 4) == u32_at(raw, 4)
            &&& u32_at(e, 108) == 0
            &&& u16_at(ino_extents(e), 0) == 0
        }),
{
    let a = splice(raw, 40, zero_bytes(60));
    let b = put32(a, 108, 0);
    let e = put32(b, 28, 0);
    put32_then_read(a, 108, 0);
    assert(e == abandoned(raw));
    assert(e[0] == raw[0] && e[1] == raw[1]);
    assert(forall|k: int| 4 <= k < 8 ==> e[k] == raw[k]);
    assert(forall|k: int| 108 <= k < 112 ==> e[k] == b[k]);
    assert(forall|k: int| 40 <= k < 100 ==> e[k] == 0);
    let ib = ino_extents(e);
    assert(ib[0] == 0 && ib[1] == 0);
}

/// A file whose filling ended for lack of space is empty, and nothing else that
/// was in use has changed.
#[verifier::spinoff_prover]
proof fn short_is_refilled(s: FsView, pl: Seq<Place>, ino: u32, raw0: Seq<u8>, data: Seq<u8>)
    requires
        space_ok(s, pl),
        1 <= ino <= 8192 * pl.len(),
        raw0.len() == 256,
        fill_file(s, ino, raw0, data).1 == Err::<(), FsErr>(FsErr::NoSpace),
    ensures
        refilled(s, fill_file(s, ino, raw0, data).0, pl, ino, Seq::empty()),
{
    short_parts(s, ino, raw0, data);
    let raw = emptied(raw0);
    emptied_fields(raw0);
    few_apart(ino_extents(raw));
    let s1 = inode_save(s, ino, raw).0;
    inode_reads_back(s, pl, ino, raw);
    appended_short(s1, pl, raw, data, 0);
    let (s2, raw2, r2) = append_data(s1, raw, data, 0);
    let ib2 = extent_area(raw2);
    assert forall|b: int| #[trigger] tree_holds(s2, ino_extents(raw2), b) implies in_use(s2, pl, b)
        && !is_system(s2, pl, b) && !in_use(s1, pl, b) by {
        if raw2 == raw {
            reveal(tree_holds);
        } else {
            leaf_is_tree(s2, ib2, b);
            assert(leaf_holds(ib2, b));
        }
    }
    extents_are_freed(s2, pl, raw2);
    let s3 = free_extents(s2, raw2).0;
    let f = abandoned(raw2);
    abandoned_fields(raw2);
    assert(forall|k: int| 4 <= k < 8 ==> raw2[k] == raw[k]);
    assert(u16_at(raw2, 0) == u16_at(raw, 0) && u32_at(raw2, 4) == u32_at(raw, 4));
    few_apart(ino_extents(f));
    inode_reads_back(s3, pl, ino, f);
    let t = inode_save(s3, ino, f).0;
    stored_like(s3, ino, f);
    let e = stored(s3, ino, f);
    assert(others_stay(s, t, pl, ino)) by {
        assert forall|b: int| in_use(s, pl, b) implies #[trigger] in_use(t, pl, b) by {
            assert(in_use(s1, pl, b));
            assert(in_use(s2, pl, b));
            assert(!tree_holds(s2, ino_extents(raw2), b));
            assert(in_use(s3, pl, b));
        }
        assert forall|b: int| in_use(s, pl, b) && !is_system(s, pl, b) implies #[trigger] read_block(t, b)
            == read_block(s, b) by {
            assert(in_use(s1, pl, b) && !is_system(s1, pl, b));
            assert(read_block(s1, b) == read_block(s, b));
            assert(read_block(s2, b) == read_block(s1, b));
            assert(!is_system(s2, pl, b) && !is_system(s3, pl, b));
            assert(read_block(s3, b) == read_block(s2, b));
        }
        assert forall|x: int| #[trigger] inode_in_use(t, pl, x) == inode_in_use(s, pl, x) by {
            assert(inode_in_use(s1, pl, x) == inode_in_use(s, pl, x));
            assert(inode_in_use(s2, pl, x) == inode_in_use(s1, pl, x));
            assert(inode_in_use(s3, pl, x) == inode_in_use(s2, pl, x));
        }
        assert forall|x: u32| 1 <= x <= 8192 * pl.len() && x != ino implies #[trigger] inode_load(t, x)
            == inode_load(s, x) by {
            assert(inode_load(s1, x) == inode_load(s, x));
            assert(inode_load(s2, x) == inode_load(s1, x));
            assert(inode_load(s3, x) == inode_load(s2, x));
        }
    }
    assert(fresh_file(s, t, pl, ino)) by {
        assert forall|b: int| !#[trigger] tree_holds(t, ino_extents(e), b) by {
            reveal(tree_holds);
        }
    }
    let none = Seq::<u8>::empty();
    assert forall|room: int| room >= 0 implies #[trigger] file_data(t, ino, room) == (
        head(none, room),
        None::<FsErr>,
    ) by {
        assert(data_from(t, ino_extents(e), 0, 0) == (none, false));
        file_given_back(t, ino, e, none, room);
    }
}

/// A write that ends for lack of space, where the file was there or got its
/// name, leaves a sound volume on which the file reads as empty; the free
/// counts stay right.
pub proof fn short_write_leaves_an_empty_file(
    s: FsView,
    pl: Seq<Place>,
    live: Set<u32>,
    path: Seq<char>,
    data: Seq<u8>,
)
    requires
        tree_ok(s, pl, live),
        write_file(s, path, data).1 == Err::<(), FsErr>(FsErr::NoSpace),
        find_file(s, path) is Ok || (target(s, path) is Ok && alloc_inode(s).1 is Ok && given_name(
            s,
            path,
        ).1 is Ok),
    ensures
        outcome(s, write_file(s, path, data).0, pl, live, path, Seq::empty()),
{
    reveal(write_file);
    let t = write_file(s, path, data).0;
    if find_file(s, path) is Ok {
        let ino = find_file(s, path)->Ok_0;
        reveal(free_extents);
        entries_need_none(s, ino_extents(inode_load(s, ino)->Ok_0), 0);
        reveal(inode_load);
        reveal(desc_read);
        old_file(s, pl, live, path);
        short_is_refilled(given_back(s, path).0, pl, ino, inode_load(s, ino)->Ok_0, data);
        file_replaced(s, t, pl, live, path, Seq::empty());
    } else {
        new_file(s, pl, live, path);
        let raw0 = new_inode(0x81A4, 1);
        assert(raw0.len() == 256);
        short_is_refilled(given_name(s, path).0, pl, alloc_inode(s).1->Ok_0, raw0, data);
        file_made(s, t, pl, live, path, Seq::empty());
    }
}

} // verus!
