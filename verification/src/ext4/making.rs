//! What making a volume promises: it mounts, and its directories and bitmaps
//! agree.

use vstd::prelude::*;
use crate::bytes::{put32, put32_then_read, u32_at, zero_bytes};
use crate::ext4::counts::{
    counted, counted_alike, counts_stay, dirs_counts, runs_apart, stays_apart, steady,
};
use crate::ext4::fresh::{
    can_be_made, fresh_is_counted, fresh_maps, fresh_places, fresh_space, groups_whole, place_at,
    table_end,
};
use crate::ext4::inodes::{
    data_reads_back, inode_reads_back, load_is_checked, maps_kept, maps_stay, stored,
};
use crate::ext4::laws::{outside_journal, raw_same};
use crate::ext4::layout::{
    alloc_many, fresh_info, journal_inode, journal_super, make_journal, make_root, make_seed,
    make_seeds, meta_blocks, mkfs_at, root_block, seeds, write_metadata,
};
use crate::ext4::contents::{leaf_is_map, stored_like, tree_holds};
use crate::ext4::model::{
    alloc_block, alloc_inode, block_entries, bump_used_dirs, desc_block_of, desc_csum, desc_read,
    desc_write, dir_entries, dir_inode, dot_block, extent_map, group_blocks, ino_extents,
    inode_load, inode_save, is_dot_name, is_jbd_block, jbd_init, journal_at, lookup_dir, mount_at,
    one_extent, rb_raw, read_block, replay, sb_read, set_split_count, split_count, super_info,
    txn_at, write_block, write_new_dir, Entry,
};
use crate::ext4::order::{entry_in, hangs, orderly, seed_is_found, sits};
use crate::ext4::seeds::{
    dir_fields, dots, extent_apart, one_run, root_entries, seed_entry, seeds_differ, small_dir,
};
use crate::ext4::space::{
    block_len, desc_step, group_block, in_use, inode_in_use, is_system, place_of, shape, shape_of,
    space_ok, top, Place,
};
use crate::ext4::supply::{block_is_taken, contents_kept, inode_is_taken};
use crate::ext4::tree::{dir_ok, entry_ok, is_dir, tree_ok, uses};
use crate::fs::{Ext4Info, FsErr, FsKind, FsView, JbdView};

verus! {

/// What is in use is as it was, but for inode `x`; more may be in use.
pub open spec fn made(s: FsView, t: FsView, pl: Seq<Place>, x: u32) -> bool {
    &&& space_ok(t, pl)
    &&& steady(s, t)
    &&& shape(t) == shape(s)
    &&& forall|b: int| in_use(s, pl, b) ==> #[trigger] in_use(t, pl, b)
    &&& forall|y: int| inode_in_use(s, pl, y) ==> #[trigger] inode_in_use(t, pl, y)
    &&& forall|b: int|
        in_use(s, pl, b) && !is_system(s, pl, b) ==> #[trigger] read_block(t, b) == read_block(s, b)
    &&& forall|y: u32|
        inode_in_use(s, pl, y as int) && y != x ==> #[trigger] inode_load(t, y) == inode_load(s, y)
}

pub proof fn made_both(s: FsView, t: FsView, u: FsView, pl: Seq<Place>, x: u32, y: u32)
    requires
        made(s, t, pl, x),
        made(t, u, pl, y),
        y == x || y == 0 || !inode_in_use(s, pl, y as int),
    ensures
        made(s, u, pl, x),
{
    assert forall|b: int| in_use(s, pl, b) && !is_system(s, pl, b) implies #[trigger] read_block(u, b)
        == read_block(s, b) by {
        assert(in_use(t, pl, b) && !is_system(t, pl, b));
        assert(read_block(t, b) == read_block(s, b));
    }
    assert forall|b: int| in_use(s, pl, b) implies #[trigger] in_use(u, pl, b) by {
        assert(in_use(t, pl, b));
    }
    assert forall|z: int| inode_in_use(s, pl, z) implies #[trigger] inode_in_use(u, pl, z) by {
        assert(inode_in_use(t, pl, z));
    }
    assert forall|z: u32| inode_in_use(s, pl, z as int) && z != x implies #[trigger] inode_load(u, z)
        == inode_load(s, z) by {
        assert(inode_in_use(t, pl, z as int));
        assert(inode_load(t, z) == inode_load(s, z));
    }
}

pub proof fn taken_is_made(s: FsView, pl: Seq<Place>)
    requires
        space_ok(s, pl),
        alloc_block(s).1 is Ok,
    ensures
        made(s, alloc_block(s).0, pl, 0),
{
    block_is_taken(s, pl);
}

pub proof fn written_is_made(s: FsView, t: FsView, pl: Seq<Place>, blk: int, data: Seq<u8>)
    requires
        made(s, t, pl, 0),
        0 <= blk <= u32::MAX,
        !in_use(s, pl, blk),
        !is_system(s, pl, blk),
        data.len() == 4096,
        write_block(t, blk, data).1,
    ensures
        made(s, write_block(t, blk, data).0, pl, 0),
        read_block(write_block(t, blk, data).0, blk) == Some(data),
        maps_kept(t, write_block(t, blk, data).0, pl),
{
    assert(!is_system(t, pl, blk));
    data_reads_back(t, pl, blk, data);
    let u = write_block(t, blk, data).0;
    assert forall|b: int| in_use(s, pl, b) && !is_system(s, pl, b) implies #[trigger] read_block(u, b)
        == read_block(s, b) by {
        assert(!is_system(t, pl, b));
        assert(read_block(t, b) == read_block(s, b));
    }
    assert forall|b: int| in_use(s, pl, b) implies #[trigger] in_use(u, pl, b) by {
        assert(in_use(t, pl, b));
    }
    assert forall|z: int| inode_in_use(s, pl, z) implies #[trigger] inode_in_use(u, pl, z) by {
        assert(inode_in_use(t, pl, z));
    }
    assert forall|z: u32| inode_in_use(s, pl, z as int) && z != 0 implies #[trigger] inode_load(u, z)
        == inode_load(s, z) by {
        assert(inode_load(t, z) == inode_load(s, z));
    }
}

pub proof fn saved_is_made(s: FsView, pl: Seq<Place>, x: u32, raw: Seq<u8>)
    requires
        space_ok(s, pl),
        1 <= x <= 8192 * pl.len(),
        raw.len() == 256,
        counted(s) ==> runs_apart(ino_extents(raw)),
        inode_save(s, x, raw).1 is Ok,
    ensures
        made(s, inode_save(s, x, raw).0, pl, x),
        maps_kept(s, inode_save(s, x, raw).0, pl),
        inode_load(inode_save(s, x, raw).0, x) == Ok::<Seq<u8>, FsErr>(stored(s, x, raw)),
{
    inode_reads_back(s, pl, x, raw);
}

/// Counting directories changes the descriptor alone.
pub proof fn counted_is_made(s: FsView, pl: Seq<Place>, g: int, delta: int)
    requires
        space_ok(s, pl),
        0 <= g < pl.len(),
        -1 <= delta <= 1,
        bump_used_dirs(s, g, delta).1 is Ok,
    ensures
        made(s, bump_used_dirs(s, g, delta).0, pl, 0),
        maps_kept(s, bump_used_dirs(s, g, delta).0, pl),
        contents_kept(s, bump_used_dirs(s, g, delta).0, pl),
{
    reveal(bump_used_dirs);
    assert(desc_read(s, g) is Ok && place_of(desc_read(s, g)->Ok_0) == pl[g]);
    let d = desc_read(s, g)->Ok_0;
    assert(d.len() == 64) by {
        reveal(desc_read);
        block_len(s, desc_block_of(g));
    }
    let next = split_count(d, 16, 48) + delta;
    let v = if next < 0 {
        0
    } else {
        next as u64
    };
    let e = set_split_count(d, 16, 48, v);
    assert(forall|k: int| 0 <= k < 12 ==> e[k] == d[k]);
    desc_step(s, pl, g, e);
    let t = desc_write(s, g, e).0;
    let q = desc_block_of(g);
    assert(1 <= q <= top(pl));
    assert forall|h: int| 0 <= h < pl.len() implies q != #[trigger] group_block(pl, h, 0) && q
        != group_block(pl, h, 1) by {
        assert(top(pl) < group_block(pl, h, 1));
    }
    maps_stay(s, t, pl, q);
    assert(outside_journal(s, 0));
    assert(read_block(t, 0) == read_block(s, 0));
    dirs_counts(d, v, desc_csum(g, e));
    counts_stay(s, t, pl, q);
    assert forall|z: u32| 1 <= z <= 8192 * pl.len() implies #[trigger] inode_load(t, z) == inode_load(
        s,
        z,
    ) by {
        load_is_checked(s, pl, z);
        load_is_checked(t, pl, z);
    }
    stays_apart(s, t, pl, 0);
}

// ---------- the journal ----------

/// The blocks of the first group are in use up to `k`.
spec fn filled_to(s: FsView, pl: Seq<Place>, i: Ext4Info, k: int) -> bool {
    forall|b: int| 0 <= b < group_blocks(i, 0) ==> #[trigger] in_use(s, pl, b) == (b < k)
}

proof fn next_is_taken(s: FsView, pl: Seq<Place>, i: Ext4Info, k: int)
    requires
        space_ok(s, pl),
        s.ext == Some(i),
        filled_to(s, pl, i, k),
        0 <= k < group_blocks(i, 0),
        alloc_block(s).1 is Ok,
    ensures
        alloc_block(s).1->Ok_0 == k,
        filled_to(alloc_block(s).0, pl, i, k + 1),
        made(s, alloc_block(s).0, pl, 0),
        !is_system(s, pl, k),
        !in_use(s, pl, k),
{
    block_is_taken(s, pl);
    let blk = alloc_block(s).1->Ok_0 as int;
    assert(!in_use(s, pl, k));
    if blk > k {
        assert(k / 32768 == 0 && k % 32768 == k);
        assert(in_use(s, pl, k));
    }
    if blk < k {
        assert(in_use(s, pl, blk));
    }
}

proof fn many_are_taken(s: FsView, pl: Seq<Place>, i: Ext4Info, k: int, n: int)
    requires
        space_ok(s, pl),
        s.ext == Some(i),
        filled_to(s, pl, i, k),
        0 <= k,
        0 <= n,
        k + n <= group_blocks(i, 0),
        alloc_many(s, n).1 is Ok,
    ensures
        filled_to(alloc_many(s, n).0, pl, i, k + n),
        made(s, alloc_many(s, n).0, pl, 0),
    decreases n,
{
    if n > 0 {
        next_is_taken(s, pl, i, k);
        let s1 = alloc_block(s).0;
        many_are_taken(s1, pl, i, k + 1, n - 1);
        made_both(s, s1, alloc_many(s, n).0, pl, 0, 0);
    }
}

/// The journal of a fresh volume: its blocks are in use, and its inode names
/// them.
pub open spec fn journal_made(s: FsView, pl: Seq<Place>, m: int) -> bool {
    &&& 0 <= m <= 1000
    &&& inode_in_use(s, pl, 8)
    &&& inode_load(s, 8) == Ok::<Seq<u8>, FsErr>(stored(s, 8, journal_inode(m as u32)))
    &&& read_block(s, m) == Some(journal_super())
    &&& !is_system(s, pl, m)
    &&& forall|b: int| m <= b < m + 1024 ==> #[trigger] in_use(s, pl, b)
}

#[verifier::spinoff_prover]
proof fn journal_is_made(s: FsView, pl: Seq<Place>, i: Ext4Info)
    requires
        space_ok(s, pl),
        s.ext == Some(i),
        can_be_made(i),
        pl.len() == i.groups,
        fresh_maps(s, pl, i),
        make_journal(s).1 is Ok,
    ensures
        made(s, make_journal(s).0, pl, 8),
        journal_made(make_journal(s).0, pl, meta_blocks(i.groups as int)),
{
    reveal(make_journal);
    let m = meta_blocks(i.groups as int);
    assert(group_blocks(i, 0) >= 8192);
    assert(filled_to(s, pl, i, m)) by {
        assert forall|b: int| 0 <= b < group_blocks(i, 0) implies #[trigger] in_use(s, pl, b) == (b
            < m) by {
            assert(b / 32768 == 0 && b % 32768 == b);
        }
    }
    next_is_taken(s, pl, i, m);
    let s1 = alloc_block(s).0;
    let j = journal_super();
    assert(j.len() == 4096);
    written_is_made(s, s1, pl, m, j);
    let s2 = write_block(s1, m, j).0;
    assert(filled_to(s2, pl, i, m + 1)) by {
        assert forall|b: int| 0 <= b < group_blocks(i, 0) implies #[trigger] in_use(s2, pl, b) == (b
            < m + 1) by {
            assert(in_use(s1, pl, b) == (b < m + 1));
        }
    }
    many_are_taken(s2, pl, i, m + 1, 1023);
    let s3 = alloc_many(s2, 1023).0;
    made_both(s, s2, s3, pl, 0, 0);
    let raw = journal_inode(m as u32);
    assert(raw.len() == 256);
    assert(ino_extents(raw) =~= one_extent(1024, m as u32));
    extent_apart(1024, m as u32);
    saved_is_made(s3, pl, 8, raw);
    let t = inode_save(s3, 8, raw).0;
    made_but(s, s3, t, pl, 8);
    assert(in_use(s2, pl, m)) by {
        assert(in_use(s1, pl, m));
    }
    assert(!is_system(s2, pl, m));
    assert(read_block(s3, m) == read_block(s2, m));
    assert(!is_system(s3, pl, m) && in_use(s3, pl, m));
    assert(read_block(t, m) == read_block(s3, m));
    assert forall|b: int| m <= b < m + 1024 implies #[trigger] in_use(t, pl, b) by {
        assert(in_use(s3, pl, b));
    }
    assert(inode_in_use(s, pl, 8));
}

pub proof fn made_but(s: FsView, t: FsView, u: FsView, pl: Seq<Place>, x: u32)
    requires
        made(s, t, pl, 0),
        made(t, u, pl, x),
        !inode_in_use(s, pl, 0),
    ensures
        made(s, u, pl, x),
{
    assert forall|b: int| in_use(s, pl, b) && !is_system(s, pl, b) implies #[trigger] read_block(u, b)
        == read_block(s, b) by {
        assert(in_use(t, pl, b) && !is_system(t, pl, b));
        assert(read_block(t, b) == read_block(s, b));
    }
    assert forall|b: int| in_use(s, pl, b) implies #[trigger] in_use(u, pl, b) by {
        assert(in_use(t, pl, b));
    }
    assert forall|z: int| inode_in_use(s, pl, z) implies #[trigger] inode_in_use(u, pl, z) by {
        assert(inode_in_use(t, pl, z));
    }
    assert forall|z: u32| inode_in_use(s, pl, z as int) && z != x implies #[trigger] inode_load(u, z)
        == inode_load(s, z) by {
        assert(inode_in_use(t, pl, z as int));
        assert(inode_load(t, z) == inode_load(s, z));
    }
}

// ---------- the directories ----------

/// A directory of one block.
pub open spec fn dir_made(
    s: FsView,
    pl: Seq<Place>,
    x: u32,
    links: u16,
    blk: u32,
    b: Seq<u8>,
) -> bool {
    &&& inode_in_use(s, pl, x as int)
    &&& inode_load(s, x) == Ok::<Seq<u8>, FsErr>(stored(s, x, dir_inode(links, blk)))
    &&& in_use(s, pl, blk as int)
    &&& !is_system(s, pl, blk as int)
    &&& read_block(s, blk as int) == Some(b)
}

pub proof fn dir_stays(
    s: FsView,
    t: FsView,
    pl: Seq<Place>,
    y: u32,
    x: u32,
    links: u16,
    blk: u32,
    b: Seq<u8>,
)
    requires
        made(s, t, pl, y),
        x != y,
        dir_made(s, pl, x, links, blk, b),
    ensures
        dir_made(t, pl, x, links, blk, b),
{
    assert(inode_load(t, x) == inode_load(s, x));
    assert(stored(t, x, dir_inode(links, blk)) == stored(s, x, dir_inode(links, blk)));
}

proof fn journal_stays(s: FsView, t: FsView, pl: Seq<Place>, y: u32, m: int)
    requires
        made(s, t, pl, y),
        y != 8,
        journal_made(s, pl, m),
    ensures
        journal_made(t, pl, m),
{
    assert(inode_load(t, 8) == inode_load(s, 8));
    assert(stored(t, 8, journal_inode(m as u32)) == stored(s, 8, journal_inode(m as u32)));
    assert(in_use(s, pl, m));
    assert forall|b: int| m <= b < m + 1024 implies #[trigger] in_use(t, pl, b) by {
        assert(in_use(s, pl, b));
    }
}

/// The block that a fresh directory is put in.
pub open spec fn seed_block(s: FsView) -> u32 {
    alloc_block(alloc_inode(s).0).1->Ok_0
}

#[verifier::spinoff_prover]
proof fn seed_is_made(s: FsView, pl: Seq<Place>)
    requires
        space_ok(s, pl),
        make_seed(s).1 is Ok,
    ensures
        ({
            let (t, r) = make_seed(s);
            let x = r->Ok_0;
            let blk = seed_block(s);
            &&& made(s, t, pl, 0)
            &&& x != 0
            &&& !inode_in_use(s, pl, x as int)
            &&& !in_use(s, pl, blk as int)
            &&& dir_made(t, pl, x, 2, blk, dot_block(x, 2))
        }),
{
    reveal(make_seed);
    reveal(write_new_dir);
    inode_is_taken(s, pl);
    let (s1, r1) = alloc_inode(s);
    let x = r1->Ok_0;
    assert(made(s, s1, pl, 0));
    taken_is_made(s1, pl);
    block_is_taken(s1, pl);
    let (s2, r2) = alloc_block(s1);
    let blk = r2->Ok_0;
    assert(in_use(s1, pl, blk as int) == in_use(s, pl, blk as int));
    dots(x, 2);
    let b = dot_block(x, 2);
    written_is_made(s1, s2, pl, blk as int, b);
    let s3 = write_block(s2, blk as int, b).0;
    made_both(s, s1, s3, pl, 0, 0);
    assert(in_use(s2, pl, blk as int));
    assert(in_use(s3, pl, blk as int));
    assert(!is_system(s3, pl, blk as int));
    dir_fields(2, blk);
    let raw = dir_inode(2, blk);
    saved_is_made(s3, pl, x, raw);
    let s4 = inode_save(s3, x, raw).0;
    made_both(s, s3, s4, pl, 0, x);
    assert(in_use(s4, pl, blk as int) && !is_system(s4, pl, blk as int));
    assert(read_block(s4, blk as int) == read_block(s3, blk as int));
    assert(inode_in_use(s1, pl, x as int));
    assert(inode_in_use(s2, pl, x as int));
    assert(inode_in_use(s3, pl, x as int));
    assert(inode_in_use(s4, pl, x as int));
    assert(dir_made(s4, pl, x, 2, blk, b));
    counted_is_made(s4, pl, 0, 1);
    let t = bump_used_dirs(s4, 0, 1).0;
    made_both(s, s4, t, pl, 0, 0);
    dir_stays(s4, t, pl, 0, x, 2, blk, b);
}

/// The directories `inos`, in the blocks `blks`.
pub open spec fn seeds_made(s: FsView, pl: Seq<Place>, inos: Seq<u32>, blks: Seq<u32>) -> bool {
    &&& blks.len() == inos.len()
    &&& forall|k: int|
        0 <= k < inos.len() ==> #[trigger] inos[k] != 0 && inos[k] != 2 && dir_made(
            s,
            pl,
            inos[k],
            2,
            blks[k],
            dot_block(inos[k], 2),
        )
    &&& forall|a: int, b: int|
        0 <= a < b < inos.len() ==> #[trigger] inos[a] != #[trigger] inos[b] && blks[a] != blks[b]
}

/// The blocks of the directories are none of those in use at `s`.
pub open spec fn fresh_in(s: FsView, pl: Seq<Place>, blks: Seq<u32>) -> bool {
    forall|k: int| 0 <= k < blks.len() ==> !in_use(s, pl, #[trigger] blks[k] as int)
}

proof fn seeds_are_made(
    s0: FsView,
    s: FsView,
    pl: Seq<Place>,
    inos: Seq<u32>,
    blks: Seq<u32>,
) -> (all: Seq<u32>)
    requires
        made(s0, s, pl, 0),
        inode_in_use(s0, pl, 2),
        seeds_made(s, pl, inos, blks),
        fresh_in(s0, pl, blks),
        inos.len() <= 6,
        make_seeds(s, inos).1 is Ok,
    ensures
        made(s0, make_seeds(s, inos).0, pl, 0),
        (make_seeds(s, inos).1->Ok_0).len() == 6,
        seeds_made(make_seeds(s, inos).0, pl, make_seeds(s, inos).1->Ok_0, all),
        fresh_in(s0, pl, all),
    decreases 6 - inos.len(),
{
    if inos.len() >= 6 {
        blks
    } else {
        seed_is_made(s, pl);
        let (s1, r1) = make_seed(s);
        let x = r1->Ok_0;
        let blk = seed_block(s);
        made_both(s0, s, s1, pl, 0, 0);
        let inos1 = inos.push(x);
        let blks1 = blks.push(blk);
        assert forall|k: int| 0 <= k < inos1.len() implies #[trigger] inos1[k] != 0 && inos1[k] != 2
            && dir_made(s1, pl, inos1[k], 2, blks1[k], dot_block(inos1[k], 2)) by {
            if k < inos.len() {
                assert(inos1[k] == inos[k]);
                dir_stays(s, s1, pl, 0, inos[k], 2, blks[k], dot_block(inos[k], 2));
            } else {
                assert(inode_in_use(s, pl, 2));
            }
        }
        assert forall|a: int, b: int| 0 <= a < b < inos1.len() implies #[trigger] inos1[a]
            != #[trigger] inos1[b] && blks1[a] != blks1[b] by {
            assert(inos1[a] == inos[a]);
            if b < inos.len() {
                assert(inos1[b] == inos[b]);
            }
        }
        assert(fresh_in(s0, pl, blks1)) by {
            assert forall|k: int| 0 <= k < blks1.len() implies !in_use(
                s0,
                pl,
                #[trigger] blks1[k] as int,
            ) by {
                if k < blks.len() {
                    assert(blks1[k] == blks[k]);
                } else if in_use(s0, pl, blk as int) {
                    assert(in_use(s, pl, blk as int));
                }
            }
        }
        seeds_are_made(s0, s1, pl, inos1, blks1)
    }
}

#[verifier::spinoff_prover]
proof fn root_is_made(s: FsView, pl: Seq<Place>, inos: Seq<u32>)
    requires
        space_ok(s, pl),
        inos.len() == 6,
        forall|k: int| 0 <= k < 6 ==> #[trigger] inos[k] != 0,
        inode_in_use(s, pl, 2),
        make_root(s, inos).1 is Ok,
    ensures
        ({
            let t = make_root(s, inos).0;
            let blk = alloc_block(s).1->Ok_0;
            &&& made(s, t, pl, 2)
            &&& !in_use(s, pl, blk as int)
            &&& dir_made(t, pl, 2, 8, blk, root_block(inos, 6))
        }),
{
    reveal(make_root);
    taken_is_made(s, pl);
    block_is_taken(s, pl);
    let (s1, r1) = alloc_block(s);
    let blk = r1->Ok_0;
    root_entries(inos);
    let b = root_block(inos, 6);
    written_is_made(s, s1, pl, blk as int, b);
    let s2 = write_block(s1, blk as int, b).0;
    assert(in_use(s1, pl, blk as int));
    assert(in_use(s2, pl, blk as int));
    assert(!is_system(s2, pl, blk as int));
    dir_fields(8, blk);
    let raw = dir_inode(8, blk);
    saved_is_made(s2, pl, 2, raw);
    let s3 = inode_save(s2, 2, raw).0;
    made_but(s, s2, s3, pl, 2);
    assert(in_use(s3, pl, blk as int) && !is_system(s3, pl, blk as int));
    assert(read_block(s3, blk as int) == read_block(s2, blk as int));
    assert(dir_made(s3, pl, 2, 8, blk, b));
    counted_is_made(s3, pl, 0, 1);
    let t = bump_used_dirs(s3, 0, 1).0;
    made_both(s, s3, t, pl, 2, 0);
    dir_stays(s3, t, pl, 0, 2, 8, blk, b);
}

// ---------- the whole ----------

/// The volume as it is written, before it is mounted.
pub open spec fn volume_written(s: FsView, base: u32) -> FsView {
    let i = fresh_info(s.dev->0)->Ok_0;
    let s1 = write_metadata(FsView { jbd: None, base, ..s }, i).0;
    let s2 = make_journal(s1).0;
    let (s3, r3) = make_seeds(s2, Seq::empty());
    make_root(s3, r3->Ok_0).0
}

/// The directories of a volume that was written.
pub open spec fn made_dirs(
    s: FsView,
    pl: Seq<Place>,
    m: int,
    inos: Seq<u32>,
    blks: Seq<u32>,
    root: u32,
) -> bool {
    &&& inos.len() == 6
    &&& seeds_made(s, pl, inos, blks)
    &&& dir_made(s, pl, 2, 8, root, root_block(inos, 6))
    &&& forall|k: int|
        0 <= k < 6 ==> #[trigger] blks[k] != root && !(m <= blks[k] < m + 1024)
    &&& !(m <= root < m + 1024)
}

/// The parts of the making of a volume.
proof fn mkfs_parts(s: FsView, base: u32)
    requires
        mkfs_at(s, base).1 is Ok,
    ensures
        s.dev is Some,
        fresh_info(s.dev->0) is Ok,
        ({
            let i = fresh_info(s.dev->0)->Ok_0;
            let w = write_metadata(FsView { jbd: None, base, ..s }, i);
            let j = make_journal(w.0);
            let d = make_seeds(j.0, Seq::empty());
            let r = make_root(d.0, d.1->Ok_0);
            &&& w.1 is Ok && j.1 is Ok && d.1 is Ok && r.1 is Ok
            &&& r.0 == volume_written(s, base)
            &&& mount_at(r.0, base).1 is Ok
            &&& mkfs_at(s, base).0 == mount_at(r.0, base).0
        }),
{
    reveal(mkfs_at);
}

#[verifier::spinoff_prover]
proof fn volume_is_written(s: FsView, base: u32) -> (r: (Seq<u32>, Seq<u32>, u32))
    requires
        mkfs_at(s, base).1 is Ok,
    ensures
        ({
            let t = volume_written(s, base);
            let i = fresh_info(s.dev->0)->Ok_0;
            let pl = fresh_places(i.groups as int);
            let m = meta_blocks(i.groups as int);
            &&& can_be_made(i)
            &&& space_ok(t, pl)
            &&& t == FsView { disk: t.disk, ext: Some(i), jbd: None, base, ..s }
            &&& shape(t) == (i.total_blocks, 0u32, 32768u32, 0x4C2u32)
            &&& journal_made(t, pl, m)
            &&& made_dirs(t, pl, m, r.0, r.1, r.2)
            &&& groups_whole(i) ==> counted(t)
        }),
{
    mkfs_parts(s, base);
    let i = fresh_info(s.dev->0)->Ok_0;
    let n = i.groups as int;
    let pl = fresh_places(n);
    let s0 = FsView { jbd: None, base, ..s };
    assert(can_be_made(i));
    with_journal(s0, i);
    let s2 = make_journal(write_metadata(s0, i).0).0;
    with_dirs(s2, pl, meta_blocks(n))
}

/// The administration and the journal.
proof fn with_journal(s: FsView, i: Ext4Info)
    requires
        s.jbd is None,
        can_be_made(i),
        write_metadata(s, i).1 is Ok,
        make_journal(write_metadata(s, i).0).1 is Ok,
    ensures
        ({
            let t = make_journal(write_metadata(s, i).0).0;
            let pl = fresh_places(i.groups as int);
            &&& t == FsView { disk: t.disk, ext: Some(i), ..s }
            &&& space_ok(t, pl)
            &&& shape(t) == (i.total_blocks, 0u32, 32768u32, 0x4C2u32)
            &&& journal_made(t, pl, meta_blocks(i.groups as int))
            &&& inode_in_use(t, pl, 2)
            &&& groups_whole(i) ==> counted(t)
        }),
{
    let pl = fresh_places(i.groups as int);
    fresh_space(s, i);
    let s1 = write_metadata(s, i).0;
    journal_is_made(s1, pl, i);
    assert(inode_in_use(s1, pl, 2));
    if groups_whole(i) {
        fresh_is_counted(s, i);
    }
}

/// The directories.
#[verifier::spinoff_prover]
proof fn with_dirs(s: FsView, pl: Seq<Place>, m: int) -> (r: (Seq<u32>, Seq<u32>, u32))
    requires
        space_ok(s, pl),
        journal_made(s, pl, m),
        inode_in_use(s, pl, 2),
        make_seeds(s, Seq::empty()).1 is Ok,
        make_root(make_seeds(s, Seq::empty()).0, make_seeds(s, Seq::empty()).1->Ok_0).1 is Ok,
    ensures
        ({
            let (s3, r3) = make_seeds(s, Seq::empty());
            let t = make_root(s3, r3->Ok_0).0;
            &&& space_ok(t, pl)
            &&& steady(s, t)
            &&& shape(t) == shape(s)
            &&& journal_made(t, pl, m)
            &&& made_dirs(t, pl, m, r.0, r.1, r.2)
        }),
{
    made_self(s, pl);
    let blks = seeds_are_made(s, s, pl, Seq::empty(), Seq::empty());
    let (s3, r3) = make_seeds(s, Seq::empty());
    let inos = r3->Ok_0;
    journal_stays(s, s3, pl, 0, m);
    assert forall|k: int| 0 <= k < 6 implies #[trigger] inos[k] != 0 by {}
    assert(inode_in_use(s3, pl, 2));
    root_is_made(s3, pl, inos);
    let t = make_root(s3, inos).0;
    let root = alloc_block(s3).1->Ok_0;
    journal_stays(s3, t, pl, 2, m);
    assert(seeds_made(t, pl, inos, blks)) by {
        assert forall|k: int| 0 <= k < inos.len() implies #[trigger] inos[k] != 0 && inos[k] != 2
            && dir_made(t, pl, inos[k], 2, blks[k], dot_block(inos[k], 2)) by {
            dir_stays(s3, t, pl, 2, inos[k], 2, blks[k], dot_block(inos[k], 2));
        }
    }
    assert forall|k: int| 0 <= k < 6 implies #[trigger] blks[k] != root && !(m <= blks[k] < m + 1024) by {
        assert(dir_made(s3, pl, inos[k], 2, blks[k], dot_block(inos[k], 2)));
        assert(in_use(s3, pl, blks[k] as int));
        if m <= blks[k] < m + 1024 {
            assert(in_use(s, pl, blks[k] as int));
        }
    }
    if m <= root < m + 1024 {
        assert(in_use(s3, pl, root as int));
    }
    (inos, blks, root)
}

proof fn made_self(s: FsView, pl: Seq<Place>)
    requires
        space_ok(s, pl),
    ensures
        made(s, s, pl, 0),
        seeds_made(s, pl, Seq::empty(), Seq::empty()),
        fresh_in(s, pl, Seq::empty()),
{
}

/// The inodes that the directories of a fresh volume name.
pub open spec fn fresh_live(inos: Seq<u32>) -> Set<u32> {
    inos.to_set().insert(2)
}

/// The directories of such a volume are in order.
#[verifier::spinoff_prover]
proof fn fresh_in_order(
    s: FsView,
    pl: Seq<Place>,
    m: int,
    inos: Seq<u32>,
    blks: Seq<u32>,
    root: u32,
)
    requires
        made_dirs(s, pl, m, inos, blks, root),
    ensures
        orderly(s, fresh_live(inos)),
        forall|k: int|
            0 <= k < 6 ==> lookup_dir(s, 2, #[trigger] seeds()[k]) == Ok::<(u32, u8), FsErr>(
                (inos[k], 2),
            ),
{
    let live = fresh_live(inos);
    root_entries(inos);
    small_dir(s, 2, 8, root, root_block(inos, 6));
    let es = dir_entries(s, 2).0;
    assert(live.contains(2) && is_dir(s, 2));
    assert forall|k: int| 0 <= k < 6 implies live.contains(#[trigger] inos[k]) && is_dir(s, inos[k])
        && lookup_dir(s, 2, seeds()[k]) == Ok::<(u32, u8), FsErr>((inos[k], 2)) by {
        assert(inos.contains(inos[k]));
        dots(inos[k], 2);
        small_dir(s, inos[k], 2, blks[k], dot_block(inos[k], 2));
        seed_is_found(s, inos, k);
    }
    assert forall|x: u32, f: Entry| #[trigger] entry_in(s, live, x, f) implies sits(s, x, f) && (
    !is_dot_name(f.name) ==> x == 2 && exists|j: int| 0 <= j < 6 && f == #[trigger] seed_entry(inos, j)) by {
        if x == 2 {
            let j = choose|j: int| 0 <= j < 6 && f == #[trigger] seed_entry(inos, j);
            seeds_differ(j, j);
            assert(inos[j] != 2);
        } else {
            assert(inos.contains(x));
            let k = choose|k: int| 0 <= k < inos.len() && inos[k] == x;
            dots(inos[k], 2);
            small_dir(s, inos[k], 2, blks[k], dot_block(inos[k], 2));
            seeds_differ(k, k);
            assert(lookup_dir(s, 2, seeds()[k]) == Ok::<(u32, u8), FsErr>((x, 2)));
            assert(hangs(s, 2, x));
        }
    }
}

/// The tree of a volume whose blocks and inodes are those that were written.
#[verifier::spinoff_prover]
proof fn fresh_tree(
    s: FsView,
    pl: Seq<Place>,
    m: int,
    inos: Seq<u32>,
    blks: Seq<u32>,
    root: u32,
)
    requires
        space_ok(s, pl),
        made_dirs(s, pl, m, inos, blks, root),
    ensures
        tree_ok(s, pl, fresh_live(inos)),
{
    let live = fresh_live(inos);
    assert forall|x: u32| #[trigger] live.contains(x) implies x == 2 || exists|k: int|
        0 <= k < 6 && #[trigger] inos[k] == x by {
        if x != 2 {
            assert(inos.contains(x));
        }
    }
    assert forall|k: int| 0 <= k < 6 implies live.contains(#[trigger] inos[k]) by {
        assert(inos.contains(inos[k]));
    }
    root_entries(inos);
    small_dir(s, 2, 8, root, root_block(inos, 6));
    assert forall|k: int| 0 <= k < 6 implies {
        let x = #[trigger] inos[k];
        &&& dir_ok(s, live, x)
        &&& is_dir(s, x)
        &&& forall|b: int| #[trigger] uses(s, x, b) == (b == blks[k])
    } by {
        let x = inos[k];
        dots(x, 2);
        let b = dot_block(x, 2);
        small_dir(s, x, 2, blks[k], b);
        assert forall|c: int| #[trigger] uses(s, x, c) == (c == blks[k]) by {
            assert(tree_holds(s, ino_extents(inode_load(s, x)->Ok_0), c) == (c == blks[k]));
        }
        assert forall|j: int| 0 <= j < dir_entries(s, x).0.len() implies entry_ok(
            s,
            live,
            #[trigger] dir_entries(s, x).0[j],
        ) by {
            let f = dir_entries(s, x).0[j];
            assert(block_entries(b, 0).0[j] == f);
            assert(block_entries(b, 0).0.contains(f));
        }
    }
    assert forall|b: int| #[trigger] uses(s, 2, b) == (b == root) by {
        assert(tree_holds(s, ino_extents(inode_load(s, 2)->Ok_0), b) == (b == root));
    }
    assert(dir_ok(s, live, 2)) by {
        let b = root_block(inos, 6);
        assert forall|j: int| 0 <= j < dir_entries(s, 2).0.len() implies entry_ok(
            s,
            live,
            #[trigger] dir_entries(s, 2).0[j],
        ) by {
            let f = dir_entries(s, 2).0[j];
            assert(block_entries(b, 0).0[j] == f);
            assert(block_entries(b, 0).0.contains(f));
            assert(inos.contains(f.ino));
            let k = choose|k: int| 0 <= k < inos.len() && inos[k] == f.ino;
            assert(is_dir(s, inos[k]));
        }
    }
    assert forall|x: u32| #[trigger] live.contains(x) implies inode_in_use(s, pl, x as int)
        && inode_load(s, x) is Ok by {
        if x != 2 {
            let k = choose|k: int| 0 <= k < 6 && #[trigger] inos[k] == x;
            assert(dir_made(s, pl, inos[k], 2, blks[k], dot_block(inos[k], 2)));
        }
    }
    assert forall|x: u32, b: int| live.contains(x) && #[trigger] uses(s, x, b) implies in_use(s, pl, b)
        && !is_system(s, pl, b) by {
        if x != 2 {
            let k = choose|k: int| 0 <= k < 6 && #[trigger] inos[k] == x;
            assert(dir_made(s, pl, inos[k], 2, blks[k], dot_block(inos[k], 2)));
            assert(b == blks[k]);
        }
    }
    assert forall|x: u32, y: u32, b: int|
        live.contains(x) && live.contains(y) && x != y && #[trigger] uses(s, x, b) implies !#[trigger] uses(
        s,
        y,
        b,
    ) by {
        if x == 2 {
            let k = choose|k: int| 0 <= k < 6 && #[trigger] inos[k] == y;
            assert(blks[k] != root);
            assert(uses(s, inos[k], b) == (b == blks[k]));
        } else {
            let k = choose|k: int| 0 <= k < 6 && #[trigger] inos[k] == x;
            assert(uses(s, inos[k], b) == (b == blks[k]));
            assert(blks[k] != root);
            if y != 2 {
                let l = choose|l: int| 0 <= l < 6 && #[trigger] inos[l] == y;
                assert(uses(s, inos[l], b) == (b == blks[l]));
                if k < l {
                    assert(inos[k] != inos[l] && blks[k] != blks[l]);
                } else {
                    assert(inos[l] != inos[k] && blks[l] != blks[k]);
                }
            }
        }
    }
    assert forall|x: u32| #[trigger] live.contains(x) && is_dir(s, x) implies dir_ok(s, live, x) by {
        if x != 2 {
            let k = choose|k: int| 0 <= k < 6 && #[trigger] inos[k] == x;
            assert(dir_ok(s, live, inos[k]));
        }
    }
}

// ---------- the mounted volume ----------

/// The fields of the journal's first block.
proof fn journal_fields()
    ensures
        u32_at(journal_super(), 0) == 0xC03B_3998,
        u32_at(journal_super(), 8) == 1,
        u32_at(journal_super(), 12) == 0,
{
    let z = zero_bytes(4096);
    let a = put32(z, 0, 0xC03B_3998);
    let b = put32(a, 4, 1);
    let c = put32(b, 8, 1);
    put32_then_read(z, 0, 0xC03B_3998);
    put32_then_read(b, 8, 1);
    let j = journal_super();
    assert(forall|k: int| 0 <= k < 4 ==> j[k] == a[k]);
    assert(forall|k: int| 8 <= k < 12 ==> j[k] == c[k]);
    assert(j[12] == 0 && j[13] == 0 && j[14] == 0 && j[15] == 0);
}

/// The journal's inode maps its first block.
proof fn journal_mapped(s: FsView, m: u32)
    ensures
        journal_inode(m).len() == 256,
        extent_map(s, ino_extents(stored(s, 8, journal_inode(m))), 0) == Some(m),
{
    let raw = journal_inode(m);
    let ib = one_extent(1024, m);
    assert(ib.len() == 60);
    assert(raw.len() == 256);
    stored_like(s, 8, raw);
    assert(ino_extents(raw) =~= ib);
    one_run(1024, m);
    leaf_is_map(s, ib, 0);
}

/// The superblock of a fresh volume describes the volume that was made.
proof fn fresh_is_described(sb: Seq<u8>, i: Ext4Info)
    requires
        can_be_made(i),
        shape_of(sb) == (i.total_blocks, 0u32, 32768u32, 0x4C2u32),
    ensures
        super_info(sb) matches Ok(k) ==> k == i,
{
    assert(0x4C2u32 & 0x400u32 != 0u32) by (bit_vector);
}

/// The journal of a fresh volume, as it is armed.
pub open spec fn fresh_journal(m: int) -> JbdView {
    JbdView { base: m as u32, start: 1, seq: 1, pend: Seq::empty() }
}

/// No record of an earlier volume stands in the first slot of the journal.
pub open spec fn no_old_record(s: FsView, base: u32) -> bool {
    let m = meta_blocks(fresh_info(s.dev->0)->Ok_0.groups as int);
    !(txn_at(volume_written(s, base), m as u32, 1, 1) is Redo)
}

proof fn mounted_state(s: FsView, i: Ext4Info, pl: Seq<Place>, m: int)
    requires
        can_be_made(i),
        s.jbd is None,
        s.ext == Some(i),
        shape(s) == (i.total_blocks, 0u32, 32768u32, 0x4C2u32),
        journal_made(s, pl, m),
        !(txn_at(s, m as u32, 1, 1) is Redo),
        mount_at(s, s.base).1 is Ok,
    ensures
        mount_at(s, s.base).0 == (FsView {
            jbd: Some(fresh_journal(m)),
            mount: Some(FsKind::Ext4),
            ..s
        }),
{
    reveal(mount_at);
    reveal(jbd_init);
    assert(FsView { base: s.base, ..s } == s);
    let sb = sb_read(s)->Ok_0;
    fresh_is_described(sb, i);
    assert(FsView { ext: Some(i), ..s } == s);
    journal_mapped(s, m as u32);
    assert(rb_raw(s, m) == read_block(s, m)) by {
        reveal(read_block);
    }
    journal_fields();
    let j = journal_at(m as u32, journal_super());
    assert(j == fresh_journal(m));
    assert(replay(s, j).0 == s && replay(s, j).1 == j);
}

proof fn journal_apart(n: int, b: int)
    requires
        1 <= n <= 1024,
        is_jbd_block(meta_blocks(n) as u32, b),
    ensures
        b > top(fresh_places(n)),
        forall|g: int, j: int|
            0 <= g < n && 0 <= j < 514 ==> b != #[trigger] group_block(fresh_places(n), g, j),
{
    table_end(n);
    assert forall|g: int, j: int| 0 <= g < n && 0 <= j < 514 implies b != #[trigger] group_block(
        fresh_places(n),
        g,
        j,
    ) by {
        place_at(n, g, j);
        if g >= 1 {
            assert(g * 32768 >= 32768);
        }
    }
}

/// Arming the journal of a fresh volume changes nothing that is read.
#[verifier::spinoff_prover]
proof fn armed(s: FsView, t: FsView, n: int)
    requires
        1 <= n <= 1024,
        s.jbd is None,
        space_ok(s, fresh_places(n)),
        journal_made(s, fresh_places(n), meta_blocks(n)),
        t == (FsView { jbd: Some(fresh_journal(meta_blocks(n))), mount: t.mount, ..s }),
    ensures
        space_ok(t, fresh_places(n)),
        forall|b: int| #[trigger] read_block(t, b) == read_block(s, b),
        forall|x: u32| #[trigger] inode_load(t, x) == inode_load(s, x),
        forall|b: int| #[trigger] in_use(t, fresh_places(n), b) == in_use(s, fresh_places(n), b),
        forall|x: int| #[trigger]
            inode_in_use(t, fresh_places(n), x) == inode_in_use(s, fresh_places(n), x),
        forall|b: int|
            !is_jbd_block(meta_blocks(n) as u32, b) ==> #[trigger] is_system(t, fresh_places(n), b)
                == is_system(s, fresh_places(n), b),
{
    let pl = fresh_places(n);
    let m = meta_blocks(n);
    assert forall|b: int| #[trigger] read_block(t, b) == read_block(s, b) by {
        reveal(read_block);
        raw_same(s, t);
    }
    assert forall|x: u32| #[trigger] inode_load(t, x) == inode_load(s, x) by {
        reveal(inode_load);
        reveal(desc_read);
    }
    assert forall|g: int| 0 <= g < pl.len() implies #[trigger] desc_read(t, g) == desc_read(s, g) by {
        reveal(desc_read);
    }
    assert forall|b: int| 0 <= b <= top(pl) implies #[trigger] outside_journal(t, b) by {
        if is_jbd_block(m as u32, b) {
            journal_apart(n, b);
        }
    }
    assert forall|g: int, j: int| 0 <= g < pl.len() && 0 <= j < 514 implies outside_journal(
        t,
        #[trigger] group_block(pl, g, j),
    ) by {
        if is_jbd_block(m as u32, group_block(pl, g, j)) {
            journal_apart(n, group_block(pl, g, j));
        }
    }
    assert forall|b: int| !is_jbd_block(m as u32, b) implies #[trigger] is_system(t, pl, b)
        == is_system(s, pl, b) by {}
    assert forall|b: int| is_system(t, pl, b) && 0 <= b < 32768 * pl.len() implies #[trigger] in_use(
        t,
        pl,
        b,
    ) by {
        if is_jbd_block(m as u32, b) {
            assert(in_use(s, pl, b));
        } else {
            assert(is_system(s, pl, b));
            assert(in_use(s, pl, b));
        }
    }
}

/// The volume that was written is mounted, and its journal armed.
pub proof fn fresh_is_armed(s: FsView, base: u32)
    requires
        mkfs_at(s, base).1 is Ok,
        no_old_record(s, base),
    ensures
        ({
            let t = mkfs_at(s, base).0;
            let m = meta_blocks(fresh_info(s.dev->0)->Ok_0.groups as int);
            &&& t == (FsView {
                jbd: Some(fresh_journal(m)),
                mount: Some(FsKind::Ext4),
                ..volume_written(s, base)
            })
            &&& 0 <= m <= 1000
            &&& rb_raw(t, m) == Some(journal_super())
            &&& journal_at(m as u32, journal_super()) == fresh_journal(m)
        }),
{
    mkfs_parts(s, base);
    let (inos, blks, root) = volume_is_written(s, base);
    let i = fresh_info(s.dev->0)->Ok_0;
    let n = i.groups as int;
    let u = volume_written(s, base);
    mounted_state(u, i, fresh_places(n), meta_blocks(n));
    raw_same(u, mkfs_at(s, base).0);
    reveal(read_block);
    journal_fields();
}

/// The free counts of a volume that was made are right, and no inode names a
/// block twice, if every group has room for its administration.
pub proof fn fresh_volume_is_counted(s: FsView, base: u32)
    requires
        mkfs_at(s, base).1 is Ok,
        no_old_record(s, base),
        groups_whole(fresh_info(s.dev->0)->Ok_0),
    ensures
        counted(mkfs_at(s, base).0),
{
    mkfs_parts(s, base);
    let (inos, blks, root) = volume_is_written(s, base);
    let i = fresh_info(s.dev->0)->Ok_0;
    let n = i.groups as int;
    let u = volume_written(s, base);
    let t = mkfs_at(s, base).0;
    mounted_state(u, i, fresh_places(n), meta_blocks(n));
    armed(u, t, n);
    counted_alike(u, t);
}

/// A volume that was made is sound: the superblock describes it, the journal
/// is armed, its directories are the root and six below it, and the bitmaps
/// agree with them. This does not hold of a disk on which a record of an
/// earlier volume stands in the first slot of the journal, since it is
/// replayed.
pub proof fn fresh_volume_is_sound(s: FsView, base: u32)
    requires
        mkfs_at(s, base).1 is Ok,
        no_old_record(s, base),
    ensures
        ({
            let t = mkfs_at(s, base).0;
            &&& t.mount == Some(FsKind::Ext4)
            &&& t.base == base
            &&& t.ext == Some(fresh_info(s.dev->0)->Ok_0)
            &&& exists|inos: Seq<u32>|
                #![trigger fresh_live(inos)]
                inos.len() == 6 && orderly(t, fresh_live(inos)) && tree_ok(
                    t,
                    fresh_places(t.ext->0.groups as int),
                    fresh_live(inos),
                ) && forall|k: int|
                    0 <= k < 6 ==> lookup_dir(t, 2, #[trigger] seeds()[k]) == Ok::<(u32, u8), FsErr>(
                        (inos[k], 2),
                    )
        }),
{
    mkfs_parts(s, base);
    let (inos, blks, root) = volume_is_written(s, base);
    let i = fresh_info(s.dev->0)->Ok_0;
    let n = i.groups as int;
    let pl = fresh_places(n);
    let m = meta_blocks(n);
    let u = volume_written(s, base);
    let t = mkfs_at(s, base).0;
    mounted_state(u, i, pl, m);
    armed(u, t, n);
    assert(made_dirs(t, pl, m, inos, blks, root)) by {
        assert forall|k: int| 0 <= k < inos.len() implies #[trigger] inos[k] != 0 && inos[k] != 2
            && dir_made(t, pl, inos[k], 2, blks[k], dot_block(inos[k], 2)) by {
            assert(dir_made(u, pl, inos[k], 2, blks[k], dot_block(inos[k], 2)));
            assert(stored(t, inos[k], dir_inode(2, blks[k])) == stored(
                u,
                inos[k],
                dir_inode(2, blks[k]),
            ));
            assert(!(m <= blks[k] < m + 1024));
            assert(!is_jbd_block(m as u32, blks[k] as int));
        }
        assert(stored(t, 2, dir_inode(8, root)) == stored(u, 2, dir_inode(8, root)));
        assert(!is_jbd_block(m as u32, root as int));
    }
    fresh_in_order(t, pl, m, inos, blks, root);
    fresh_tree(t, pl, m, inos, blks, root);
}

} // verus!
