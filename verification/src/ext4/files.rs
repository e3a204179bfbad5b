//! What the file commands promise: a file that was written is read back, and
//! the blocks that a file gives up are free.

use vstd::prelude::*;
use crate::bytes::{head, u16_at};
use crate::ext4::contents::{
    data_same, filled_file_reads_back, fresh_file, is_node, leaf_is_tree, node_is_held, others_stay,
    tree_holds, tree_same,
};
use crate::ext4::counts::{counted, counts_stay, loaded_apart, runs_apart, stays_apart, steady};
use crate::ext4::entries::only_added;
use crate::ext4::inodes::{inode_len, load_is_checked, maps_kept, maps_stay};
use crate::ext4::laws::{commit_keeps_blocks, outside_journal, same_volume};
use crate::ext4::model::{
    alloc_inode, desc_block_of, desc_read, dir_add, dir_entries, extent_len, extent_start,
    file_data, fill_file, find_file, free_block, free_entries, free_extents, free_run, ino_extents,
    ino_size, inode_load, jbd_commit, lookup_dir, min_int, new_inode, read_block, read_file, target,
    write_file, Entry,
};
use crate::ext4::naming::{dir_ready, name_is_entered, named_in};
use crate::ext4::runs::{leaf_holds, run_count, run_holds};
use crate::ext4::space::{
    group_block, in_use, inode_in_use, is_system, laid_out, others_kept, space_ok, top, Place,
};
use crate::ext4::supply::{block_is_freed, contents_kept, inode_is_taken};
use crate::ext4::tree::{
    added, blocks_same, blocks_sound, dir_ok, dir_same, entry_ok, found_lives, is_dir, node_kept,
    target_kept, target_same, tree_ok, uses, ways_kept,
};
use crate::fs::{FsErr, FsView};

verus! {

// ---------- giving blocks back ----------

/// Blocks may have been given back; nothing else has changed.
pub open spec fn shrunk(s: FsView, t: FsView, pl: Seq<Place>) -> bool {
    &&& space_ok(t, pl)
    &&& same_volume(s, t)
    &&& contents_kept(s, t, pl)
    &&& forall|x: int| #[trigger] inode_in_use(t, pl, x) == inode_in_use(s, pl, x)
}

proof fn shrunk_twice(s: FsView, t: FsView, u: FsView, pl: Seq<Place>)
    requires
        shrunk(s, t, pl),
        shrunk(t, u, pl),
    ensures
        shrunk(s, u, pl),
{
    assert forall|b: int| !is_system(s, pl, b) implies #[trigger] read_block(u, b) == read_block(
        s,
        b,
    ) by {
        assert(!is_system(t, pl, b));
        assert(read_block(t, b) == read_block(s, b));
    }
    assert forall|x: u32| 1 <= x <= 8192 * pl.len() implies #[trigger] inode_load(u, x) == inode_load(
        s,
        x,
    ) by {
        assert(inode_load(t, x) == inode_load(s, x));
    }
    assert forall|x: int| #[trigger] inode_in_use(u, pl, x) == inode_in_use(s, pl, x) by {
        assert(inode_in_use(t, pl, x) == inode_in_use(s, pl, x));
    }
}

/// A block for data.
pub open spec fn for_data(s: FsView, pl: Seq<Place>, b: int) -> bool {
    b < 32768 * pl.len() && !is_system(s, pl, b)
}

proof fn run_freed(s: FsView, pl: Seq<Place>, from: int, k: int, n: int)
    requires
        space_ok(s, pl),
        0 <= from,
        0 <= k,
        forall|b: int| from + k <= b < from + n ==> #[trigger] for_data(s, pl, b),
        free_run(s, from, k, n).1 is Ok,
    ensures
        ({
            let t = free_run(s, from, k, n).0;
            &&& shrunk(s, t, pl)
            &&& counted(s) && (forall|b: int|
                from + k <= b < from + n ==> #[trigger] in_use(s, pl, b)) ==> counted(t)
            &&& forall|b: int| #[trigger]
                in_use(t, pl, b) == (in_use(s, pl, b) && !(from + k <= b < from + n))
        }),
    decreases n - k,
{
    if k < n {
        let blk = (from + k) as u32;
        assert(for_data(s, pl, from + k));
        block_is_freed(s, pl, blk);
        let s1 = free_block(s, blk).0;
        assert forall|b: int| from + (k + 1) <= b < from + n implies #[trigger] for_data(s1, pl, b) by {
            assert(for_data(s, pl, b));
        }
        run_freed(s1, pl, from, k + 1, n);
        let t = free_run(s, from, k, n).0;
        if counted(s) && (forall|b: int| from + k <= b < from + n ==> #[trigger] in_use(s, pl, b)) {
            assert(in_use(s, pl, from + k));
            assert forall|b: int| from + (k + 1) <= b < from + n implies #[trigger] in_use(s1, pl, b) by {
                assert(in_use(s, pl, b));
            }
            assert(counted(t));
        }
        shrunk_twice(s, s1, t, pl);
        assert forall|b: int| #[trigger]
            in_use(t, pl, b) == (in_use(s, pl, b) && !(from + k <= b < from + n)) by {
            assert(in_use(s1, pl, b) == (b != blk && in_use(s, pl, b)));
        }
    }
}

/// The block lies in one of the extents from the `e`-th on.
spec fn held_from(ib: Seq<u8>, e: int, b: int) -> bool {
    exists|k: int|
        e <= k < run_count(ib) && 24 + 12 * k <= ib.len() && #[trigger] run_holds(ib, k, b)
}

proof fn runs_freed(s: FsView, pl: Seq<Place>, ib: Seq<u8>, e: int)
    requires
        space_ok(s, pl),
        ib.len() == 60,
        0 <= e,
        forall|b: int| #[trigger]
            held_from(ib, e, b) ==> for_data(s, pl, b),
        free_entries(s, ib, e).1 is Ok,
    ensures
        ({
            let t = free_entries(s, ib, e).0;
            &&& shrunk(s, t, pl)
            &&& counted(s) && runs_apart(ib) && u16_at(ib, 0) == 0xF30A && u16_at(ib, 6) == 0 && (
            forall|b: int| #[trigger] held_from(ib, e, b) ==> in_use(s, pl, b)) ==> counted(t)
            &&& forall|b: int| #[trigger]
                in_use(t, pl, b) == (in_use(s, pl, b) && !held_from(ib, e, b))
        }),
    decreases run_count(ib) - e,
{
    reveal(runs_apart);
    let t = free_entries(s, ib, e).0;
    if e < run_count(ib) {
        let o = 12 + 12 * e;
        let from = extent_start(ib, o) as int;
        let n = extent_len(ib, o);
        assert forall|b: int| from <= b < from + n implies #[trigger] for_data(s, pl, b) by {
            assert(run_holds(ib, e, b));
            assert(held_from(ib, e, b));
        }
        run_freed(s, pl, from, 0, n);
        let s1 = free_run(s, from, 0, n).0;
        assert forall|b: int| #[trigger] held_from(ib, e + 1, b) implies for_data(s1, pl, b) by {
            assert(held_from(ib, e, b));
        }
        runs_freed(s1, pl, ib, e + 1);
        shrunk_twice(s, s1, t, pl);
        if counted(s) && runs_apart(ib) && u16_at(ib, 0) == 0xF30A && u16_at(ib, 6) == 0 && (
        forall|b: int| #[trigger] held_from(ib, e, b) ==> in_use(s, pl, b)) {
            assert forall|b: int| from <= b < from + n implies #[trigger] in_use(s, pl, b) by {
                assert(run_holds(ib, e, b));
                assert(held_from(ib, e, b));
            }
            assert forall|b: int| #[trigger] held_from(ib, e + 1, b) implies in_use(s1, pl, b) by {
                let k = choose|k: int|
                    e + 1 <= k < run_count(ib) && 24 + 12 * k <= ib.len() && #[trigger] run_holds(
                        ib,
                        k,
                        b,
                    );
                assert(held_from(ib, e, b));
                assert(!run_holds(ib, e, b));
            }
            assert(counted(t));
        }
        assert forall|b: int| #[trigger]
            in_use(t, pl, b) == (in_use(s, pl, b) && !held_from(ib, e, b)) by {
            assert(in_use(s1, pl, b) == (in_use(s, pl, b) && !(from <= b < from + n)));
            assert(run_holds(ib, e, b) == (from <= b < from + n));
            if held_from(ib, e, b) && !run_holds(ib, e, b) {
                let k = choose|k: int|
                    e <= k < run_count(ib) && 24 + 12 * k <= ib.len() && #[trigger] run_holds(ib, k, b);
                assert(e + 1 <= k);
                assert(held_from(ib, e + 1, b));
            }
        }
    } else {
        assert forall|b: int| #[trigger]
            in_use(t, pl, b) == (in_use(s, pl, b) && !held_from(ib, e, b)) by {
            assert(!held_from(ib, e, b));
        }
    }
}

/// Giving up the extents of an inode frees its blocks, and those alone.
pub proof fn extents_are_freed(s: FsView, pl: Seq<Place>, raw: Seq<u8>)
    requires
        space_ok(s, pl),
        raw.len() == 256,
        forall|b: int| #[trigger]
            tree_holds(s, ino_extents(raw), b) ==> in_use(s, pl, b) && !is_system(s, pl, b),
        counted(s) ==> runs_apart(ino_extents(raw)),
        free_extents(s, raw).1 is Ok,
    ensures
        ({
            let t = free_extents(s, raw).0;
            &&& shrunk(s, t, pl)
            &&& steady(s, t)
            &&& forall|b: int| #[trigger]
                in_use(t, pl, b) == (in_use(s, pl, b) && !tree_holds(s, ino_extents(raw), b))
        }),
{
    reveal(free_extents);
    let ib = ino_extents(raw);
    let t = free_extents(s, raw).0;
    if u16_at(ib, 0) != 0xF30A {
        assert forall|b: int| !tree_holds(s, ib, b) by {
            reveal(tree_holds);
        }
    } else {
        assert forall|b: int| #[trigger] held_from(ib, 0, b) implies for_data(s, pl, b) by {
            leaf_is_tree(s, ib, b);
            assert(leaf_holds(ib, b));
            assert(tree_holds(s, ib, b));
        }
        assert forall|b: int| #[trigger] held_from(ib, 0, b) implies in_use(s, pl, b) by {
            leaf_is_tree(s, ib, b);
            assert(leaf_holds(ib, b));
        }
        runs_freed(s, pl, ib, 0);
        assert forall|b: int| #[trigger]
            in_use(t, pl, b) == (in_use(s, pl, b) && !tree_holds(s, ib, b)) by {
            leaf_is_tree(s, ib, b);
            assert(leaf_holds(ib, b) == held_from(ib, 0, b));
        }
    }
}

// ---------- the tree afterwards ----------

/// The inode that entry `e` names: a file or a directory.
pub open spec fn new_node(t: FsView, pl: Seq<Place>, live: Set<u32>, e: Entry) -> bool {
    &&& inode_load(t, e.ino) is Ok
    &&& forall|b: int| #[trigger] uses(t, e.ino, b) ==> in_use(t, pl, b) && !is_system(t, pl, b)
    &&& e.ftype == 1 || e.ftype == 2
    &&& e.ftype == 1 ==> !is_dir(t, e.ino)
    &&& e.ftype == 2 ==> is_dir(t, e.ino) && dir_ok(t, live.insert(e.ino), e.ino)
}

/// What is known of a volume behind the making or the writing of what `e`
/// names in directory `p`.
pub open spec fn rewritten(
    s: FsView,
    t: FsView,
    pl: Seq<Place>,
    live: Set<u32>,
    p: u32,
    e: Entry,
) -> bool {
    &&& tree_ok(s, pl, live)
    &&& space_ok(t, pl)
    &&& steady(s, t)
    &&& live.contains(p)
    &&& is_dir(s, p)
    &&& p != e.ino
    &&& live.contains(e.ino) ==> !is_dir(s, e.ino) && e.ftype == 1
    &&& new_node(t, pl, live, e)
    &&& inode_in_use(t, pl, e.ino as int)
    &&& forall|x: u32| #[trigger] live.contains(x) ==> inode_in_use(t, pl, x as int)
    &&& forall|x: u32|
        #![trigger live.contains(x)]
        live.contains(x) && x != e.ino && x != p ==> node_kept(s, t, x)
    &&& forall|x: u32, b: int|
        live.contains(x) && x != e.ino && #[trigger] uses(t, x, b) ==> in_use(t, pl, b) && !uses(
            t,
            e.ino,
            b,
        )
    &&& dir_ready(t, pl, p)
    &&& forall|b: int| #[trigger] uses(t, p, b) ==> uses(s, p, b) || !in_use(s, pl, b)
    &&& only_added(dir_entries(s, p).0, dir_entries(t, p).0, e)
}

/// What an inode that is as it was uses.
pub proof fn kept_uses(s: FsView, t: FsView, x: u32, b: int)
    requires
        node_kept(s, t, x),
    ensures
        uses(t, x, b) == uses(s, x, b),
        is_dir(t, x) == is_dir(s, x),
{
    if inode_load(s, x) is Ok {
        let ib = ino_extents(inode_load(s, x)->Ok_0);
        assert forall|c: int| is_node(s, ib, c) implies #[trigger] read_block(t, c) == read_block(s, c) by {
            node_is_held(s, ib, c);
            assert(uses(s, x, c));
        }
        tree_same(s, t, ib, b);
    }
}

/// A directory that is as it was is as sound as it was.
pub proof fn kept_sound(s: FsView, t: FsView, x: u32)
    requires
        node_kept(s, t, x),
        is_dir(s, x),
        ({
            let raw = inode_load(s, x)->Ok_0;
            blocks_sound(s, ino_extents(raw), 0, ino_size(raw) as int)
        }),
    ensures
        ({
            let raw = inode_load(t, x)->Ok_0;
            blocks_sound(t, ino_extents(raw), 0, ino_size(raw) as int)
        }),
{
    let raw = inode_load(s, x)->Ok_0;
    let ib = ino_extents(raw);
    assert forall|b: int| tree_holds(s, ib, b) implies #[trigger] read_block(t, b) == read_block(s, b) by {
        assert(uses(s, x, b));
    }
    blocks_same(s, t, ib, 0, ino_size(raw) as int);
}

/// The inodes of the tree are the directories that they were.
proof fn kinds_stay(
    s: FsView,
    t: FsView,
    pl: Seq<Place>,
    live: Set<u32>,
    p: u32,
    e: Entry,
    x: u32,
)
    requires
        rewritten(s, t, pl, live, p, e),
        live.contains(x),
        x != e.ino,
    ensures
        is_dir(t, x) == is_dir(s, x),
        inode_load(t, x) is Ok,
{
    if x != p {
        kept_uses(s, t, x, 0);
    }
}

/// The directories of the tree name what belongs to it.
proof fn dirs_stay(
    s: FsView,
    t: FsView,
    pl: Seq<Place>,
    live: Set<u32>,
    p: u32,
    e: Entry,
    x: u32,
)
    requires
        rewritten(s, t, pl, live, p, e),
        live.contains(x) || x == e.ino,
        is_dir(t, x),
    ensures
        dir_ok(t, live.insert(e.ino), x),
{
    if x != e.ino {
        dir_stays(s, t, pl, live, p, e, x);
    }
}

proof fn dir_stays(
    s: FsView,
    t: FsView,
    pl: Seq<Place>,
    live: Set<u32>,
    p: u32,
    e: Entry,
    x: u32,
)
    requires
        rewritten(s, t, pl, live, p, e),
        live.contains(x),
        x != e.ino,
        is_dir(t, x),
    ensures
        dir_ok(t, live.insert(e.ino), x),
{
    let all = live.insert(e.ino);
    kinds_stay(s, t, pl, live, p, e, x);
    assert(dir_ok(s, live, x));
    if x != p {
        dir_same(s, t, x);
        kept_sound(s, t, x);
    }
    assert forall|k: int| 0 <= k < dir_entries(t, x).0.len() implies entry_ok(
        t,
        all,
        #[trigger] dir_entries(t, x).0[k],
    ) by {
        let f = dir_entries(t, x).0[k];
        assert(dir_entries(t, x).0.contains(f));
        if x != p || f != e {
            let es = dir_entries(s, x).0;
            assert(es.contains(f));
            let l = choose|l: int| 0 <= l < es.len() && es[l] == f;
            assert(entry_ok(s, live, dir_entries(s, x).0[l]));
            if f.ino != e.ino {
                kinds_stay(s, t, pl, live, p, e, f.ino);
            }
        }
    }
}

/// No two inodes of the tree share a block.
proof fn blocks_stay_apart(
    s: FsView,
    t: FsView,
    pl: Seq<Place>,
    live: Set<u32>,
    p: u32,
    e: Entry,
    x: u32,
    y: u32,
    b: int,
)
    requires
        rewritten(s, t, pl, live, p, e),
        live.contains(x),
        live.contains(y) || y == e.ino,
        x != y,
        x != e.ino,
        uses(t, x, b),
    ensures
        !uses(t, y, b),
{
    if y != e.ino {
        if x != p {
            kept_uses(s, t, x, b);
            assert(uses(s, x, b));
            assert(in_use(s, pl, b));
            assert(!uses(s, y, b));
        }
        if y != p {
            kept_uses(s, t, y, b);
        }
        if x == p && uses(t, y, b) {
            assert(uses(s, y, b));
            assert(in_use(s, pl, b));
            assert(!uses(s, p, b));
        }
    }
}

/// The volume is sound afterwards.
pub proof fn tree_stays_ok(
    s: FsView,
    t: FsView,
    pl: Seq<Place>,
    live: Set<u32>,
    p: u32,
    e: Entry,
)
    requires
        rewritten(s, t, pl, live, p, e),
    ensures
        tree_ok(t, pl, live.insert(e.ino)),
{
    let all = live.insert(e.ino);
    assert(is_dir(t, 2)) by {
        kinds_stay(s, t, pl, live, p, e, 2);
    }
    assert forall|x: u32| #[trigger] all.contains(x) implies inode_in_use(t, pl, x as int)
        && inode_load(t, x) is Ok by {
        if x != e.ino {
            kinds_stay(s, t, pl, live, p, e, x);
        }
    }
    assert forall|x: u32, b: int| all.contains(x) && #[trigger] uses(t, x, b) implies in_use(t, pl, b)
        && !is_system(t, pl, b) by {
        if x != e.ino && x != p {
            kept_uses(s, t, x, b);
            assert(uses(s, x, b));
            assert(!is_system(s, pl, b));
        }
    }
    assert forall|x: u32, y: u32, b: int|
        all.contains(x) && all.contains(y) && x != y && #[trigger] uses(t, x, b) implies !#[trigger] uses(
        t,
        y,
        b,
    ) by {
        if x != e.ino {
            blocks_stay_apart(s, t, pl, live, p, e, x, y, b);
        } else if uses(t, y, b) {
            blocks_stay_apart(s, t, pl, live, p, e, y, x, b);
        }
    }
    assert forall|x: u32| #[trigger] all.contains(x) && is_dir(t, x) implies dir_ok(t, all, x) by {
        dirs_stay(s, t, pl, live, p, e, x);
    }
}

// ---------- a file that exists is replaced ----------

/// Of the inodes of the tree, all but `ino` are as they were.
proof fn others_kept_through(
    s: FsView,
    s1: FsView,
    t: FsView,
    pl: Seq<Place>,
    live: Set<u32>,
    ino: u32,
    x: u32,
)
    requires
        tree_ok(s, pl, live),
        live.contains(ino),
        live.contains(x),
        x != ino,
        shrunk(s, s1, pl),
        forall|b: int| #[trigger] in_use(s1, pl, b) == (in_use(s, pl, b) && !uses(s, ino, b)),
        others_stay(s1, t, pl, ino),
    ensures
        node_kept(s, t, x),
{
    assert(inode_in_use(s, pl, x as int));
    assert(inode_load(s1, x) == inode_load(s, x));
    assert(inode_load(t, x) == inode_load(s1, x));
    assert forall|b: int| uses(s, x, b) implies #[trigger] read_block(t, b) == read_block(s, b) by {
        assert(!uses(s, ino, b));
        assert(in_use(s, pl, b) && !is_system(s, pl, b));
        assert(in_use(s1, pl, b));
        assert(!is_system(s1, pl, b));
        assert(read_block(s1, b) == read_block(s, b));
    }
}

/// A file that was filled.
proof fn file_is_node(m: FsView, t: FsView, pl: Seq<Place>, live: Set<u32>, e: Entry)
    requires
        fresh_file(m, t, pl, e.ino),
        e.ftype == 1,
    ensures
        new_node(t, pl, live, e),
        forall|b: int| #[trigger] uses(t, e.ino, b) ==> !in_use(m, pl, b),
{
    assert forall|b: int| #[trigger] uses(t, e.ino, b) implies in_use(t, pl, b) && !is_system(t, pl, b)
        && !in_use(m, pl, b) by {
        assert(tree_holds(t, ino_extents(inode_load(t, e.ino)->Ok_0), b));
    }
}

/// What the writing of a file leaves behind.
pub open spec fn outcome(
    s: FsView,
    t: FsView,
    pl: Seq<Place>,
    live: Set<u32>,
    path: Seq<char>,
    data: Seq<u8>,
) -> bool {
    let ino = written_inode(s, path);
    let (p, n) = target(s, path)->Ok_0;
    &&& target(s, path) is Ok
    &&& added(s, t, live, p, Entry { ino, ftype: 1, name: n })
    &&& find_file(s, path) is Ok ==> lookup_dir(s, p, n) == Ok::<(u32, u8), FsErr>((ino, 1))
    &&& find_file(s, path) is Err ==> !live.contains(ino)
    &&& !is_dir(t, ino)
    &&& tree_ok(t, pl, live.insert(ino))
    &&& steady(s, t)
    &&& ways_kept(s, t, live)
    &&& find_file(t, path) == Ok::<u32, FsErr>(ino)
    &&& forall|room: int|
        room >= 0 ==> #[trigger] file_data(t, ino, room) == (head(data, room), None::<FsErr>)
    &&& forall|x: u32|
        #![trigger live.contains(x)]
        live.contains(x) && x != ino && !is_dir(s, x) ==> node_kept(s, t, x)
}

/// The inode that a write of the path goes to: that of the file, or a new one.
pub open spec fn written_inode(s: FsView, path: Seq<char>) -> u32 {
    match find_file(s, path) {
        Ok(ino) => ino,
        Err(_) => alloc_inode(s).1->Ok_0,
    }
}

/// A directory that is as it was can have names entered.
proof fn still_ready(s: FsView, t: FsView, pl: Seq<Place>, live: Set<u32>, p: u32)
    requires
        tree_ok(s, pl, live),
        live.contains(p),
        is_dir(s, p),
        space_ok(t, pl),
        steady(s, t),
        node_kept(s, t, p),
        forall|b: int| uses(s, p, b) ==> #[trigger] in_use(t, pl, b),
    ensures
        dir_ready(t, pl, p),
        dir_entries(t, p) == dir_entries(s, p),
        forall|b: int| #[trigger] uses(t, p, b) ==> uses(s, p, b),
{
    assert(inode_in_use(s, pl, p as int));
    assert(dir_ok(s, live, p));
    dir_same(s, t, p);
    kept_sound(s, t, p);
    kept_uses(s, t, p, 0);
    assert forall|b: int| #[trigger] uses(t, p, b) implies in_use(t, pl, b) && !is_system(t, pl, b)
        && uses(s, p, b) by {
        kept_uses(s, t, p, b);
        assert(uses(s, p, b));
        assert(!is_system(s, pl, b));
        assert(in_use(t, pl, b));
    }
}

/// The file `ino` holds `data` in blocks that it was given; nothing else that
/// was in use has changed.
pub open spec fn refilled(s: FsView, t: FsView, pl: Seq<Place>, ino: u32, data: Seq<u8>) -> bool {
    &&& others_stay(s, t, pl, ino)
    &&& fresh_file(s, t, pl, ino)
    &&& forall|room: int|
        room >= 0 ==> #[trigger] file_data(t, ino, room) == (head(data, room), None::<FsErr>)
}

proof fn filled_is_refilled(s: FsView, pl: Seq<Place>, ino: u32, raw0: Seq<u8>, data: Seq<u8>)
    requires
        space_ok(s, pl),
        1 <= ino <= 8192 * pl.len(),
        raw0.len() == 256,
        fill_file(s, ino, raw0, data).1 is Ok,
    ensures
        refilled(s, fill_file(s, ino, raw0, data).0, pl, ino, data),
{
    filled_file_reads_back(s, pl, ino, raw0, data, 0);
    let t = fill_file(s, ino, raw0, data).0;
    assert forall|room: int| room >= 0 implies #[trigger] file_data(t, ino, room) == (
        head(data, room),
        None::<FsErr>,
    ) by {
        filled_file_reads_back(s, pl, ino, raw0, data, room);
    }
}

/// The state in which an existing file is filled: its blocks were given back.
pub open spec fn given_back(s: FsView, path: Seq<char>) -> (FsView, Result<(), FsErr>) {
    free_extents(s, inode_load(s, find_file(s, path)->Ok_0)->Ok_0)
}

/// The inode of a file of the tree, and what giving back its blocks does.
pub(crate) proof fn old_file(s: FsView, pl: Seq<Place>, live: Set<u32>, path: Seq<char>)
    requires
        tree_ok(s, pl, live),
        find_file(s, path) is Ok,
        given_back(s, path).1 is Ok,
    ensures
        ({
            let ino = find_file(s, path)->Ok_0;
            &&& 1 <= ino <= 8192 * pl.len()
            &&& inode_load(s, ino) is Ok
            &&& inode_load(s, ino)->Ok_0.len() == 256
            &&& space_ok(given_back(s, path).0, pl)
        }),
{
    let (p, n) = target(s, path)->Ok_0;
    let ino = find_file(s, path)->Ok_0;
    assert(ways_kept(s, s, live));
    target_kept(s, s, pl, live, path);
    found_lives(s, pl, live, p, n);
    let raw = inode_load(s, ino)->Ok_0;
    assert(inode_in_use(s, pl, ino as int));
    inode_len(s, ino);
    assert forall|b: int| #[trigger] tree_holds(s, ino_extents(raw), b) implies in_use(s, pl, b)
        && !is_system(s, pl, b) by {
        assert(uses(s, ino, b));
    }
    if counted(s) {
        loaded_apart(s, pl, ino);
    }
    extents_are_freed(s, pl, raw);
}

/// A file has no entries.
pub proof fn no_entries(s: FsView, x: u32)
    requires
        !is_dir(s, x),
    ensures
        dir_entries(s, x).0.len() == 0,
{
    reveal(dir_entries);
}

/// An existing file was given other contents.
#[verifier::spinoff_prover]
pub(crate) proof fn file_replaced(
    s: FsView,
    t: FsView,
    pl: Seq<Place>,
    live: Set<u32>,
    path: Seq<char>,
    data: Seq<u8>,
)
    requires
        tree_ok(s, pl, live),
        find_file(s, path) is Ok,
        given_back(s, path).1 is Ok,
        refilled(given_back(s, path).0, t, pl, find_file(s, path)->Ok_0, data),
    ensures
        outcome(s, t, pl, live, path, data),
{
    let (p, n) = target(s, path)->Ok_0;
    let ino = find_file(s, path)->Ok_0;
    assert(ways_kept(s, s, live));
    target_kept(s, s, pl, live, path);
    found_lives(s, pl, live, p, n);
    let raw = inode_load(s, ino)->Ok_0;
    assert(inode_in_use(s, pl, ino as int));
    inode_len(s, ino);
    assert forall|b: int| #[trigger] tree_holds(s, ino_extents(raw), b) implies in_use(s, pl, b)
        && !is_system(s, pl, b) by {
        assert(uses(s, ino, b));
    }
    if counted(s) {
        loaded_apart(s, pl, ino);
    }
    extents_are_freed(s, pl, raw);
    let s1 = free_extents(s, raw).0;
    assert forall|b: int| #[trigger]
        in_use(s1, pl, b) == (in_use(s, pl, b) && !uses(s, ino, b)) by {
        assert(uses(s, ino, b) == tree_holds(s, ino_extents(raw), b));
    }
    assert forall|x: u32|
        #![trigger live.contains(x)]
        live.contains(x) && x != ino implies node_kept(s, t, x) by {
        others_kept_through(s, s1, t, pl, live, ino, x);
    }
    assert forall|x: u32, m: Seq<u8>|
        live.contains(x) && lookup_dir(s, x, m) is Ok implies #[trigger] lookup_dir(t, x, m)
        == lookup_dir(s, x, m) by {
        found_lives(s, pl, live, x, m);
        assert(x != ino);
        dir_same(s, t, x);
    }
    target_kept(s, t, pl, live, path);
    assert(lookup_dir(t, p, n) == lookup_dir(s, p, n));
    assert forall|x: u32| #[trigger] live.contains(x) implies inode_in_use(t, pl, x as int) by {
        assert(inode_in_use(s, pl, x as int));
        assert(inode_in_use(s1, pl, x as int));
    }
    let e = Entry { ino, ftype: 1, name: n };
    file_is_node(s1, t, pl, live, e);
    assert forall|x: u32, b: int|
        live.contains(x) && x != ino && #[trigger] uses(t, x, b) implies in_use(t, pl, b) && !uses(
        t,
        ino,
        b,
    ) by {
        kept_uses(s, t, x, b);
        assert(uses(s, x, b));
        assert(!uses(s, ino, b));
        assert(in_use(s1, pl, b));
    }
    assert forall|b: int| uses(s, p, b) implies #[trigger] in_use(t, pl, b) by {
        assert(!uses(s, ino, b));
        assert(in_use(s1, pl, b));
    }
    still_ready(s, t, pl, live, p);
    assert(only_added(dir_entries(s, p).0, dir_entries(t, p).0, e));
    tree_stays_ok(s, t, pl, live, p, e);
    assert(added(s, t, live, p, e)) by {
        assert forall|x: u32| #[trigger] live.contains(x) implies is_dir(t, x) == is_dir(s, x) && (
        forall|f: Entry| #[trigger]
            dir_entries(t, x).0.contains(f) ==> dir_entries(s, x).0.contains(f) || (x == p && f == e)) by {
            if x != ino {
                dir_same(s, t, x);
                kept_uses(s, t, x, 0);
            } else {
                no_entries(t, ino);
            }
        }
    }
}

// ---------- a file is made ----------

/// Of the inodes of the tree, all but the directory that the file is entered
/// into are as they were.
proof fn kept_beside(
    s: FsView,
    s1: FsView,
    s2: FsView,
    t: FsView,
    pl: Seq<Place>,
    live: Set<u32>,
    p: u32,
    e: Entry,
    x: u32,
)
    requires
        tree_ok(s, pl, live),
        live.contains(p),
        live.contains(x),
        x != p,
        !inode_in_use(s, pl, e.ino as int),
        taken(s, s1, pl),
        named_in(s1, s2, pl, p, e),
        others_stay(s2, t, pl, e.ino),
    ensures
        node_kept(s, t, x),
{
    assert(inode_in_use(s, pl, x as int));
    assert(inode_load(s1, x) == inode_load(s, x));
    assert(inode_load(s2, x) == inode_load(s1, x));
    assert(inode_load(t, x) == inode_load(s2, x));
    assert forall|b: int| uses(s, x, b) implies #[trigger] read_block(t, b) == read_block(s, b) by {
        assert(!uses(s, p, b));
        assert(in_use(s, pl, b) && !is_system(s, pl, b));
        assert(in_use(s1, pl, b));
        assert(!is_system(s1, pl, b));
        assert(read_block(s1, b) == read_block(s, b));
        uses_same(s, s1, pl, live, p, b);
        assert(read_block(s2, b) == read_block(s1, b));
        assert(in_use(s2, pl, b));
        assert(!is_system(s2, pl, b));
    }
}

/// An inode was taken; nothing else has changed.
pub open spec fn taken(s: FsView, t: FsView, pl: Seq<Place>) -> bool {
    &&& space_ok(t, pl)
    &&& steady(s, t)
    &&& contents_kept(s, t, pl)
    &&& forall|b: int| #[trigger] in_use(t, pl, b) == in_use(s, pl, b)
}

/// The inodes of the tree use the blocks that they used.
proof fn uses_same(s: FsView, t: FsView, pl: Seq<Place>, live: Set<u32>, x: u32, b: int)
    requires
        tree_ok(s, pl, live),
        live.contains(x),
        contents_kept(s, t, pl),
    ensures
        uses(t, x, b) == uses(s, x, b),
{
    assert(inode_in_use(s, pl, x as int));
    assert(inode_load(t, x) == inode_load(s, x));
    let ib = ino_extents(inode_load(s, x)->Ok_0);
    assert forall|c: int| is_node(s, ib, c) implies #[trigger] read_block(t, c) == read_block(s, c) by {
        node_is_held(s, ib, c);
        assert(uses(s, x, c));
    }
    tree_same(s, t, ib, b);
}

/// A directory of the tree is one that a name can be entered into.
proof fn ready_in_tree(s: FsView, t: FsView, pl: Seq<Place>, live: Set<u32>, p: u32)
    requires
        tree_ok(s, pl, live),
        live.contains(p),
        is_dir(s, p),
        taken(s, t, pl),
    ensures
        dir_ready(t, pl, p),
        dir_entries(t, p) == dir_entries(s, p),
        forall|m: Seq<u8>| #[trigger] lookup_dir(t, p, m) == lookup_dir(s, p, m),
{
    assert(inode_in_use(s, pl, p as int));
    assert(inode_load(t, p) == inode_load(s, p));
    let raw = inode_load(s, p)->Ok_0;
    let ib = ino_extents(raw);
    assert(dir_ok(s, live, p));
    assert forall|b: int| uses(s, p, b) implies #[trigger] read_block(t, b) == read_block(s, b) by {}
    dir_same(s, t, p);
    assert forall|b: int| tree_holds(s, ib, b) implies #[trigger] read_block(t, b) == read_block(s, b) by {
        assert(uses(s, p, b));
    }
    blocks_same(s, t, ib, 0, ino_size(raw) as int);
    assert forall|b: int| #[trigger] uses(t, p, b) implies in_use(t, pl, b) && !is_system(t, pl, b) by {
        uses_same(s, t, pl, live, p, b);
        assert(uses(s, p, b));
    }
}

/// The state in which a new file is filled: it has an inode and a name.
pub open spec fn given_name(s: FsView, path: Seq<char>) -> (FsView, Result<(), FsErr>) {
    let (p, n) = target(s, path)->Ok_0;
    let (s1, r1) = alloc_inode(s);
    dir_add(s1, p, n, r1->Ok_0, 1)
}

/// The inode of a new file, and what giving it a name does.
pub(crate) proof fn new_file(s: FsView, pl: Seq<Place>, live: Set<u32>, path: Seq<char>)
    requires
        tree_ok(s, pl, live),
        target(s, path) is Ok,
        alloc_inode(s).1 is Ok,
        given_name(s, path).1 is Ok,
    ensures
        1 <= alloc_inode(s).1->Ok_0 <= 8192 * pl.len(),
        space_ok(given_name(s, path).0, pl),
{
    let (p, n) = target(s, path)->Ok_0;
    assert(ways_kept(s, s, live));
    target_kept(s, s, pl, live, path);
    assert(n.len() <= 255) by {
        reveal(target);
    }
    inode_is_taken(s, pl);
    let (s1, r1) = alloc_inode(s);
    assert(taken(s, s1, pl));
    ready_in_tree(s, s1, pl, live, p);
    name_is_entered(s1, pl, p, Entry { ino: r1->Ok_0, ftype: 1, name: n });
}

/// A new file was made and given its contents.
#[verifier::spinoff_prover]
pub(crate) proof fn file_made(
    s: FsView,
    t: FsView,
    pl: Seq<Place>,
    live: Set<u32>,
    path: Seq<char>,
    data: Seq<u8>,
)
    requires
        tree_ok(s, pl, live),
        target(s, path) is Ok,
        lookup_dir(s, (target(s, path)->Ok_0).0, (target(s, path)->Ok_0).1) is Err,
        alloc_inode(s).1 is Ok,
        given_name(s, path).1 is Ok,
        refilled(given_name(s, path).0, t, pl, alloc_inode(s).1->Ok_0, data),
    ensures
        outcome(s, t, pl, live, path, data),
{
    let (p, n) = target(s, path)->Ok_0;
    assert(ways_kept(s, s, live));
    target_kept(s, s, pl, live, path);
    assert(n.len() <= 255) by {
        reveal(target);
    }
    assert(lookup_dir(s, p, n) is Err);
    inode_is_taken(s, pl);
    let (s1, r1) = alloc_inode(s);
    let ino = r1->Ok_0;
    assert(taken(s, s1, pl));
    ready_in_tree(s, s1, pl, live, p);
    let e = Entry { ino, ftype: 1, name: n };
    name_is_entered(s1, pl, p, e);
    let s2 = dir_add(s1, p, n, ino, 1).0;
    assert(inode_in_use(s, pl, p as int));
    assert(!live.contains(ino)) by {
        if live.contains(ino) {
            assert(inode_in_use(s, pl, ino as int));
        }
    }
    assert(inode_load(t, p) == inode_load(s2, p));
    assert(node_kept(s2, t, p));
    dir_same(s2, t, p);
    assert forall|x: u32|
        #![trigger live.contains(x)]
        live.contains(x) && x != p implies node_kept(s, t, x) by {
        kept_beside(s, s1, s2, t, pl, live, p, e, x);
    }
    assert forall|x: u32, m: Seq<u8>|
        live.contains(x) && lookup_dir(s, x, m) is Ok implies #[trigger] lookup_dir(t, x, m)
        == lookup_dir(s, x, m) by {
        if x == p {
            assert(m != n);
            assert(lookup_dir(s1, p, m) == lookup_dir(s, p, m));
            assert(lookup_dir(s2, p, m) == lookup_dir(s1, p, m));
        } else {
            dir_same(s, t, x);
        }
    }
    target_kept(s, t, pl, live, path);
    assert(lookup_dir(s1, p, n) == lookup_dir(s, p, n));
    assert(lookup_dir(t, p, n) == lookup_dir(s2, p, n));
    made_tree(s, s1, s2, t, pl, live, p, e);
    assert(added(s, t, live, p, e)) by {
        assert forall|x: u32| #[trigger] live.contains(x) implies is_dir(t, x) == is_dir(s, x) && (
        forall|f: Entry| #[trigger]
            dir_entries(t, x).0.contains(f) ==> dir_entries(s, x).0.contains(f) || (x == p && f == e)) by {
            if x != p {
                dir_same(s, t, x);
                kept_uses(s, t, x, 0);
            } else {
                kept_uses(s2, t, p, 0);
                assert(inode_load(s1, p) == inode_load(s, p));
            }
        }
    }
}

/// The tree behind the making of a file.
#[verifier::spinoff_prover]
proof fn made_tree(
    s: FsView,
    s1: FsView,
    s2: FsView,
    t: FsView,
    pl: Seq<Place>,
    live: Set<u32>,
    p: u32,
    e: Entry,
)
    requires
        tree_ok(s, pl, live),
        live.contains(p),
        is_dir(s, p),
        !live.contains(e.ino),
        e.ftype == 1,
        taken(s, s1, pl),
        forall|x: int| #[trigger]
            inode_in_use(s1, pl, x) == (x == e.ino || inode_in_use(s, pl, x)),
        dir_entries(s1, p) == dir_entries(s, p),
        named_in(s1, s2, pl, p, e),
        others_stay(s2, t, pl, e.ino),
        fresh_file(s2, t, pl, e.ino),
        node_kept(s2, t, p),
        forall|x: u32|
            #![trigger live.contains(x)]
            live.contains(x) && x != p ==> node_kept(s, t, x),
    ensures
        tree_ok(t, pl, live.insert(e.ino)),
{
    dir_same(s2, t, p);
    kept_sound(s2, t, p);
    assert(inode_in_use(s, pl, p as int));
    assert forall|b: int| #[trigger] uses(t, p, b) implies in_use(t, pl, b) && !is_system(t, pl, b) && (
    uses(s, p, b) || !in_use(s, pl, b)) by {
        kept_uses(s2, t, p, b);
        assert(uses(s2, p, b));
        assert(in_use(s2, pl, b) && !is_system(s2, pl, b));
        uses_same(s, s1, pl, live, p, b);
        assert(in_use(s1, pl, b) == in_use(s, pl, b));
    }
    assert(dir_ready(t, pl, p));
    assert forall|x: u32| #[trigger] live.contains(x) implies inode_in_use(t, pl, x as int) by {
        assert(inode_in_use(s, pl, x as int));
        assert(inode_in_use(s1, pl, x as int));
        assert(inode_in_use(s2, pl, x as int));
    }
    assert(inode_in_use(s1, pl, e.ino as int));
    assert(inode_in_use(s2, pl, e.ino as int));
    file_is_node(s2, t, pl, live, e);
    assert forall|x: u32, b: int|
        live.contains(x) && x != e.ino && #[trigger] uses(t, x, b) implies in_use(t, pl, b) && !uses(
        t,
        e.ino,
        b,
    ) by {
        if x == p {
            kept_uses(s2, t, p, b);
            assert(uses(s2, p, b));
        } else {
            kept_uses(s, t, x, b);
            assert(uses(s, x, b));
            assert(in_use(s, pl, b));
            assert(in_use(s1, pl, b));
        }
        assert(in_use(s2, pl, b));
    }
    tree_stays_ok(s, t, pl, live, p, e);
}

/// What a write that succeeds leads to.
pub proof fn file_written(s: FsView, pl: Seq<Place>, live: Set<u32>, path: Seq<char>, data: Seq<u8>)
    requires
        tree_ok(s, pl, live),
        write_file(s, path, data).1 is Ok,
    ensures
        outcome(s, write_file(s, path, data).0, pl, live, path, data),
{
    reveal(write_file);
    let t = write_file(s, path, data).0;
    if find_file(s, path) is Ok {
        let ino = find_file(s, path)->Ok_0;
        old_file(s, pl, live, path);
        filled_is_refilled(given_back(s, path).0, pl, ino, inode_load(s, ino)->Ok_0, data);
        file_replaced(s, t, pl, live, path, data);
    } else {
        new_file(s, pl, live, path);
        let raw0 = new_inode(0x81A4, 1);
        assert(raw0.len() == 256);
        filled_is_refilled(given_name(s, path).0, pl, alloc_inode(s).1->Ok_0, raw0, data);
        file_made(s, t, pl, live, path, data);
    }
}

// ---------- laws ----------

/// A file that was written is read back: on a volume whose directories and
/// bitmaps agree, reading the path that was written gives the data, as
/// much of it as there is room for, whether the file was there before or not.
pub proof fn written_file_reads_back(
    s: FsView,
    pl: Seq<Place>,
    live: Set<u32>,
    path: Seq<char>,
    data: Seq<u8>,
    room: int,
)
    requires
        tree_ok(s, pl, live),
        write_file(s, path, data).1 is Ok,
        room >= 0,
    ensures
        read_file(write_file(s, path, data).0, path, room) == (
            head(data, room),
            None::<FsErr>,
        ),
{
    file_written(s, pl, live, path, data);
}

/// Writing a file leaves a volume whose directories and bitmaps agree: no two
/// files share a block, and nothing that is named is free.
pub proof fn writing_keeps_the_tree(
    s: FsView,
    pl: Seq<Place>,
    live: Set<u32>,
    path: Seq<char>,
    data: Seq<u8>,
)
    requires
        tree_ok(s, pl, live),
        write_file(s, path, data).1 is Ok,
    ensures
        tree_ok(write_file(s, path, data).0, pl, live.insert(written_inode(s, path))),
        steady(s, write_file(s, path, data).0),
{
    file_written(s, pl, live, path, data);
}

/// Writing a file leaves every other file as it was.
pub proof fn other_files_stay(
    s: FsView,
    pl: Seq<Place>,
    live: Set<u32>,
    path: Seq<char>,
    data: Seq<u8>,
    other: Seq<char>,
    room: int,
)
    requires
        tree_ok(s, pl, live),
        write_file(s, path, data).1 is Ok,
        find_file(s, other) is Ok,
        find_file(s, other)->Ok_0 != written_inode(s, path),
    ensures
        read_file(write_file(s, path, data).0, other, room) == read_file(s, other, room),
{
    file_written(s, pl, live, path, data);
    let t = write_file(s, path, data).0;
    let (p, n) = target(s, other)->Ok_0;
    let x = find_file(s, other)->Ok_0;
    target_kept(s, t, pl, live, other);
    found_lives(s, pl, live, p, n);
    assert(lookup_dir(t, p, n) == lookup_dir(s, p, n));
    assert(node_kept(s, t, x));
    file_same(s, t, x, room);
}

/// A commit leaves every file and every directory as it was.
pub proof fn commit_keeps_files(s: FsView, pl: Seq<Place>, live: Set<u32>, path: Seq<char>, room: int)
    requires
        tree_ok(s, pl, live),
        jbd_commit(s).1 is Ok,
    ensures
        tree_ok(jbd_commit(s).0, pl, live),
        steady(s, jbd_commit(s).0),
        forall|x: u32| #[trigger] live.contains(x) ==> node_kept(s, jbd_commit(s).0, x),
        read_file(jbd_commit(s).0, path, room) == read_file(s, path, room),
{
    let t = jbd_commit(s).0;
    commit_keeps_blocks(s);
    commit_keeps_space(s, pl);
    assert forall|x: u32| #[trigger] live.contains(x) implies node_kept(s, t, x) by {
        assert(inode_in_use(s, pl, x as int));
        assert(inode_load(t, x) == inode_load(s, x));
        assert forall|b: int| uses(s, x, b) implies #[trigger] read_block(t, b) == read_block(s, b) by {
            assert(!is_system(s, pl, b));
        }
    }
    assert forall|x: u32, m: Seq<u8>| live.contains(x) implies #[trigger] lookup_dir(t, x, m)
        == lookup_dir(s, x, m) by {
        dir_same(s, t, x);
    }
    target_same(s, t, pl, live, path);
    if let Ok((p, n)) = target(s, path) {
        found_lives(s, pl, live, p, n);
        assert(lookup_dir(t, p, n) == lookup_dir(s, p, n));
        if let Ok((x, ft)) = lookup_dir(s, p, n) {
            assert(live.contains(x));
            file_same(s, t, x, room);
        }
    }
    kept_tree(s, t, pl, live);
}

/// A commit leaves the bitmaps and the inodes as they were.
proof fn commit_keeps_space(s: FsView, pl: Seq<Place>)
    requires
        space_ok(s, pl),
        jbd_commit(s).1 is Ok,
    ensures
        space_ok(jbd_commit(s).0, pl),
        contents_kept(s, jbd_commit(s).0, pl),
        maps_kept(s, jbd_commit(s).0, pl),
        steady(s, jbd_commit(s).0),
{
    let t = jbd_commit(s).0;
    commit_keeps_blocks(s);
    assert(others_kept(s, t, -1));
    assert forall|g: int| 0 <= g < pl.len() implies #[trigger] desc_read(t, g) == desc_read(s, g) by {
        assert(outside_journal(s, desc_block_of(g)));
        reveal(desc_read);
    }
    assert forall|b: int| 0 <= b <= top(pl) implies #[trigger] outside_journal(t, b) by {
        assert(outside_journal(s, b));
    }
    assert forall|g: int, j: int| 0 <= g < pl.len() && 0 <= j < 514 implies outside_journal(
        t,
        #[trigger] group_block(pl, g, j),
    ) by {
        assert(outside_journal(s, group_block(pl, g, j)));
    }
    assert(laid_out(t, pl));
    assert forall|g: int| 0 <= g < pl.len() implies -1 != #[trigger] group_block(pl, g, 0) && -1
        != group_block(pl, g, 1) by {}
    maps_stay(s, t, pl, -1);
    assert forall|x: u32| 1 <= x <= 8192 * pl.len() implies #[trigger] inode_load(t, x) == inode_load(
        s,
        x,
    ) by {
        load_is_checked(s, pl, x);
        load_is_checked(t, pl, x);
    }
    assert(outside_journal(s, 0));
    counts_stay(s, t, pl, -1);
    stays_apart(s, t, pl, 0);
}

/// A tree whose inodes are as they were is as sound as it was.
pub proof fn kept_tree(s: FsView, t: FsView, pl: Seq<Place>, live: Set<u32>)
    requires
        tree_ok(s, pl, live),
        space_ok(t, pl),
        steady(s, t),
        maps_kept(s, t, pl),
        forall|x: u32| #[trigger] live.contains(x) ==> node_kept(s, t, x),
    ensures
        tree_ok(t, pl, live),
{
    kept_uses(s, t, 2, 0);
    assert forall|x: u32| #[trigger] live.contains(x) implies inode_in_use(t, pl, x as int)
        && inode_load(t, x) is Ok by {
        assert(inode_in_use(s, pl, x as int));
    }
    assert forall|x: u32, b: int| live.contains(x) && #[trigger] uses(t, x, b) implies in_use(t, pl, b)
        && !is_system(t, pl, b) by {
        kept_uses(s, t, x, b);
        assert(uses(s, x, b));
        assert(in_use(s, pl, b) && !is_system(s, pl, b));
    }
    assert forall|x: u32, y: u32, b: int|
        live.contains(x) && live.contains(y) && x != y && #[trigger] uses(t, x, b) implies !#[trigger] uses(
        t,
        y,
        b,
    ) by {
        kept_uses(s, t, x, b);
        kept_uses(s, t, y, b);
        assert(uses(s, x, b));
        assert(!uses(s, y, b));
    }
    assert forall|x: u32| #[trigger] live.contains(x) && is_dir(t, x) implies dir_ok(t, live, x) by {
        kept_uses(s, t, x, 0);
        assert(dir_ok(s, live, x));
        dir_same(s, t, x);
        kept_sound(s, t, x);
        assert forall|k: int| 0 <= k < dir_entries(t, x).0.len() implies entry_ok(
            t,
            live,
            #[trigger] dir_entries(t, x).0[k],
        ) by {
            let f = dir_entries(s, x).0[k];
            assert(entry_ok(s, live, dir_entries(s, x).0[k]));
            kept_uses(s, t, f.ino, 0);
        }
    }
}

/// A file that is as it was gives what it gave.
pub proof fn file_same(s: FsView, t: FsView, x: u32, room: int)
    requires
        node_kept(s, t, x),
    ensures
        file_data(t, x, room) == file_data(s, x, room),
{
    reveal(file_data);
    if let Ok(raw) = inode_load(s, x) {
        let ib = ino_extents(raw);
        assert forall|b: int| tree_holds(s, ib, b) implies #[trigger] read_block(t, b) == read_block(
            s,
            b,
        ) by {
            assert(uses(s, x, b));
        }
        data_same(s, t, ib, 0, min_int(ino_size(raw) as int, room));
    }
}

} // verus!
