//! What making files and directories promises: the path leads to what was
//! made, and the volume is as sound as it was.

use vstd::prelude::*;
use crate::bytes::{put16, put16_then_read, u16_at, u32_at, zero_bytes};
use crate::ext4::contents::{stored_like, tree_holds};
use crate::ext4::counts::{counted, few_apart, loaded_apart, steady};
use crate::ext4::files::{kept_sound, kept_tree, kept_uses, new_node, tree_stays_ok};
use crate::ext4::inodes::{inode_len, inode_reads_back, maps_kept, stored};
use crate::ext4::making::{
    counted_is_made, dir_made, made, made_both, saved_is_made, taken_is_made, written_is_made,
};
use crate::ext4::model::{
    alloc_block, alloc_inode, block_entries, bump_links, bump_used_dirs, data_from, dir_add,
    dir_entries, dir_inode, dot_block, file_data, find_file, has_other_names, ino_extents, ino_size,
    inode_load, inode_save, is_dot_name, is_reg_mode, lookup_dir, mkdir, new_inode, read_block,
    read_file, target, touch, write_block, write_new_dir, Entry,
};
use crate::ext4::naming::{dir_ready, name_is_entered, named_in};
use crate::ext4::seeds::{dir_fields, dots, small_dir};
use crate::ext4::space::{in_use, inode_in_use, is_system, space_ok, Place};
use crate::ext4::supply::{block_is_taken, inode_is_taken};
use crate::ext4::tree::{
    added, alike, dir_ok, dir_same, entry_ok, is_dir, names_kept, node_kept, target_kept, tree_ok,
    uses, ways_kept,
};
use crate::fs::{FsErr, FsView};

verus! {

/// The inodes of the tree are as they were where what was in use is.
proof fn made_keeps(s: FsView, t: FsView, pl: Seq<Place>, live: Set<u32>, x: u32)
    requires
        tree_ok(s, pl, live),
        made(s, t, pl, 0),
        live.contains(x),
    ensures
        node_kept(s, t, x),
        forall|b: int| #[trigger] uses(t, x, b) == uses(s, x, b),
        forall|b: int| #[trigger] uses(t, x, b) ==> in_use(t, pl, b) && !is_system(t, pl, b),
        is_dir(s, x) ==> dir_ready(t, pl, x),
        dir_entries(t, x) == dir_entries(s, x),
        forall|m: Seq<u8>| #[trigger] lookup_dir(t, x, m) == lookup_dir(s, x, m),
{
    assert(inode_in_use(s, pl, x as int));
    assert(x != 0);
    assert forall|b: int| uses(s, x, b) implies #[trigger] read_block(t, b) == read_block(s, b) by {
        assert(in_use(s, pl, b) && !is_system(s, pl, b));
    }
    dir_same(s, t, x);
    assert forall|b: int| #[trigger] uses(t, x, b) == uses(s, x, b) by {
        kept_uses(s, t, x, b);
    }
    assert forall|b: int| #[trigger] uses(t, x, b) implies in_use(t, pl, b) && !is_system(t, pl, b) by {
        assert(uses(s, x, b));
        assert(in_use(s, pl, b) && !is_system(s, pl, b));
    }
    if is_dir(s, x) {
        assert(dir_ok(s, live, x));
        kept_sound(s, t, x);
    }
}

/// The inodes of the tree but directory `p` are as they were once a name was
/// entered there.
proof fn beside_named(
    s: FsView,
    s1: FsView,
    t: FsView,
    pl: Seq<Place>,
    live: Set<u32>,
    p: u32,
    e: Entry,
    x: u32,
)
    requires
        tree_ok(s, pl, live),
        made(s, s1, pl, 0),
        named_in(s1, t, pl, p, e),
        live.contains(p),
        live.contains(x),
        x != p,
    ensures
        node_kept(s, t, x),
{
    made_keeps(s, s1, pl, live, x);
    made_keeps(s, s1, pl, live, p);
    assert(inode_in_use(s, pl, x as int));
    assert(inode_load(t, x) == inode_load(s1, x));
    assert forall|b: int| uses(s, x, b) implies #[trigger] read_block(t, b) == read_block(s, b) by {
        assert(!uses(s, p, b));
        assert(!uses(s1, p, b));
        assert(uses(s1, x, b));
        assert(read_block(s1, b) == read_block(s, b));
    }
}

/// The volume once a name for a new inode was entered in directory `p`.
#[verifier::spinoff_prover]
proof fn entered_tree(s: FsView, s1: FsView, t: FsView, pl: Seq<Place>, live: Set<u32>, p: u32, e: Entry)
    requires
        tree_ok(s, pl, live),
        live.contains(p),
        is_dir(s, p),
        !inode_in_use(s, pl, e.ino as int),
        made(s, s1, pl, 0),
        inode_in_use(s1, pl, e.ino as int),
        named_in(s1, t, pl, p, e),
        new_node(t, pl, live, e),
        forall|b: int| #[trigger] uses(t, e.ino, b) ==> in_use(s1, pl, b) && !in_use(s, pl, b),
        lookup_dir(s, p, e.name) is Err,
    ensures
        tree_ok(t, pl, live.insert(e.ino)),
        ways_kept(s, t, live),
        added(s, t, live, p, e),
        !live.contains(e.ino),
        lookup_dir(t, p, e.name) == Ok::<(u32, u8), FsErr>((e.ino, e.ftype)),
{
    made_keeps(s, s1, pl, live, p);
    assert(!live.contains(e.ino)) by {
        if live.contains(e.ino) {
            assert(inode_in_use(s, pl, e.ino as int));
        }
    }
    assert forall|x: u32|
        #![trigger live.contains(x)]
        live.contains(x) && x != p implies node_kept(s, t, x) by {
        beside_named(s, s1, t, pl, live, p, e, x);
    }
    assert forall|x: u32| #[trigger] live.contains(x) implies inode_in_use(t, pl, x as int) by {
        assert(inode_in_use(s, pl, x as int));
        assert(inode_in_use(s1, pl, x as int));
    }
    assert forall|b: int| #[trigger] uses(t, p, b) implies uses(s, p, b) || !in_use(s, pl, b) by {
        assert(uses(s1, p, b) == uses(s, p, b));
        if in_use(s, pl, b) {
            assert(in_use(s1, pl, b));
        }
    }
    assert forall|x: u32, b: int|
        live.contains(x) && x != e.ino && #[trigger] uses(t, x, b) implies in_use(t, pl, b) && !uses(
        t,
        e.ino,
        b,
    ) by {
        if x != p {
            kept_uses(s, t, x, b);
            assert(uses(s, x, b));
            assert(in_use(s, pl, b));
            assert(in_use(s1, pl, b));
        } else if uses(t, e.ino, b) {
            assert(uses(s1, p, b) == uses(s, p, b));
            if uses(s, p, b) {
                assert(in_use(s, pl, b));
            }
        }
    }
    tree_stays_ok(s, t, pl, live, p, e);
    assert forall|x: u32, m: Seq<u8>|
        live.contains(x) && lookup_dir(s, x, m) is Ok implies #[trigger] lookup_dir(t, x, m)
        == lookup_dir(s, x, m) by {
        if x == p {
            assert(lookup_dir(s1, p, m) == lookup_dir(s, p, m));
        } else {
            dir_same(s, t, x);
        }
    }
    assert(lookup_dir(s1, p, e.name) == lookup_dir(s, p, e.name));
    assert(added(s, t, live, p, e)) by {
        assert forall|x: u32| #[trigger] live.contains(x) implies is_dir(t, x) == is_dir(s, x) && (
        forall|f: Entry| #[trigger]
            dir_entries(t, x).0.contains(f) ==> dir_entries(s, x).0.contains(f) || (x == p && f == e)) by {
            if x != p {
                dir_same(s, t, x);
                kept_uses(s, t, x, 0);
            }
        }
    }
}

// ---------- empty files ----------

/// The fields of the inode of an empty file.
proof fn empty_fields()
    ensures
        ({
            let raw = new_inode(0x81A4, 1);
            &&& raw.len() == 256
            &&& u16_at(raw, 0) == 0x81A4
            &&& u32_at(raw, 4) == 0
            &&& u32_at(raw, 108) == 0
            &&& u16_at(ino_extents(raw), 0) == 0
        }),
{
    let raw = new_inode(0x81A4, 1);
    let a = put16(zero_bytes(256), 0, 0x81A4);
    put16_then_read(zero_bytes(256), 0, 0x81A4);
    assert(raw.len() == 256);
    assert(raw[0] == a[0] && raw[1] == a[1]);
    assert(raw[4] == 0 && raw[5] == 0 && raw[6] == 0 && raw[7] == 0);
    assert(raw[108] == 0 && raw[109] == 0 && raw[110] == 0 && raw[111] == 0);
    assert(ino_extents(raw)[0] == 0 && ino_extents(raw)[1] == 0);
}

/// The inode that making a file or a directory takes.
pub open spec fn new_ino(s: FsView) -> u32 {
    alloc_inode(s).1->Ok_0
}

/// A new inode that holds an empty file.
#[verifier::spinoff_prover]
proof fn empty_file_made(s: FsView, pl: Seq<Place>)
    requires
        space_ok(s, pl),
        alloc_inode(s).1 is Ok,
        inode_save(alloc_inode(s).0, new_ino(s), new_inode(0x81A4, 1)).1 is Ok,
    ensures
        ({
            let ino = new_ino(s);
            let t = inode_save(alloc_inode(s).0, ino, new_inode(0x81A4, 1)).0;
            &&& made(s, t, pl, 0)
            &&& 1 <= ino <= 8192 * pl.len()
            &&& !inode_in_use(s, pl, ino as int)
            &&& inode_in_use(t, pl, ino as int)
            &&& inode_load(t, ino) == Ok::<Seq<u8>, FsErr>(stored(t, ino, new_inode(0x81A4, 1)))
        }),
{
    inode_is_taken(s, pl);
    let (s1, r1) = alloc_inode(s);
    let ino = r1->Ok_0;
    assert(made(s, s1, pl, 0));
    empty_fields();
    let raw = new_inode(0x81A4, 1);
    few_apart(ino_extents(raw));
    saved_is_made(s1, pl, ino, raw);
    let s2 = inode_save(s1, ino, raw).0;
    made_both(s, s1, s2, pl, 0, ino);
    assert(inode_in_use(s1, pl, ino as int));
    assert(inode_in_use(s2, pl, ino as int));
}

/// What an empty file is.
proof fn empty_file(t: FsView, ino: u32, room: int)
    requires
        inode_load(t, ino) == Ok::<Seq<u8>, FsErr>(stored(t, ino, new_inode(0x81A4, 1))),
        room >= 0,
    ensures
        !is_dir(t, ino),
        forall|b: int| !#[trigger] uses(t, ino, b),
        file_data(t, ino, room) == (Seq::<u8>::empty(), None::<FsErr>),
{
    let raw = new_inode(0x81A4, 1);
    empty_fields();
    stored_like(t, ino, raw);
    let st = stored(t, ino, raw);
    assert forall|b: int| !#[trigger] uses(t, ino, b) by {
        reveal(tree_holds);
    }
    reveal(file_data);
    assert(is_reg_mode(st));
    assert(ino_size(st) == 0);
    assert(data_from(t, ino_extents(st), 0, 0) == (Seq::<u8>::empty(), false));
}

/// Making an empty file: where the path led nowhere it leads to a file without
/// data, and the volume is as sound as it was; where it led somewhere nothing
/// changes.
#[verifier::spinoff_prover]
pub proof fn touched_file_is_there(
    s: FsView,
    pl: Seq<Place>,
    live: Set<u32>,
    path: Seq<char>,
    room: int,
)
    requires
        tree_ok(s, pl, live),
        touch(s, path).1 is Ok,
        room >= 0,
    ensures
        ({
            let t = touch(s, path).0;
            let (p, n) = target(s, path)->Ok_0;
            &&& target(s, path) is Ok
            &&& steady(s, t)
            &&& lookup_dir(s, p, n) is Ok ==> t == s
            &&& lookup_dir(s, p, n) is Err ==> {
                &&& tree_ok(t, pl, live.insert(new_ino(s)))
                &&& ways_kept(s, t, live)
                &&& added(s, t, live, p, Entry { ino: new_ino(s), ftype: 1, name: n })
                &&& !live.contains(new_ino(s))
                &&& !is_dir(t, new_ino(s))
                &&& find_file(t, path) == Ok::<u32, FsErr>(new_ino(s))
                &&& read_file(t, path, room) == (Seq::<u8>::empty(), None::<FsErr>)
            }
        }),
{
    reveal(touch);
    let (p, n) = target(s, path)->Ok_0;
    if lookup_dir(s, p, n) is Err {
        assert(ways_kept(s, s, live));
        target_kept(s, s, pl, live, path);
        assert(n.len() <= 255) by {
            reveal(target);
        }
        empty_file_made(s, pl);
        let ino = new_ino(s);
        let s2 = inode_save(alloc_inode(s).0, ino, new_inode(0x81A4, 1)).0;
        made_keeps(s, s2, pl, live, p);
        let e = Entry { ino, ftype: 1, name: n };
        name_is_entered(s2, pl, p, e);
        let t = dir_add(s2, p, n, ino, 1).0;
        assert(p != ino) by {
            assert(inode_in_use(s, pl, p as int));
        }
        assert(inode_load(t, ino) == inode_load(s2, ino));
        empty_file(t, ino, room);
        entered_tree(s, s2, t, pl, live, p, e);
        target_kept(s, t, pl, live, path);
    }
}

// ---------- counts ----------

/// Where every inode of the tree is as it was, but for counts, names lead
/// where they led and the tree is as sound as it was.
pub proof fn settled(s: FsView, t: FsView, pl: Seq<Place>, live: Set<u32>)
    requires
        tree_ok(s, pl, live),
        space_ok(t, pl),
        steady(s, t),
        maps_kept(s, t, pl),
        forall|x: u32| #[trigger] live.contains(x) ==> node_kept(s, t, x),
    ensures
        tree_ok(t, pl, live),
        names_kept(s, t, live),
{
    kept_tree(s, t, pl, live);
    assert forall|x: u32, m: Seq<u8>| live.contains(x) implies #[trigger] lookup_dir(t, x, m)
        == lookup_dir(s, x, m) by {
        dir_same(s, t, x);
    }
}

/// The count of links is the only field that changes.
proof fn links_alone(raw: Seq<u8>, l: u16)
    requires
        raw.len() == 256,
    ensures
        put16(raw, 26, l).len() == 256,
        alike(raw, put16(raw, 26, l)),
{
    let r = put16(raw, 26, l);
    assert(forall|k: int| 0 <= k < 256 && k != 26 && k != 27 ==> r[k] == raw[k]);
    assert(ino_extents(r) =~= ino_extents(raw));
    assert(u32_at(r, 4) == u32_at(raw, 4) && u32_at(r, 108) == u32_at(raw, 108));
}

/// Counting the links of a directory changes nothing else.
pub proof fn links_counted(s: FsView, pl: Seq<Place>, live: Set<u32>, p: u32, up: bool)
    requires
        tree_ok(s, pl, live),
        live.contains(p),
        bump_links(s, p, up).1 is Ok,
    ensures
        ({
            let t = bump_links(s, p, up).0;
            &&& tree_ok(t, pl, live)
            &&& steady(s, t)
            &&& maps_kept(s, t, pl)
            &&& names_kept(s, t, live)
            &&& forall|x: u32| #[trigger] live.contains(x) ==> node_kept(s, t, x)
        }),
{
    reveal(bump_links);
    assert(inode_in_use(s, pl, p as int));
    let raw = inode_load(s, p)->Ok_0;
    inode_len(s, p);
    let l = u16_at(raw, 26);
    let l2 = if up {
        ((l + 1) % 0x1_0000) as u16
    } else if l == 0 {
        0
    } else {
        (l - 1) as u16
    };
    links_alone(raw, l2);
    let r = put16(raw, 26, l2);
    if counted(s) {
        loaded_apart(s, pl, p);
    }
    inode_reads_back(s, pl, p, r);
    stored_like(s, p, r);
    let t = bump_links(s, p, up).0;
    assert(t == inode_save(s, p, r).0);
    assert forall|x: u32| #[trigger] live.contains(x) implies node_kept(s, t, x) by {
        assert(inode_in_use(s, pl, x as int));
        assert forall|b: int| uses(s, x, b) implies #[trigger] read_block(t, b) == read_block(s, b) by {
            assert(!is_system(s, pl, b));
        }
    }
    settled(s, t, pl, live);
}

/// Counting the directories of a group changes no inode and no block of data.
pub proof fn dirs_counted(s: FsView, pl: Seq<Place>, live: Set<u32>, g: int, delta: int)
    requires
        tree_ok(s, pl, live),
        0 <= g < pl.len(),
        -1 <= delta <= 1,
        bump_used_dirs(s, g, delta).1 is Ok,
    ensures
        ({
            let t = bump_used_dirs(s, g, delta).0;
            &&& tree_ok(t, pl, live)
            &&& steady(s, t)
            &&& maps_kept(s, t, pl)
            &&& names_kept(s, t, live)
            &&& forall|x: u32| #[trigger] live.contains(x) ==> node_kept(s, t, x)
        }),
{
    counted_is_made(s, pl, g, delta);
    let t = bump_used_dirs(s, g, delta).0;
    assert forall|x: u32| #[trigger] live.contains(x) implies node_kept(s, t, x) by {
        assert(inode_in_use(s, pl, x as int));
        assert(inode_load(t, x) == inode_load(s, x));
        assert forall|b: int| uses(s, x, b) implies #[trigger] read_block(t, b) == read_block(s, b) by {
            assert(!is_system(s, pl, b));
        }
    }
    settled(s, t, pl, live);
}

// ---------- directories ----------

/// The block of the directory that is made.
pub open spec fn new_block(s: FsView) -> u32 {
    alloc_block(alloc_inode(s).0).1->Ok_0
}

/// A new inode that holds an empty directory.
#[verifier::spinoff_prover]
proof fn empty_dir_made(s: FsView, pl: Seq<Place>, parent: u32)
    requires
        space_ok(s, pl),
        parent != 0,
        alloc_inode(s).1 is Ok,
        alloc_block(alloc_inode(s).0).1 is Ok,
        write_new_dir(alloc_block(alloc_inode(s).0).0, new_ino(s), new_block(s), parent).1 is Ok,
    ensures
        ({
            let x = new_ino(s);
            let blk = new_block(s);
            let t = write_new_dir(alloc_block(alloc_inode(s).0).0, x, blk, parent).0;
            &&& made(s, t, pl, 0)
            &&& x != 0
            &&& !inode_in_use(s, pl, x as int)
            &&& !in_use(s, pl, blk as int)
            &&& dir_made(t, pl, x, 2, blk, dot_block(x, parent))
        }),
{
    reveal(write_new_dir);
    inode_is_taken(s, pl);
    let (s1, r1) = alloc_inode(s);
    let x = r1->Ok_0;
    assert(made(s, s1, pl, 0));
    taken_is_made(s1, pl);
    block_is_taken(s1, pl);
    let (s2, r2) = alloc_block(s1);
    let blk = r2->Ok_0;
    assert(in_use(s1, pl, blk as int) == in_use(s, pl, blk as int));
    dots(x, parent);
    let b = dot_block(x, parent);
    written_is_made(s1, s2, pl, blk as int, b);
    let s3 = write_block(s2, blk as int, b).0;
    made_both(s, s1, s3, pl, 0, 0);
    assert(in_use(s2, pl, blk as int));
    assert(in_use(s3, pl, blk as int));
    assert(!is_system(s3, pl, blk as int));
    dir_fields(2, blk);
    let raw = dir_inode(2, blk);
    saved_is_made(s3, pl, x, raw);
    let s4 = inode_save(s3, x, raw).0;
    made_both(s, s3, s4, pl, 0, x);
    assert(in_use(s4, pl, blk as int) && !is_system(s4, pl, blk as int));
    assert(read_block(s4, blk as int) == read_block(s3, blk as int));
    assert(inode_in_use(s1, pl, x as int));
    assert(inode_in_use(s2, pl, x as int));
    assert(inode_in_use(s3, pl, x as int));
    assert(inode_in_use(s4, pl, x as int));
}

/// What an empty directory is.
/// The directory names nothing but itself and `parent`.
pub open spec fn only_dots(t: FsView, x: u32, parent: u32) -> bool {
    forall|f: Entry| #[trigger]
        dir_entries(t, x).0.contains(f) ==> f.ftype == 2 && is_dot_name(f.name) && (f.name == seq![
            46u8,
        ] ==> f.ino == x) && (f.name == seq![46u8, 46u8] ==> f.ino == parent)
}

proof fn empty_dir(t: FsView, pl: Seq<Place>, all: Set<u32>, x: u32, blk: u32, parent: u32)
    requires
        dir_made(t, pl, x, 2, blk, dot_block(x, parent)),
        x != 0,
        parent != 0,
        all.contains(x),
        all.contains(parent),
        is_dir(t, parent),
    ensures
        is_dir(t, x),
        dir_ok(t, all, x),
        forall|b: int| #[trigger] uses(t, x, b) == (b == blk),
        !has_other_names(dir_entries(t, x).0),
        only_dots(t, x, parent),
{
    dots(x, parent);
    let b = dot_block(x, parent);
    small_dir(t, x, 2, blk, b);
    assert forall|c: int| #[trigger] uses(t, x, c) == (c == blk) by {
        assert(tree_holds(t, ino_extents(inode_load(t, x)->Ok_0), c) == (c == blk));
    }
    assert forall|j: int| 0 <= j < dir_entries(t, x).0.len() implies entry_ok(
        t,
        all,
        #[trigger] dir_entries(t, x).0[j],
    ) && is_dot_name(dir_entries(t, x).0[j].name) by {
        let f = dir_entries(t, x).0[j];
        assert(block_entries(b, 0).0[j] == f);
        assert(block_entries(b, 0).0.contains(f));
    }
}

/// The steps of making a directory up to its entry.
#[verifier::spinoff_prover]
proof fn dir_entered(s: FsView, s1: FsView, pl: Seq<Place>, live: Set<u32>, p: u32, n: Seq<u8>, x: u32, blk: u32)
    requires
        tree_ok(s, pl, live),
        live.contains(p),
        is_dir(s, p),
        n.len() <= 255,
        lookup_dir(s, p, n) is Err,
        made(s, s1, pl, 0),
        x != 0,
        !inode_in_use(s, pl, x as int),
        !in_use(s, pl, blk as int),
        dir_made(s1, pl, x, 2, blk, dot_block(x, p)),
        dir_add(s1, p, n, x, 2).1 is Ok,
    ensures
        ({
            let t = dir_add(s1, p, n, x, 2).0;
            &&& tree_ok(t, pl, live.insert(x))
            &&& steady(s, t)
            &&& ways_kept(s, t, live)
            &&& lookup_dir(t, p, n) == Ok::<(u32, u8), FsErr>((x, 2))
            &&& !has_other_names(dir_entries(t, x).0)
            &&& added(s, t, live, p, Entry { ino: x, ftype: 2, name: n })
            &&& !live.contains(x)
            &&& only_dots(t, x, p)
        }),
{
    let e = Entry { ino: x, ftype: 2, name: n };
    made_keeps(s, s1, pl, live, p);
    name_is_entered(s1, pl, p, e);
    let t = dir_add(s1, p, n, x, 2).0;
    assert(inode_in_use(s, pl, p as int));
    assert(p != 0 && p != x);
    assert(!uses(s1, p, blk as int)) by {
        if uses(s1, p, blk as int) {
            assert(uses(s, p, blk as int));
        }
    }
    assert(inode_load(t, x) == inode_load(s1, x));
    assert(stored(t, x, dir_inode(2, blk)) == stored(s1, x, dir_inode(2, blk)));
    assert(inode_in_use(t, pl, x as int));
    assert(in_use(t, pl, blk as int));
    assert(!is_system(t, pl, blk as int));
    assert(read_block(t, blk as int) == read_block(s1, blk as int));
    assert(dir_made(t, pl, x, 2, blk, dot_block(x, p)));
    empty_dir(t, pl, live.insert(x), x, blk, p);
    assert(new_node(t, pl, live, e));
    entered_tree(s, s1, t, pl, live, p, e);
}

/// The parts of making a directory.
proof fn mkdir_parts(s: FsView, path: Seq<char>)
    requires
        mkdir(s, path).1 is Ok,
    ensures
        target(s, path) is Ok,
        ({
            let (p, n) = target(s, path)->Ok_0;
            let s2 = alloc_block(alloc_inode(s).0).0;
            let w = write_new_dir(s2, new_ino(s), new_block(s), p);
            let a = dir_add(w.0, p, n, new_ino(s), 2);
            let l = bump_links(a.0, p, true);
            let c = bump_used_dirs(l.0, (new_ino(s) - 1) / 8192, 1);
            &&& lookup_dir(s, p, n) is Err
            &&& alloc_inode(s).1 is Ok
            &&& alloc_block(alloc_inode(s).0).1 is Ok
            &&& w.1 is Ok && a.1 is Ok && l.1 is Ok && c.1 is Ok
            &&& mkdir(s, path).0 == c.0
        }),
{
    reveal(mkdir);
}

/// The counts that follow the entry of a directory.
proof fn counts_follow(s: FsView, pl: Seq<Place>, all: Set<u32>, p: u32, x: u32)
    requires
        tree_ok(s, pl, all),
        all.contains(p),
        all.contains(x),
        bump_links(s, p, true).1 is Ok,
        bump_used_dirs(bump_links(s, p, true).0, (x - 1) / 8192, 1).1 is Ok,
    ensures
        ({
            let t = bump_used_dirs(bump_links(s, p, true).0, (x - 1) / 8192, 1).0;
            &&& tree_ok(t, pl, all)
            &&& steady(s, t)
            &&& names_kept(s, t, all)
            &&& dir_entries(t, x) == dir_entries(s, x)
            &&& forall|y: u32| #[trigger]
                all.contains(y) ==> dir_entries(t, y) == dir_entries(s, y) && is_dir(t, y) == is_dir(s, y)
        }),
{
    links_counted(s, pl, all, p, true);
    let s1 = bump_links(s, p, true).0;
    assert(inode_in_use(s, pl, x as int));
    dirs_counted(s1, pl, all, (x - 1) / 8192, 1);
    let t = bump_used_dirs(s1, (x - 1) / 8192, 1).0;
    assert forall|y: u32, m: Seq<u8>| all.contains(y) implies #[trigger] lookup_dir(t, y, m)
        == lookup_dir(s, y, m) by {
        assert(lookup_dir(s1, y, m) == lookup_dir(s, y, m));
    }
    assert forall|y: u32| #[trigger] all.contains(y) implies dir_entries(t, y) == dir_entries(s, y)
        && is_dir(t, y) == is_dir(s, y) by {
        dir_same(s, s1, y);
        dir_same(s1, t, y);
        kept_uses(s, s1, y, 0);
        kept_uses(s1, t, y, 0);
    }
}

/// Making a directory: the path leads to a directory that names nothing but
/// itself and its parent, and the volume is as sound as it was.
#[verifier::spinoff_prover]
#[verifier::rlimit(80)]
pub proof fn made_directory_is_there(s: FsView, pl: Seq<Place>, live: Set<u32>, path: Seq<char>)
    requires
        tree_ok(s, pl, live),
        mkdir(s, path).1 is Ok,
    ensures
        ({
            let t = mkdir(s, path).0;
            let x = new_ino(s);
            let (p, n) = target(s, path)->Ok_0;
            &&& tree_ok(t, pl, live.insert(x))
            &&& steady(s, t)
            &&& target(t, path) == target(s, path)
            &&& lookup_dir(s, p, n) is Err
            &&& lookup_dir(t, p, n) == Ok::<(u32, u8), FsErr>((x, 2))
            &&& !has_other_names(dir_entries(t, x).0)
            &&& ways_kept(s, t, live)
            &&& added(s, t, live, p, Entry { ino: x, ftype: 2, name: n })
            &&& !live.contains(x)
            &&& only_dots(t, x, p)
        }),
{
    mkdir_parts(s, path);
    let (p, n) = target(s, path)->Ok_0;
    assert(ways_kept(s, s, live));
    target_kept(s, s, pl, live, path);
    assert(n.len() <= 255) by {
        reveal(target);
    }
    assert(inode_in_use(s, pl, p as int));
    let x = new_ino(s);
    let blk = new_block(s);
    let all = live.insert(x);
    empty_dir_made(s, pl, p);
    let s3 = write_new_dir(alloc_block(alloc_inode(s).0).0, x, blk, p).0;
    dir_entered(s, s3, pl, live, p, n, x, blk);
    let s4 = dir_add(s3, p, n, x, 2).0;
    counts_follow(s4, pl, all, p, x);
    let t = mkdir(s, path).0;
    assert forall|y: u32, m: Seq<u8>|
        live.contains(y) && lookup_dir(s, y, m) is Ok implies #[trigger] lookup_dir(t, y, m)
        == lookup_dir(s, y, m) by {
        assert(lookup_dir(s4, y, m) == lookup_dir(s, y, m));
        assert(all.contains(y));
    }
    assert(added(s, t, live, p, Entry { ino: x, ftype: 2, name: n })) by {
        assert forall|y: u32| #[trigger] live.contains(y) implies is_dir(t, y) == is_dir(s, y) && (
        forall|f: Entry| #[trigger]
            dir_entries(t, y).0.contains(f) ==> dir_entries(s, y).0.contains(f) || (y == p && f
                == Entry { ino: x, ftype: 2, name: n })) by {
            assert(all.contains(y));
            assert(is_dir(s4, y) == is_dir(s, y));
        }
    }
    target_kept(s, t, pl, live, path);
    assert(all.contains(p));
    assert(lookup_dir(t, p, n) == lookup_dir(s4, p, n));
}

} // verus!
