//! The tree of directories: what paths lead to, and what keeps them leading
//! there.

use vstd::prelude::*;
use crate::bytes::u16_at;
use crate::ext4::contents::{file_block_same, is_node, node_is_held, nodes_same, tree_holds};
use crate::ext4::entries::{block_sound, named_is_there, sound_is_good};
use crate::ext4::model::{
    dir_entries, entries_from, entry_named, extent_area, file_block, follow, follow_parts,
    ino_extents, ino_size, inode_load, is_dir_mode, lookup_dir, name_bytes, read_block,
    resolve_from_cwd, target, Entry,
};
use crate::ext4::runs::{area_ok, mapped_end};
use crate::ext4::space::{in_use, inode_in_use, is_system, space_ok, Place};
use crate::fs::FsView;
use crate::path::{components, parent_and_leaf};

verus! {

/// The block belongs to the extent tree of inode `x`.
pub open spec fn uses(s: FsView, x: u32, b: int) -> bool {
    inode_load(s, x) is Ok && tree_holds(s, ino_extents(inode_load(s, x)->Ok_0), b)
}

pub open spec fn is_dir(s: FsView, x: u32) -> bool {
    inode_load(s, x) is Ok && is_dir_mode(inode_load(s, x)->Ok_0)
}

/// The blocks of a directory from offset `off` on can be read, their entries
/// have room for their names, and none is a node of the extent tree.
pub open spec fn blocks_sound(s: FsView, ib: Seq<u8>, off: int, size: int) -> bool
    decreases size + 4096 - off,
{
    off < size ==> {
        &&& file_block(s, ib, off) is Some
        &&& block_sound((file_block(s, ib, off)->0).1, 0)
        &&& !is_node(s, ib, (file_block(s, ib, off)->0).0 as int)
        &&& blocks_sound(s, ib, off + 4096, size)
    }
}

/// The extents of a directory, where they all stand in the inode, map as many
/// blocks as its size says.
pub open spec fn full(raw: Seq<u8>) -> bool {
    u16_at(extent_area(raw), 6) == 0 ==> area_ok(extent_area(raw)) && ino_size(raw) == 4096
        * mapped_end(extent_area(raw))
}

/// An entry names an inode of the tree, and its type says what the inode is.
pub open spec fn entry_ok(s: FsView, live: Set<u32>, e: Entry) -> bool {
    &&& live.contains(e.ino)
    &&& e.ftype == 2 ==> is_dir(s, e.ino)
    &&& e.ftype == 1 ==> !is_dir(s, e.ino)
}

/// A directory whose entries can all be read.
pub open spec fn dir_ok(s: FsView, live: Set<u32>, x: u32) -> bool {
    let raw = inode_load(s, x)->Ok_0;
    &&& blocks_sound(s, ino_extents(raw), 0, ino_size(raw) as int)
    &&& full(raw)
    &&& forall|k: int|
        0 <= k < dir_entries(s, x).0.len() ==> entry_ok(s, live, #[trigger] dir_entries(s, x).0[k])
}

/// A volume whose directories, from the root on, name the inodes in `live`:
/// each is marked as used and can be read, and so is each block of each, which
/// no other shares.
pub open spec fn tree_ok(s: FsView, pl: Seq<Place>, live: Set<u32>) -> bool {
    &&& space_ok(s, pl)
    &&& live.contains(2)
    &&& is_dir(s, 2)
    &&& forall|x: u32| #[trigger]
        live.contains(x) ==> inode_in_use(s, pl, x as int) && inode_load(s, x) is Ok
    &&& forall|x: u32, b: int|
        live.contains(x) && #[trigger] uses(s, x, b) ==> in_use(s, pl, b) && !is_system(s, pl, b)
    &&& forall|x: u32, y: u32, b: int|
        live.contains(x) && live.contains(y) && x != y && #[trigger] uses(s, x, b)
            ==> !#[trigger] uses(s, y, b)
    &&& forall|x: u32| #[trigger] live.contains(x) && is_dir(s, x) ==> dir_ok(s, live, x)
}

/// Two inodes of the same kind, with the same size and the same extents.
pub open spec fn alike(a: Seq<u8>, b: Seq<u8>) -> bool {
    &&& u16_at(a, 0) == u16_at(b, 0)
    &&& ino_size(a) == ino_size(b)
    &&& ino_extents(a) == ino_extents(b)
}

/// A file or a directory is as it was where its inode, but for the count of
/// its links, and its blocks are.
pub open spec fn node_kept(s: FsView, t: FsView, x: u32) -> bool {
    &&& match inode_load(s, x) {
        Ok(raw) => inode_load(t, x) is Ok && alike(raw, inode_load(t, x)->Ok_0),
        Err(e) => inode_load(t, x) == inode_load(s, x),
    }
    &&& forall|b: int| uses(s, x, b) ==> #[trigger] read_block(t, b) == read_block(s, b)
}

pub proof fn entries_same(s: FsView, t: FsView, ib: Seq<u8>, off: int, size: int)
    requires
        forall|b: int| tree_holds(s, ib, b) ==> #[trigger] read_block(t, b) == read_block(s, b),
    ensures
        entries_from(t, ib, off, size) == entries_from(s, ib, off, size),
    decreases size + 4096 - off,
{
    if off < size {
        file_block_same(s, t, ib, off);
        entries_same(s, t, ib, off + 4096, size);
    }
}

/// The blocks of a directory are as sound as they were.
pub proof fn blocks_same(s: FsView, t: FsView, ib: Seq<u8>, off: int, size: int)
    requires
        forall|b: int| tree_holds(s, ib, b) ==> #[trigger] read_block(t, b) == read_block(s, b),
        blocks_sound(s, ib, off, size),
    ensures
        blocks_sound(t, ib, off, size),
    decreases size + 4096 - off,
{
    if off < size {
        file_block_same(s, t, ib, off);
        assert forall|b: int| is_node(s, ib, b) implies #[trigger] read_block(t, b) == read_block(
            s,
            b,
        ) by {
            node_is_held(s, ib, b);
        }
        nodes_same(s, t, ib, (file_block(s, ib, off)->0).0 as int);
        blocks_same(s, t, ib, off + 4096, size);
    }
}

pub proof fn dir_same(s: FsView, t: FsView, x: u32)
    requires
        node_kept(s, t, x),
    ensures
        dir_entries(t, x) == dir_entries(s, x),
        forall|m: Seq<u8>| #[trigger] lookup_dir(t, x, m) == lookup_dir(s, x, m),
{
    reveal(dir_entries);
    reveal(lookup_dir);
    if let Ok(raw) = inode_load(s, x) {
        let ib = ino_extents(raw);
        assert forall|b: int| tree_holds(s, ib, b) implies #[trigger] read_block(t, b) == read_block(
            s,
            b,
        ) by {
            assert(uses(s, x, b));
        }
        entries_same(s, t, ib, 0, ino_size(raw) as int);
    }
}

pub proof fn entries_good(s: FsView, ib: Seq<u8>, off: int, size: int)
    requires
        blocks_sound(s, ib, off, size),
    ensures
        entries_from(s, ib, off, size).1 is None,
    decreases size + 4096 - off,
{
    if off < size {
        sound_is_good((file_block(s, ib, off)->0).1, 0);
        entries_good(s, ib, off + 4096, size);
    }
}

/// What a name leads to belongs to the tree.
pub proof fn found_lives(s: FsView, pl: Seq<Place>, live: Set<u32>, d: u32, m: Seq<u8>)
    requires
        tree_ok(s, pl, live),
        live.contains(d),
    ensures
        lookup_dir(s, d, m) matches Ok((i, ft)) ==> is_dir(s, d) && live.contains(i) && (ft == 2
            ==> is_dir(s, i)) && (ft == 1 ==> !is_dir(s, i)),
{
    reveal(lookup_dir);
    named_is_there(dir_entries(s, d).0, m);
    if let Some(e) = entry_named(dir_entries(s, d).0, m) {
        let es = dir_entries(s, d).0;
        let k = choose|k: int| 0 <= k < es.len() && #[trigger] es[k] == e;
        assert(is_dir(s, d)) by {
            reveal(dir_entries);
        }
        assert(dir_ok(s, live, d));
        assert(entry_ok(s, live, dir_entries(s, d).0[k]));
    }
}

/// Every name that led somewhere leads there still.
pub open spec fn ways_kept(s: FsView, t: FsView, live: Set<u32>) -> bool {
    forall|x: u32, m: Seq<u8>|
        live.contains(x) && lookup_dir(s, x, m) is Ok ==> #[trigger] lookup_dir(t, x, m)
            == lookup_dir(s, x, m)
}

/// The directories of the tree name what they named, or less; directory `p` may
/// also have the entry `e`.
pub open spec fn added(s: FsView, t: FsView, live: Set<u32>, p: u32, e: Entry) -> bool {
    forall|x: u32| #[trigger]
        live.contains(x) ==> is_dir(t, x) == is_dir(s, x) && (forall|f: Entry| #[trigger]
            dir_entries(t, x).0.contains(f) ==> dir_entries(s, x).0.contains(f) || (x == p && f == e))
}

/// The directories of the tree name what they named, or less, and every name but
/// `n` of directory `p` leads where it led.
pub open spec fn lessened(s: FsView, t: FsView, live: Set<u32>, p: u32, n: Seq<u8>) -> bool {
    &&& forall|x: u32| #[trigger]
        live.contains(x) ==> is_dir(t, x) == is_dir(s, x) && (forall|f: Entry| #[trigger]
            dir_entries(t, x).0.contains(f) ==> dir_entries(s, x).0.contains(f))
    &&& forall|x: u32, m: Seq<u8>|
        live.contains(x) && !(x == p && m == n) && lookup_dir(s, x, m) is Ok ==> #[trigger] lookup_dir(
            t,
            x,
            m,
        ) == lookup_dir(s, x, m)
}

/// Every name that led to a directory leads there still.
pub open spec fn dirs_kept(s: FsView, t: FsView, live: Set<u32>) -> bool {
    forall|x: u32, m: Seq<u8>|
        live.contains(x) && (lookup_dir(s, x, m) matches Ok(y) && y.1 == 2) ==> #[trigger] lookup_dir(
            t,
            x,
            m,
        ) == lookup_dir(s, x, m)
}

pub proof fn follow_kept(
    s: FsView,
    t: FsView,
    pl: Seq<Place>,
    live: Set<u32>,
    d: u32,
    names: Seq<Seq<char>>,
)
    requires
        tree_ok(s, pl, live),
        dirs_kept(s, t, live),
        live.contains(d),
        is_dir(s, d),
        follow(s, d, names) is Ok,
    ensures
        follow(t, d, names) == follow(s, d, names),
        live.contains(follow(s, d, names)->Ok_0),
        is_dir(s, follow(s, d, names)->Ok_0),
    decreases names.len(),
{
    if names.len() > 0 {
        let n = name_bytes(names[0])->Ok_0;
        found_lives(s, pl, live, d, n);
        let i = (lookup_dir(s, d, n)->Ok_0).0;
        follow_kept(s, t, pl, live, i, names.skip(1));
        assert(lookup_dir(t, d, n) == lookup_dir(s, d, n));
    }
}

pub proof fn parts_kept(
    s: FsView,
    t: FsView,
    pl: Seq<Place>,
    live: Set<u32>,
    d: u32,
    parts: Seq<Seq<u8>>,
)
    requires
        tree_ok(s, pl, live),
        dirs_kept(s, t, live),
        live.contains(d),
        is_dir(s, d),
        follow_parts(s, d, parts) is Ok,
    ensures
        follow_parts(t, d, parts) == follow_parts(s, d, parts),
        live.contains(follow_parts(s, d, parts)->Ok_0),
        is_dir(s, follow_parts(s, d, parts)->Ok_0),
    decreases parts.len(),
{
    if parts.len() > 0 {
        found_lives(s, pl, live, d, parts[0]);
        let i = (lookup_dir(s, d, parts[0])->Ok_0).0;
        parts_kept(s, t, pl, live, i, parts.skip(1));
        assert(lookup_dir(t, d, parts[0]) == lookup_dir(s, d, parts[0]));
    }
}

/// A path stands for the same directory and name as before.
pub proof fn target_kept(s: FsView, t: FsView, pl: Seq<Place>, live: Set<u32>, path: Seq<char>)
    requires
        tree_ok(s, pl, live),
        ways_kept(s, t, live),
        t.cwd == s.cwd,
        target(s, path) is Ok,
    ensures
        target(t, path) == target(s, path),
        live.contains((target(s, path)->Ok_0).0),
        is_dir(s, (target(s, path)->Ok_0).0),
{
    target_led(s, t, pl, live, path);
}

/// A path stands for the same directory and name as before where the names of
/// directories lead where they led.
pub proof fn target_led(s: FsView, t: FsView, pl: Seq<Place>, live: Set<u32>, path: Seq<char>)
    requires
        tree_ok(s, pl, live),
        dirs_kept(s, t, live),
        t.cwd == s.cwd,
        target(s, path) is Ok,
    ensures
        target(t, path) == target(s, path),
        live.contains((target(s, path)->Ok_0).0),
        is_dir(s, (target(s, path)->Ok_0).0),
{
    reveal(target);
    reveal(resolve_from_cwd);
    let parent = parent_and_leaf(path).0;
    if parent.len() > 0 && parent[0] == '/' {
        follow_kept(s, t, pl, live, 2, components(parent));
    } else {
        parts_kept(s, t, pl, live, 2, s.cwd);
        let d = follow_parts(s, 2, s.cwd)->Ok_0;
        follow_kept(s, t, pl, live, d, components(parent));
    }
}

// ---------- a volume whose contents are as they were ----------

/// Lookups in the directories of the tree, found or not, give what they gave.
pub open spec fn names_kept(s: FsView, t: FsView, live: Set<u32>) -> bool {
    forall|x: u32, m: Seq<u8>|
        live.contains(x) ==> #[trigger] lookup_dir(t, x, m) == lookup_dir(s, x, m)
}

proof fn follow_same(
    s: FsView,
    t: FsView,
    pl: Seq<Place>,
    live: Set<u32>,
    d: u32,
    names: Seq<Seq<char>>,
)
    requires
        tree_ok(s, pl, live),
        names_kept(s, t, live),
        live.contains(d),
    ensures
        follow(t, d, names) == follow(s, d, names),
        follow(s, d, names) is Ok ==> live.contains(follow(s, d, names)->Ok_0),
    decreases names.len(),
{
    if names.len() > 0 {
        if let Ok(n) = name_bytes(names[0]) {
            found_lives(s, pl, live, d, n);
            assert(lookup_dir(t, d, n) == lookup_dir(s, d, n));
            if let Ok((i, ft)) = lookup_dir(s, d, n) {
                follow_same(s, t, pl, live, i, names.skip(1));
            }
        }
    }
}

proof fn parts_same(
    s: FsView,
    t: FsView,
    pl: Seq<Place>,
    live: Set<u32>,
    d: u32,
    parts: Seq<Seq<u8>>,
)
    requires
        tree_ok(s, pl, live),
        names_kept(s, t, live),
        live.contains(d),
    ensures
        follow_parts(t, d, parts) == follow_parts(s, d, parts),
        follow_parts(s, d, parts) is Ok ==> live.contains(follow_parts(s, d, parts)->Ok_0),
    decreases parts.len(),
{
    if parts.len() > 0 {
        found_lives(s, pl, live, d, parts[0]);
        assert(lookup_dir(t, d, parts[0]) == lookup_dir(s, d, parts[0]));
        if let Ok((i, ft)) = lookup_dir(s, d, parts[0]) {
            parts_same(s, t, pl, live, i, parts.skip(1));
        }
    }
}

/// A path stands for what it stood for, or fails as it failed.
pub proof fn target_same(s: FsView, t: FsView, pl: Seq<Place>, live: Set<u32>, path: Seq<char>)
    requires
        tree_ok(s, pl, live),
        names_kept(s, t, live),
        t.cwd == s.cwd,
    ensures
        target(t, path) == target(s, path),
        target(s, path) is Ok ==> live.contains((target(s, path)->Ok_0).0),
{
    reveal(target);
    reveal(resolve_from_cwd);
    let parent = parent_and_leaf(path).0;
    if parent.len() > 0 && parent[0] == '/' {
        follow_same(s, t, pl, live, 2, components(parent));
    } else {
        parts_same(s, t, pl, live, 2, s.cwd);
        if let Ok(d) = follow_parts(s, 2, s.cwd) {
            follow_same(s, t, pl, live, d, components(parent));
        }
    }
}

} // verus!
