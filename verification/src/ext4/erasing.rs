//! What removing a file promises: the path leads nowhere, the blocks and the
//! inode are free, and the rest of the volume is as it was.

use vstd::prelude::*;
use crate::ext4::contents::tree_holds;
use crate::ext4::counts::{counted, loaded_apart, steady};
use crate::ext4::entries::times;
use crate::ext4::files::{extents_are_freed, file_same, kept_sound, kept_uses};
use crate::ext4::inodes::inode_len;
use crate::ext4::keeping::{dirs_counted, links_counted};
use crate::ext4::model::{
    bump_links, dir_del, dir_entries, find_file, free_extents, free_inode, has_other_names,
    ino_extents, inode_load, lookup_dir, read_block, read_file, rm, rmdir, target, unlink, Entry,
};
use crate::ext4::naming::dir_ready;
use crate::ext4::removal::{counted_if_there, name_is_removed, only_fewer};
use crate::ext4::space::{in_use, inode_in_use, is_system, space_ok, Place};
use crate::ext4::supply::{contents_kept, inode_is_freed};
use crate::ext4::tree::{
    dir_ok, dir_same, entry_ok, found_lives, is_dir, lessened, node_kept, target_kept, target_led,
    tree_ok, uses, ways_kept,
};
use crate::fs::{FsErr, FsView};

verus! {

/// The name stands once in directory `p`, and no other entry of the tree,
/// outside the inode itself, names the inode.
pub open spec fn named_once(s: FsView, live: Set<u32>, p: u32, n: Seq<u8>, ino: u32) -> bool {
    &&& times(dir_entries(s, p).0, n) <= 1
    &&& forall|x: u32, k: int|
        live.contains(x) && x != ino && is_dir(s, x) && 0 <= k < dir_entries(s, x).0.len() && (
        #[trigger] dir_entries(s, x).0[k]).ino == ino ==> x == p && dir_entries(s, x).0[k].name == n
}

/// What is known of a volume behind the removal of file `ino`, whose name was
/// `n` in directory `p`.
spec fn erased(
    s: FsView,
    t: FsView,
    pl: Seq<Place>,
    live: Set<u32>,
    p: u32,
    n: Seq<u8>,
    ino: u32,
) -> bool {
    &&& tree_ok(s, pl, live)
    &&& space_ok(t, pl)
    &&& steady(s, t)
    &&& live.contains(p)
    &&& live.contains(ino)
    &&& is_dir(s, p)
    &&& ino != p
    &&& ino != 2
    &&& named_once(s, live, p, n, ino)
    &&& forall|b: int| #[trigger] in_use(t, pl, b) == (in_use(s, pl, b) && !uses(s, ino, b))
    &&& forall|x: int| #[trigger] inode_in_use(t, pl, x) == (x != ino && inode_in_use(s, pl, x))
    &&& forall|x: u32|
        #![trigger live.contains(x)]
        live.contains(x) && x != ino && x != p ==> node_kept(s, t, x)
    &&& dir_ready(t, pl, p)
    &&& forall|b: int| #[trigger] uses(t, p, b) == uses(s, p, b)
    &&& only_fewer(dir_entries(s, p).0, dir_entries(t, p).0)
    &&& times(dir_entries(t, p).0, n) == 0
}

proof fn erased_uses(
    s: FsView,
    t: FsView,
    pl: Seq<Place>,
    live: Set<u32>,
    p: u32,
    n: Seq<u8>,
    ino: u32,
    x: u32,
    b: int,
)
    requires
        erased(s, t, pl, live, p, n, ino),
        live.contains(x),
        x != ino,
    ensures
        uses(t, x, b) == uses(s, x, b),
        is_dir(t, x) == is_dir(s, x),
        inode_load(t, x) is Ok,
{
    if x != p {
        kept_uses(s, t, x, b);
    } else {
        assert(uses(t, p, b) == uses(s, p, b));
    }
}

proof fn erased_dir(
    s: FsView,
    t: FsView,
    pl: Seq<Place>,
    live: Set<u32>,
    p: u32,
    n: Seq<u8>,
    ino: u32,
    x: u32,
)
    requires
        erased(s, t, pl, live, p, n, ino),
        live.contains(x),
        x != ino,
        is_dir(t, x),
    ensures
        dir_ok(t, live.remove(ino), x),
{
    let rest = live.remove(ino);
    erased_uses(s, t, pl, live, p, n, ino, x, 0);
    assert(dir_ok(s, live, x));
    if x != p {
        dir_same(s, t, x);
        kept_sound(s, t, x);
    }
    assert forall|k: int| 0 <= k < dir_entries(t, x).0.len() implies entry_ok(
        t,
        rest,
        #[trigger] dir_entries(t, x).0[k],
    ) by {
        let f = dir_entries(t, x).0[k];
        let es = dir_entries(s, x).0;
        assert(dir_entries(t, x).0.contains(f));
        assert(es.contains(f));
        let l = choose|l: int| 0 <= l < es.len() && es[l] == f;
        assert(entry_ok(s, live, dir_entries(s, x).0[l]));
        if f.ino == ino {
            assert(x == p && f.name == n);
            counted_if_there(dir_entries(t, x).0, f);
        }
        erased_uses(s, t, pl, live, p, n, ino, f.ino, 0);
    }
}

proof fn erased_tree(
    s: FsView,
    t: FsView,
    pl: Seq<Place>,
    live: Set<u32>,
    p: u32,
    n: Seq<u8>,
    ino: u32,
)
    requires
        erased(s, t, pl, live, p, n, ino),
    ensures
        tree_ok(t, pl, live.remove(ino)),
{
    let rest = live.remove(ino);
    erased_uses(s, t, pl, live, p, n, ino, 2, 0);
    assert forall|x: u32| #[trigger] rest.contains(x) implies inode_in_use(t, pl, x as int)
        && inode_load(t, x) is Ok by {
        assert(inode_in_use(s, pl, x as int));
        erased_uses(s, t, pl, live, p, n, ino, x, 0);
    }
    assert forall|x: u32, b: int| rest.contains(x) && #[trigger] uses(t, x, b) implies in_use(t, pl, b)
        && !is_system(t, pl, b) by {
        erased_uses(s, t, pl, live, p, n, ino, x, b);
        assert(uses(s, x, b));
        assert(!uses(s, ino, b));
        assert(!is_system(s, pl, b));
    }
    assert forall|x: u32, y: u32, b: int|
        rest.contains(x) && rest.contains(y) && x != y && #[trigger] uses(t, x, b) implies !#[trigger] uses(
        t,
        y,
        b,
    ) by {
        erased_uses(s, t, pl, live, p, n, ino, x, b);
        erased_uses(s, t, pl, live, p, n, ino, y, b);
        assert(uses(s, x, b));
        assert(!uses(s, y, b));
    }
    assert forall|x: u32| #[trigger] rest.contains(x) && is_dir(t, x) implies dir_ok(t, rest, x) by {
        erased_dir(s, t, pl, live, p, n, ino, x);
    }
}

/// The directory can still have its names changed once the blocks of the file
/// are free.
proof fn ready_beside(s: FsView, t: FsView, pl: Seq<Place>, live: Set<u32>, p: u32, ino: u32)
    requires
        tree_ok(s, pl, live),
        live.contains(p),
        live.contains(ino),
        p != ino,
        is_dir(s, p),
        space_ok(t, pl),
        steady(s, t),
        contents_kept(s, t, pl),
        forall|b: int| #[trigger] in_use(t, pl, b) == (in_use(s, pl, b) && !uses(s, ino, b)),
    ensures
        dir_ready(t, pl, p),
        node_kept(s, t, p),
        dir_entries(t, p) == dir_entries(s, p),
        forall|m: Seq<u8>| #[trigger] lookup_dir(t, p, m) == lookup_dir(s, p, m),
        forall|b: int| #[trigger] uses(t, p, b) == uses(s, p, b),
{
    assert(inode_in_use(s, pl, p as int));
    assert(inode_load(t, p) == inode_load(s, p));
    assert(dir_ok(s, live, p));
    assert forall|b: int| uses(s, p, b) implies #[trigger] read_block(t, b) == read_block(s, b) by {
        assert(!is_system(s, pl, b));
    }
    dir_same(s, t, p);
    kept_sound(s, t, p);
    assert forall|b: int| #[trigger] uses(t, p, b) == uses(s, p, b) by {
        kept_uses(s, t, p, b);
    }
    assert forall|b: int| #[trigger] uses(t, p, b) implies in_use(t, pl, b) && !is_system(t, pl, b) by {
        assert(uses(s, p, b));
        assert(!uses(s, ino, b));
        assert(in_use(s, pl, b) && !is_system(s, pl, b));
    }
}

/// The steps of a removal.
#[verifier::spinoff_prover]
proof fn file_erased(s: FsView, pl: Seq<Place>, live: Set<u32>, p: u32, n: Seq<u8>, ino: u32)
    requires
        tree_ok(s, pl, live),
        live.contains(p),
        live.contains(ino),
        is_dir(s, p),
        ino != p,
        ino != 2,
        named_once(s, live, p, n, ino),
        unlink(s, p, n, ino).1 is Ok,
    ensures
        erased(s, unlink(s, p, n, ino).0, pl, live, p, n, ino),
        forall|m: Seq<u8>|
            m != n && lookup_dir(s, p, m) is Ok ==> #[trigger] lookup_dir(
                unlink(s, p, n, ino).0,
                p,
                m,
            ) == lookup_dir(s, p, m),
        lookup_dir(unlink(s, p, n, ino).0, p, n) == Err::<(u32, u8), FsErr>(FsErr::NotFound),
{
    reveal(unlink);
    let raw = inode_load(s, ino)->Ok_0;
    assert(inode_in_use(s, pl, ino as int));
    inode_len(s, ino);
    assert forall|b: int| #[trigger] tree_holds(s, ino_extents(raw), b) implies in_use(s, pl, b)
        && !is_system(s, pl, b) by {
        assert(uses(s, ino, b));
    }
    if counted(s) {
        loaded_apart(s, pl, ino);
    }
    extents_are_freed(s, pl, raw);
    let s1 = free_extents(s, raw).0;
    inode_is_freed(s1, pl, ino);
    let s2 = free_inode(s1, ino).0;
    assert(contents_kept(s, s2, pl)) by {
        assert forall|b: int| !is_system(s, pl, b) implies #[trigger] read_block(s2, b) == read_block(
            s,
            b,
        ) by {
            assert(!is_system(s1, pl, b));
            assert(read_block(s1, b) == read_block(s, b));
        }
        assert forall|x: u32| 1 <= x <= 8192 * pl.len() implies #[trigger] inode_load(s2, x)
            == inode_load(s, x) by {
            assert(inode_load(s1, x) == inode_load(s, x));
        }
    }
    assert forall|b: int| #[trigger] in_use(s2, pl, b) == (in_use(s, pl, b) && !uses(s, ino, b)) by {
        assert(in_use(s1, pl, b) == (in_use(s, pl, b) && !tree_holds(s, ino_extents(raw), b)));
    }
    ready_beside(s, s2, pl, live, p, ino);
    name_is_removed(s2, pl, p, n);
    let t = dir_del(s2, p, n).0;
    assert(t == unlink(s, p, n, ino).0);
    assert forall|x: u32|
        #![trigger live.contains(x)]
        live.contains(x) && x != ino && x != p implies node_kept(s, t, x) by {
        assert(inode_in_use(s, pl, x as int));
        assert(inode_load(s2, x) == inode_load(s, x));
        assert(inode_load(t, x) == inode_load(s2, x));
        assert forall|b: int| uses(s, x, b) implies #[trigger] read_block(t, b) == read_block(s, b) by {
            assert(!uses(s, p, b));
            assert(!uses(s2, p, b));
            assert(!is_system(s, pl, b));
            assert(!is_system(s2, pl, b));
            assert(read_block(s2, b) == read_block(s, b));
        }
    }
    assert forall|b: int| #[trigger] in_use(t, pl, b) == (in_use(s, pl, b) && !uses(s, ino, b)) by {
        assert(in_use(t, pl, b) == in_use(s2, pl, b));
    }
    assert forall|x: int| #[trigger] inode_in_use(t, pl, x) == (x != ino && inode_in_use(s, pl, x)) by {
        assert(inode_in_use(t, pl, x) == inode_in_use(s2, pl, x));
        assert(inode_in_use(s1, pl, x) == inode_in_use(s, pl, x));
    }
    assert forall|b: int| #[trigger] uses(t, p, b) == uses(s, p, b) by {
        assert(uses(t, p, b) == uses(s2, p, b));
    }
    assert forall|m: Seq<u8>| m != n && lookup_dir(s, p, m) is Ok implies #[trigger] lookup_dir(t, p, m)
        == lookup_dir(s, p, m) by {
        assert(lookup_dir(s2, p, m) == lookup_dir(s, p, m));
    }
}

/// A file that was removed is gone: on a sound volume on which nothing else
/// names the file, its path leads nowhere, its blocks and its inode are free
/// and no others are, the volume is sound, and every other file reads as it
/// did.
pub proof fn removed_file_is_gone(
    s: FsView,
    pl: Seq<Place>,
    live: Set<u32>,
    path: Seq<char>,
    other: Seq<char>,
    room: int,
)
    requires
        tree_ok(s, pl, live),
        rm(s, path).1 is Ok,
        named_once(
            s,
            live,
            (target(s, path)->Ok_0).0,
            (target(s, path)->Ok_0).1,
            find_file(s, path)->Ok_0,
        ),
    ensures
        ({
            let t = rm(s, path).0;
            let ino = find_file(s, path)->Ok_0;
            &&& find_file(s, path) is Ok
            &&& steady(s, t)
            &&& lessened(
                s,
                t,
                live.remove(ino),
                (target(s, path)->Ok_0).0,
                (target(s, path)->Ok_0).1,
            )
            &&& tree_ok(t, pl, live.remove(ino))
            &&& forall|b: int| #[trigger] in_use(t, pl, b) == (in_use(s, pl, b) && !uses(s, ino, b))
            &&& forall|x: int| #[trigger]
                inode_in_use(t, pl, x) == (x != ino && inode_in_use(s, pl, x))
            &&& find_file(t, path) == Err::<u32, FsErr>(FsErr::NotFound)
            &&& find_file(s, other) is Ok && find_file(s, other) != find_file(s, path) ==> read_file(
                t,
                other,
                room,
            ) == read_file(s, other, room)
        }),
{
    reveal(rm);
    let (p, n) = target(s, path)->Ok_0;
    let ino = find_file(s, path)->Ok_0;
    assert(ways_kept(s, s, live));
    target_kept(s, s, pl, live, path);
    found_lives(s, pl, live, p, n);
    file_erased(s, pl, live, p, n, ino);
    let t = rm(s, path).0;
    erased_tree(s, t, pl, live, p, n, ino);
    erased_lessens(s, t, pl, live, p, n, ino);
    directories_lead_on(s, t, pl, live, p, n, ino, path);
    if find_file(s, other) is Ok && find_file(s, other) != find_file(s, path) {
        let (q, m) = target(s, other)->Ok_0;
        target_kept(s, s, pl, live, other);
        found_lives(s, pl, live, q, m);
        directories_lead_on(s, t, pl, live, p, n, ino, other);
        let y = find_file(s, other)->Ok_0;
        assert(!(q == p && m == n));
        if q != p {
            dir_same(s, t, q);
        }
        assert(lookup_dir(t, q, m) == lookup_dir(s, q, m));
        assert(node_kept(s, t, y));
        file_same(s, t, y, room);
    }
}

/// A removal takes names away, and leads no other name elsewhere.
proof fn erased_lessens(
    s: FsView,
    t: FsView,
    pl: Seq<Place>,
    live: Set<u32>,
    p: u32,
    n: Seq<u8>,
    ino: u32,
)
    requires
        erased(s, t, pl, live, p, n, ino),
        forall|m: Seq<u8>|
            m != n && lookup_dir(s, p, m) is Ok ==> #[trigger] lookup_dir(t, p, m) == lookup_dir(
                s,
                p,
                m,
            ),
    ensures
        lessened(s, t, live.remove(ino), p, n),
{
    let rest = live.remove(ino);
    assert forall|x: u32| #[trigger] rest.contains(x) implies is_dir(t, x) == is_dir(s, x) && (
    forall|f: Entry| #[trigger]
        dir_entries(t, x).0.contains(f) ==> dir_entries(s, x).0.contains(f)) by {
        erased_uses(s, t, pl, live, p, n, ino, x, 0);
        if x != p {
            dir_same(s, t, x);
        }
    }
    assert forall|x: u32, m: Seq<u8>|
        rest.contains(x) && !(x == p && m == n) && lookup_dir(s, x, m) is Ok implies #[trigger] lookup_dir(
        t,
        x,
        m,
    ) == lookup_dir(s, x, m) by {
        if x != p {
            dir_same(s, t, x);
        }
    }
}

/// What follows a path to a directory follows it still: only the name of a
/// file was removed.
proof fn directories_lead_on(
    s: FsView,
    t: FsView,
    pl: Seq<Place>,
    live: Set<u32>,
    p: u32,
    n: Seq<u8>,
    ino: u32,
    path: Seq<char>,
)
    requires
        erased(s, t, pl, live, p, n, ino),
        lookup_dir(s, p, n) matches Ok(x) && x.1 == 1,
        !is_dir(s, ino),
        forall|m: Seq<u8>|
            m != n && lookup_dir(s, p, m) is Ok ==> #[trigger] lookup_dir(t, p, m) == lookup_dir(
                s,
                p,
                m,
            ),
        target(s, path) is Ok,
    ensures
        target(t, path) == target(s, path),
{
    assert forall|x: u32, m: Seq<u8>|
        live.contains(x) && (lookup_dir(s, x, m) matches Ok(y) && y.1 == 2) implies #[trigger] lookup_dir(
        t,
        x,
        m,
    ) == lookup_dir(s, x, m) by {
        found_lives(s, pl, live, x, m);
        if x != p {
            dir_same(s, t, x);
        }
    }
    target_led(s, t, pl, live, path);
}

// ---------- directories ----------

/// A directory that was removed is gone: on a sound volume on which nothing
/// else names the directory, its name is not found any more, its blocks and
/// its inode are free and no others are, and the volume is sound.
#[verifier::spinoff_prover]
pub proof fn removed_directory_is_gone(s: FsView, pl: Seq<Place>, live: Set<u32>, path: Seq<char>)
    requires
        tree_ok(s, pl, live),
        rmdir(s, path).1 is Ok,
        ({
            let (p, n) = target(s, path)->Ok_0;
            let ino = (lookup_dir(s, p, n)->Ok_0).0;
            &&& ino != p
            &&& ino != 2
            &&& named_once(s, live, p, n, ino)
        }),
    ensures
        ({
            let t = rmdir(s, path).0;
            let (p, n) = target(s, path)->Ok_0;
            let ino = (lookup_dir(s, p, n)->Ok_0).0;
            &&& lookup_dir(s, p, n) == Ok::<(u32, u8), FsErr>((ino, 2))
            &&& !has_other_names(dir_entries(s, ino).0)
            &&& steady(s, t)
            &&& lessened(s, t, live.remove(ino), p, n)
            &&& tree_ok(t, pl, live.remove(ino))
            &&& forall|b: int| #[trigger] in_use(t, pl, b) == (in_use(s, pl, b) && !uses(s, ino, b))
            &&& forall|x: int| #[trigger]
                inode_in_use(t, pl, x) == (x != ino && inode_in_use(s, pl, x))
            &&& lookup_dir(t, p, n) == Err::<(u32, u8), FsErr>(FsErr::NotFound)
        }),
{
    reveal(rmdir);
    let (p, n) = target(s, path)->Ok_0;
    let ino = (lookup_dir(s, p, n)->Ok_0).0;
    assert(ways_kept(s, s, live));
    target_kept(s, s, pl, live, path);
    found_lives(s, pl, live, p, n);
    file_erased(s, pl, live, p, n, ino);
    let s1 = unlink(s, p, n, ino).0;
    let rest = live.remove(ino);
    erased_tree(s, s1, pl, live, p, n, ino);
    erased_lessens(s, s1, pl, live, p, n, ino);
    links_counted(s1, pl, rest, p, false);
    let s2 = bump_links(s1, p, false).0;
    assert(inode_in_use(s, pl, ino as int));
    dirs_counted(s2, pl, rest, (ino - 1) / 8192, -1);
    let t = rmdir(s, path).0;
    assert(lessened(s, t, rest, p, n)) by {
        assert forall|x: u32| #[trigger] rest.contains(x) implies is_dir(t, x) == is_dir(s1, x)
            && dir_entries(t, x) == dir_entries(s1, x) && is_dir(s1, x) == is_dir(s, x) && (
        forall|m: Seq<u8>| #[trigger] lookup_dir(t, x, m) == lookup_dir(s1, x, m)) by {
            dir_same(s1, s2, x);
            dir_same(s2, t, x);
            kept_uses(s1, s2, x, 0);
            kept_uses(s2, t, x, 0);
        }
    }
    assert forall|b: int| #[trigger] in_use(t, pl, b) == (in_use(s, pl, b) && !uses(s, ino, b)) by {
        assert(in_use(t, pl, b) == in_use(s2, pl, b));
        assert(in_use(s2, pl, b) == in_use(s1, pl, b));
    }
    assert forall|x: int| #[trigger] inode_in_use(t, pl, x) == (x != ino && inode_in_use(s, pl, x)) by {
        assert(inode_in_use(t, pl, x) == inode_in_use(s2, pl, x));
        assert(inode_in_use(s2, pl, x) == inode_in_use(s1, pl, x));
    }
    assert(rest.contains(p));
    assert(lookup_dir(t, p, n) == lookup_dir(s2, p, n));
    assert(lookup_dir(s2, p, n) == lookup_dir(s1, p, n));
}

} // verus!
