//! Directories in order: each inode has one name, and each way up leads back.

use vstd::prelude::*;
use crate::ext4::entries::{named_is_there, times};
use crate::ext4::erasing::named_once;
use crate::ext4::files::{commit_keeps_files, file_written, kept_uses, written_inode};
use crate::ext4::keeping::{made_directory_is_there, new_ino, only_dots, touched_file_is_there};
use crate::ext4::layout::seeds;
use crate::ext4::model::{
    dir_entries, entry_named, find_file, has_other_names, is_dot_name, jbd_commit, lookup_dir,
    mkdir, mv, target, touch, write_file, Entry,
};
use crate::ext4::moving::moving_keeps_the_tree;
use crate::ext4::naming::{entries_of_dir, lookup_is_named};
use crate::ext4::removal::{counted_if_there, found_if_there};
use crate::ext4::seeds::{seed_entry, seeds_differ};
use crate::ext4::space::Place;
use crate::ext4::tree::{
    added, dir_same, found_lives, is_dir, lessened, target_kept, tree_ok, ways_kept,
};
use crate::fs::{FsErr, FsView};

verus! {

/// The entry stands in directory `x` of the tree.
pub open spec fn entry_in(s: FsView, live: Set<u32>, x: u32, f: Entry) -> bool {
    live.contains(x) && is_dir(s, x) && dir_entries(s, x).0.contains(f)
}

/// A name of directory `y` leads to directory `x`.
pub open spec fn hangs(s: FsView, y: u32, x: u32) -> bool {
    exists|m: Seq<u8>|
        !is_dot_name(m) && #[trigger] lookup_dir(s, y, m) == Ok::<(u32, u8), FsErr>((x, 2))
}

/// The entry of directory `x` names the directory itself, or the one that names
/// it, or something other than the root.
pub open spec fn sits(s: FsView, x: u32, f: Entry) -> bool {
    if f.name == seq![46u8] {
        f.ino == x
    } else if f.name == seq![46u8, 46u8] {
        is_dir(s, f.ino) && (if x == 2 {
            f.ino == 2
        } else {
            hangs(s, f.ino, x)
        })
    } else {
        f.ino != 2
    }
}

/// Each inode but the root has one name besides `.` and `..`, and `..` leads to
/// the directory that holds it.
pub open spec fn orderly(s: FsView, live: Set<u32>) -> bool {
    &&& forall|x: u32, f: Entry| #[trigger] entry_in(s, live, x, f) ==> sits(s, x, f)
    &&& forall|x: u32, f: Entry, y: u32, h: Entry|
        #![trigger entry_in(s, live, x, f), entry_in(s, live, y, h)]
        entry_in(s, live, x, f) && entry_in(s, live, y, h) && !is_dot_name(f.name) && !is_dot_name(
            h.name,
        ) && f.ino == h.ino ==> x == y && f.name == h.name
}

proof fn entry_lives(s: FsView, pl: Seq<Place>, live: Set<u32>, x: u32, f: Entry)
    requires
        tree_ok(s, pl, live),
        entry_in(s, live, x, f),
    ensures
        live.contains(f.ino),
{
    let k = choose|k: int| 0 <= k < dir_entries(s, x).0.len() && dir_entries(s, x).0[k] == f;
    assert(dir_entries(s, x).0[k] == f);
}

/// What a name leads to is what an entry of the directory says.
proof fn found_in(s: FsView, live: Set<u32>, p: u32, n: Seq<u8>)
    requires
        live.contains(p),
        is_dir(s, p),
        lookup_dir(s, p, n) is Ok,
    ensures
        ({
            let (ino, ftype) = lookup_dir(s, p, n)->Ok_0;
            entry_in(s, live, p, Entry { ino, ftype, name: n })
        }),
{
    lookup_is_named(s, p, n);
    entries_of_dir(s, p);
    named_is_there(dir_entries(s, p).0, n);
}

/// A file of an orderly volume, or a directory without names of its own, is
/// named nowhere else.
pub proof fn orderly_is_alone(s: FsView, live: Set<u32>, p: u32, n: Seq<u8>)
    requires
        orderly(s, live),
        live.contains(p),
        is_dir(s, p),
        lookup_dir(s, p, n) is Ok,
        !is_dot_name(n),
        times(dir_entries(s, p).0, n) <= 1,
        ({
            let ino = (lookup_dir(s, p, n)->Ok_0).0;
            live.contains(ino) && (is_dir(s, ino) ==> !has_other_names(dir_entries(s, ino).0))
        }),
    ensures
        ({
            let ino = (lookup_dir(s, p, n)->Ok_0).0;
            &&& ino != p
            &&& ino != 2
            &&& named_once(s, live, p, n, ino)
        }),
{
    let (ino, ftype) = lookup_dir(s, p, n)->Ok_0;
    let g = Entry { ino, ftype, name: n };
    found_in(s, live, p, n);
    assert(sits(s, p, g));
    if ino == p {
        let k = choose|k: int| 0 <= k < dir_entries(s, p).0.len() && dir_entries(s, p).0[k] == g;
        assert(!is_dot_name(dir_entries(s, p).0[k].name));
    }
    assert forall|x: u32, k: int|
        live.contains(x) && x != ino && is_dir(s, x) && 0 <= k < dir_entries(s, x).0.len() && (
        #[trigger] dir_entries(s, x).0[k]).ino == ino implies x == p && dir_entries(s, x).0[k].name
        == n by {
        let f = dir_entries(s, x).0[k];
        assert(entry_in(s, live, x, f));
        if f.name == seq![46u8, 46u8] {
            assert(seq![46u8].len() != f.name.len());
            assert(sits(s, x, f));
            let m = choose|m: Seq<u8>|
                !is_dot_name(m) && #[trigger] lookup_dir(s, ino, m) == Ok::<(u32, u8), FsErr>((x, 2));
            found_in(s, live, ino, m);
            let h = Entry { ino: x, ftype: 2, name: m };
            let es = dir_entries(s, ino).0;
            let j = choose|j: int| 0 <= j < es.len() && es[j] == h;
            assert(!is_dot_name(es[j].name));
        }
    }
}

/// A new name for a new inode leaves the volume in order.
pub proof fn added_in_order(s: FsView, t: FsView, pl: Seq<Place>, live: Set<u32>, p: u32, e: Entry)
    requires
        tree_ok(s, pl, live),
        orderly(s, live),
        added(s, t, live, p, e),
        ways_kept(s, t, live),
        live.contains(p),
        is_dir(s, p),
        !is_dot_name(e.name),
        !live.contains(e.ino),
        is_dir(t, e.ino) ==> only_dots(t, e.ino, p) && lookup_dir(t, p, e.name) == Ok::<
            (u32, u8),
            FsErr,
        >((e.ino, 2)),
    ensures
        orderly(t, live.insert(e.ino)),
{
    let all = live.insert(e.ino);
    assert forall|x: u32, f: Entry| #[trigger] entry_in(t, all, x, f) && x != e.ino implies (x == p
        && f == e) || (entry_in(s, live, x, f) && live.contains(f.ino)) by {
        assert(live.contains(x));
        if !(x == p && f == e) {
            entry_lives(s, pl, live, x, f);
        }
    }
    assert forall|x: u32, f: Entry| #[trigger] entry_in(t, all, x, f) implies sits(t, x, f) by {
        if x == e.ino {
            if f.name == seq![46u8, 46u8] {
                assert(seq![46u8].len() != f.name.len());
                assert(lookup_dir(t, p, e.name) == Ok::<(u32, u8), FsErr>((x, 2)));
            }
        } else if entry_in(s, live, x, f) && live.contains(f.ino) {
            assert(sits(s, x, f));
            if f.name == seq![46u8, 46u8] && x != 2 {
                assert(seq![46u8].len() != f.name.len());
                let m = choose|m: Seq<u8>|
                    !is_dot_name(m) && #[trigger] lookup_dir(s, f.ino, m) == Ok::<(u32, u8), FsErr>(
                        (x, 2),
                    );
                assert(lookup_dir(t, f.ino, m) == Ok::<(u32, u8), FsErr>((x, 2)));
            }
        }
    }
    assert forall|x: u32, f: Entry, y: u32, h: Entry|
        #![trigger entry_in(t, all, x, f), entry_in(t, all, y, h)]
        entry_in(t, all, x, f) && entry_in(t, all, y, h) && !is_dot_name(f.name) && !is_dot_name(
            h.name,
        ) && f.ino == h.ino implies x == y && f.name == h.name by {
        assert(x != e.ino && y != e.ino);
    }
}

/// A volume whose directories name what they named, and whose names lead where
/// they led, is as orderly.
pub proof fn kept_in_order(s: FsView, t: FsView, pl: Seq<Place>, live: Set<u32>)
    requires
        tree_ok(s, pl, live),
        orderly(s, live),
        forall|x: u32| #[trigger]
            live.contains(x) ==> is_dir(t, x) == is_dir(s, x) && (forall|f: Entry| #[trigger]
                dir_entries(t, x).0.contains(f) ==> dir_entries(s, x).0.contains(f)),
        ways_kept(s, t, live),
    ensures
        orderly(t, live),
{
    assert forall|x: u32, f: Entry| #[trigger] entry_in(t, live, x, f) implies entry_in(s, live, x, f)
        && sits(t, x, f) by {
        assert(entry_in(s, live, x, f));
        entry_lives(s, pl, live, x, f);
        assert(sits(s, x, f));
        if f.name == seq![46u8, 46u8] && x != 2 {
            assert(seq![46u8].len() != f.name.len());
            let m = choose|m: Seq<u8>|
                !is_dot_name(m) && #[trigger] lookup_dir(s, f.ino, m) == Ok::<(u32, u8), FsErr>(
                    (x, 2),
                );
            assert(lookup_dir(t, f.ino, m) == Ok::<(u32, u8), FsErr>((x, 2)));
        }
    }
}

/// A removal leaves the volume in order.
pub proof fn lessened_in_order(
    s: FsView,
    t: FsView,
    pl: Seq<Place>,
    live: Set<u32>,
    p: u32,
    n: Seq<u8>,
    ino: u32,
)
    requires
        orderly(s, live),
        lessened(s, t, live.remove(ino), p, n),
        tree_ok(t, pl, live.remove(ino)),
        lookup_dir(s, p, n) is Ok,
        (lookup_dir(s, p, n)->Ok_0).0 == ino,
    ensures
        orderly(t, live.remove(ino)),
{
    let rest = live.remove(ino);
    assert forall|x: u32, f: Entry| #[trigger] entry_in(t, rest, x, f) implies entry_in(s, live, x, f)
        && sits(t, x, f) by {
        assert(rest.contains(x));
        assert(entry_in(s, live, x, f));
        entry_lives(t, pl, rest, x, f);
        assert(sits(s, x, f));
        if f.name == seq![46u8, 46u8] && x != 2 {
            assert(seq![46u8].len() != f.name.len());
            let m = choose|m: Seq<u8>|
                !is_dot_name(m) && #[trigger] lookup_dir(s, f.ino, m) == Ok::<(u32, u8), FsErr>(
                    (x, 2),
                );
            assert(lookup_dir(t, f.ino, m) == Ok::<(u32, u8), FsErr>((x, 2)));
        }
    }
}

/// Moving a file, or a directory within its own, leaves the volume in order.
pub proof fn moved_in_order(
    s: FsView,
    t: FsView,
    pl: Seq<Place>,
    live: Set<u32>,
    op: u32,
    on: Seq<u8>,
    np: u32,
    e: Entry,
)
    requires
        tree_ok(s, pl, live),
        orderly(s, live),
        live.contains(op),
        is_dir(s, op),
        lookup_dir(s, op, on) == Ok::<(u32, u8), FsErr>((e.ino, e.ftype)),
        !is_dot_name(on),
        !is_dot_name(e.name),
        e.ftype != 2 || op == np,
        added(s, t, live, np, e),
        times(dir_entries(t, op).0, on) == 0,
        lookup_dir(t, np, e.name) == Ok::<(u32, u8), FsErr>((e.ino, e.ftype)),
        forall|x: u32, m: Seq<u8>|
            live.contains(x) && !(x == op && m == on) && lookup_dir(s, x, m) is Ok
                ==> #[trigger] lookup_dir(t, x, m) == lookup_dir(s, x, m),
    ensures
        orderly(t, live),
{
    let g = Entry { ino: e.ino, ftype: e.ftype, name: on };
    found_in(s, live, op, on);
    assert(sits(s, op, g));
    assert forall|x: u32, f: Entry| #[trigger] entry_in(t, live, x, f) implies (x == np && f == e)
        || entry_in(s, live, x, f) by {
        assert(live.contains(x));
    }
    assert forall|x: u32, f: Entry| #[trigger] entry_in(t, live, x, f) implies sits(t, x, f) by {
        if entry_in(s, live, x, f) {
            entry_lives(s, pl, live, x, f);
            assert(sits(s, x, f));
            if f.name == seq![46u8, 46u8] && x != 2 {
                assert(seq![46u8].len() != f.name.len());
                let m = choose|m: Seq<u8>|
                    !is_dot_name(m) && #[trigger] lookup_dir(s, f.ino, m) == Ok::<(u32, u8), FsErr>(
                        (x, 2),
                    );
                if f.ino == op && m == on {
                    assert(lookup_dir(t, f.ino, e.name) == Ok::<(u32, u8), FsErr>((x, 2)));
                } else {
                    assert(lookup_dir(t, f.ino, m) == Ok::<(u32, u8), FsErr>((x, 2)));
                }
            }
        }
    }
    assert forall|x: u32, f: Entry| #[trigger] entry_in(t, live, x, f) && entry_in(s, live, x, f)
        && !is_dot_name(f.name) implies f.ino != e.ino by {
        if f.ino == e.ino {
            assert(x == op && f.name == on);
            counted_if_there(dir_entries(t, op).0, f);
        }
    }
}

/// Each name in a fresh root directory leads to its directory.
pub proof fn seed_is_found(s: FsView, inos: Seq<u32>, k: int)
    requires
        inos.len() == 6,
        is_dir(s, 2),
        0 <= k < 6,
        dir_entries(s, 2).0.contains(seed_entry(inos, k)),
        forall|f: Entry| #[trigger]
            dir_entries(s, 2).0.contains(f) ==> exists|j: int|
                0 <= j < 6 && f == #[trigger] seed_entry(inos, j),
    ensures
        lookup_dir(s, 2, seeds()[k]) == Ok::<(u32, u8), FsErr>((inos[k], 2)),
{
    let es = dir_entries(s, 2).0;
    entries_of_dir(s, 2);
    lookup_is_named(s, 2, seeds()[k]);
    counted_if_there(es, seed_entry(inos, k));
    found_if_there(es, seeds()[k]);
    named_is_there(es, seeds()[k]);
    let f = entry_named(es, seeds()[k])->0;
    assert(es.contains(f));
    let j = choose|j: int| 0 <= j < 6 && f == #[trigger] seed_entry(inos, j);
    seeds_differ(j, k);
}

// ---------- the commands ----------

/// The commit that ends a command leaves the volume in order.
pub proof fn commit_in_order(s: FsView, pl: Seq<Place>, live: Set<u32>)
    requires
        tree_ok(s, pl, live),
        orderly(s, live),
        jbd_commit(s).1 is Ok,
    ensures
        orderly(jbd_commit(s).0, live),
{
    let t = jbd_commit(s).0;
    commit_keeps_files(s, pl, live, Seq::empty(), 0);
    assert forall|x: u32| #[trigger] live.contains(x) implies is_dir(t, x) == is_dir(s, x)
        && dir_entries(t, x) == dir_entries(s, x) && (forall|m: Seq<u8>| #[trigger]
        lookup_dir(t, x, m) == lookup_dir(s, x, m)) by {
        dir_same(s, t, x);
        kept_uses(s, t, x, 0);
    }
    kept_in_order(s, t, pl, live);
}

/// The last name of the path is neither `.` nor `..`.
pub open spec fn plain(s: FsView, path: Seq<char>) -> bool {
    target(s, path) matches Ok((_, n)) ==> !is_dot_name(n)
}

/// Writing a file leaves the volume in order.
pub proof fn writing_in_order(
    s: FsView,
    pl: Seq<Place>,
    live: Set<u32>,
    path: Seq<char>,
    data: Seq<u8>,
)
    requires
        tree_ok(s, pl, live),
        orderly(s, live),
        plain(s, path),
        write_file(s, path, data).1 is Ok,
    ensures
        orderly(write_file(s, path, data).0, live.insert(written_inode(s, path))),
{
    file_written(s, pl, live, path, data);
    let t = write_file(s, path, data).0;
    let ino = written_inode(s, path);
    let (p, n) = target(s, path)->Ok_0;
    let e = Entry { ino, ftype: 1, name: n };
    target_kept(s, t, pl, live, path);
    if find_file(s, path) is Ok {
        found_lives(s, pl, live, p, n);
        found_in(s, live, p, n);
        assert(live.insert(ino) =~= live);
        kept_in_order(s, t, pl, live);
    } else {
        added_in_order(s, t, pl, live, p, e);
    }
}

/// Making an empty file leaves the volume in order.
pub proof fn touch_in_order(s: FsView, pl: Seq<Place>, live: Set<u32>, path: Seq<char>)
    requires
        tree_ok(s, pl, live),
        orderly(s, live),
        plain(s, path),
        touch(s, path).1 is Ok,
    ensures
        ({
            let (p, n) = target(s, path)->Ok_0;
            orderly(
                touch(s, path).0,
                if lookup_dir(s, p, n) is Ok {
                    live
                } else {
                    live.insert(new_ino(s))
                },
            )
        }),
{
    let t = touch(s, path).0;
    let (p, n) = target(s, path)->Ok_0;
    touched_file_is_there(s, pl, live, path, 0);
    if lookup_dir(s, p, n) is Err {
        target_kept(s, t, pl, live, path);
        added_in_order(s, t, pl, live, p, Entry { ino: new_ino(s), ftype: 1, name: n });
    }
}

/// Making a directory leaves the volume in order.
pub proof fn mkdir_in_order(s: FsView, pl: Seq<Place>, live: Set<u32>, path: Seq<char>)
    requires
        tree_ok(s, pl, live),
        orderly(s, live),
        plain(s, path),
        mkdir(s, path).1 is Ok,
    ensures
        orderly(mkdir(s, path).0, live.insert(new_ino(s))),
{
    let t = mkdir(s, path).0;
    let (p, n) = target(s, path)->Ok_0;
    made_directory_is_there(s, pl, live, path);
    assert(target(s, path) is Ok) by {
        reveal(mkdir);
    }
    target_kept(s, t, pl, live, path);
    added_in_order(s, t, pl, live, p, Entry { ino: new_ino(s), ftype: 2, name: n });
}

/// A file is moved, or a directory within its own; the old name stands once, and
/// neither name is `.` or `..`.
pub open spec fn moves_in_order(s: FsView, from: Seq<char>, to: Seq<char>) -> bool {
    let (op, on) = target(s, from)->Ok_0;
    let (np, nn) = target(s, to)->Ok_0;
    &&& plain(s, from)
    &&& plain(s, to)
    &&& op == np || (lookup_dir(s, op, on)->Ok_0).1 != 2
    &&& times(dir_entries(s, op).0, on) <= 1
}

/// Such a move leaves the volume in order.
pub proof fn move_in_order(
    s: FsView,
    pl: Seq<Place>,
    live: Set<u32>,
    from: Seq<char>,
    to: Seq<char>,
)
    requires
        tree_ok(s, pl, live),
        orderly(s, live),
        mv(s, from, to).1 is Ok,
        moves_in_order(s, from, to),
    ensures
        orderly(mv(s, from, to).0, live),
{
    moving_keeps_the_tree(s, pl, live, from, to);
    let (op, on) = target(s, from)->Ok_0;
    let (np, nn) = target(s, to)->Ok_0;
    let (ino, ftype) = lookup_dir(s, op, on)->Ok_0;
    found_lives(s, pl, live, op, on);
    moved_in_order(s, mv(s, from, to).0, pl, live, op, on, np, Entry { ino, ftype, name: nn });
}

} // verus!
