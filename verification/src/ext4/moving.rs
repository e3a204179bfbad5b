//! What renaming a file promises: the new path leads to what the old one led
//! to, and the old one leads nowhere.

use vstd::prelude::*;
use crate::ext4::counts::steady;
use crate::ext4::entries::times;
use crate::ext4::files::{file_same, kept_sound, kept_uses};
use crate::ext4::model::{
    dir_add, dir_del, dir_entries, find_file, inode_load, lookup_dir, mv, read_block, read_file,
    target, Entry,
};
use crate::ext4::naming::{dir_ready, name_is_entered, named_in};
use crate::ext4::removal::{name_is_removed, unnamed_in};
use crate::ext4::space::{in_use, inode_in_use, is_system, Place};
use crate::ext4::tree::{
    added, dir_ok, dir_same, dirs_kept, entry_ok, found_lives, is_dir, node_kept, target_kept,
    target_led, tree_ok, uses, ways_kept,
};
use crate::fs::{FsErr, FsView};

verus! {

/// A directory of a sound volume can have names entered and removed.
proof fn ready(s: FsView, pl: Seq<Place>, live: Set<u32>, p: u32)
    requires
        tree_ok(s, pl, live),
        live.contains(p),
        is_dir(s, p),
    ensures
        dir_ready(s, pl, p),
{
    assert(inode_in_use(s, pl, p as int));
    assert(dir_ok(s, live, p));
}

/// What is known of a volume once the entries of directory `p` were changed:
/// each names what belongs to the tree.
spec fn relisted(s: FsView, t: FsView, pl: Seq<Place>, live: Set<u32>, p: u32) -> bool {
    &&& tree_ok(s, pl, live)
    &&& live.contains(p)
    &&& is_dir(s, p)
    &&& steady(s, t)
    &&& dir_ready(t, pl, p)
    &&& forall|b: int| in_use(s, pl, b) ==> #[trigger] in_use(t, pl, b)
    &&& forall|x: int| #[trigger] inode_in_use(t, pl, x) == inode_in_use(s, pl, x)
    &&& forall|x: u32|
        #![trigger live.contains(x)]
        live.contains(x) && x != p ==> node_kept(s, t, x)
    &&& forall|b: int| #[trigger] uses(t, p, b) ==> uses(s, p, b) || !in_use(s, pl, b)
    &&& forall|k: int|
        0 <= k < dir_entries(t, p).0.len() ==> entry_ok(s, live, #[trigger] dir_entries(t, p).0[k])
}

proof fn kind_kept(s: FsView, t: FsView, pl: Seq<Place>, live: Set<u32>, p: u32, x: u32)
    requires
        relisted(s, t, pl, live, p),
        live.contains(x),
    ensures
        is_dir(t, x) == is_dir(s, x),
        inode_load(t, x) is Ok,
{
    if x != p {
        kept_uses(s, t, x, 0);
    }
}

/// The volume is as sound as it was.
proof fn relisted_tree(s: FsView, t: FsView, pl: Seq<Place>, live: Set<u32>, p: u32)
    requires
        relisted(s, t, pl, live, p),
    ensures
        tree_ok(t, pl, live),
{
    kind_kept(s, t, pl, live, p, 2);
    assert forall|x: u32| #[trigger] live.contains(x) implies inode_in_use(t, pl, x as int)
        && inode_load(t, x) is Ok by {
        assert(inode_in_use(s, pl, x as int));
        kind_kept(s, t, pl, live, p, x);
    }
    assert forall|x: u32, b: int| live.contains(x) && #[trigger] uses(t, x, b) implies in_use(t, pl, b)
        && !is_system(t, pl, b) by {
        if x != p {
            kept_uses(s, t, x, b);
            assert(uses(s, x, b));
            assert(in_use(s, pl, b) && !is_system(s, pl, b));
        }
    }
    assert forall|x: u32, y: u32, b: int|
        live.contains(x) && live.contains(y) && x != y && #[trigger] uses(t, x, b) implies !#[trigger] uses(
        t,
        y,
        b,
    ) by {
        if x != p {
            kept_uses(s, t, x, b);
            assert(uses(s, x, b));
            assert(in_use(s, pl, b));
            assert(!uses(s, y, b));
        }
        if y != p {
            kept_uses(s, t, y, b);
            if uses(s, y, b) {
                assert(in_use(s, pl, b));
                assert(!uses(s, x, b));
            }
        }
    }
    assert forall|x: u32| #[trigger] live.contains(x) && is_dir(t, x) implies dir_ok(t, live, x) by {
        kind_kept(s, t, pl, live, p, x);
        assert(dir_ok(s, live, x));
        if x != p {
            dir_same(s, t, x);
            kept_sound(s, t, x);
        }
        assert forall|k: int| 0 <= k < dir_entries(t, x).0.len() implies entry_ok(
            t,
            live,
            #[trigger] dir_entries(t, x).0[k],
        ) by {
            let f = dir_entries(t, x).0[k];
            if x != p {
                assert(entry_ok(s, live, dir_entries(s, x).0[k]));
            }
            assert(entry_ok(s, live, f));
            kind_kept(s, t, pl, live, p, f.ino);
        }
    }
}

/// A second name is entered for an inode of the tree.
proof fn named_again(s: FsView, t: FsView, pl: Seq<Place>, live: Set<u32>, p: u32, e: Entry)
    requires
        tree_ok(s, pl, live),
        live.contains(p),
        is_dir(s, p),
        entry_ok(s, live, e),
        named_in(s, t, pl, p, e),
    ensures
        relisted(s, t, pl, live, p),
{
    assert forall|x: u32|
        #![trigger live.contains(x)]
        live.contains(x) && x != p implies node_kept(s, t, x) by {
        assert(inode_in_use(s, pl, x as int));
        assert(inode_load(t, x) == inode_load(s, x));
        assert forall|b: int| uses(s, x, b) implies #[trigger] read_block(t, b) == read_block(s, b) by {
            assert(!uses(s, p, b));
            assert(in_use(s, pl, b) && !is_system(s, pl, b));
        }
    }
    assert(dir_ok(s, live, p));
    assert forall|k: int| 0 <= k < dir_entries(t, p).0.len() implies entry_ok(
        s,
        live,
        #[trigger] dir_entries(t, p).0[k],
    ) by {
        let f = dir_entries(t, p).0[k];
        assert(dir_entries(t, p).0.contains(f));
        if f != e {
            let es = dir_entries(s, p).0;
            let l = choose|l: int| 0 <= l < es.len() && es[l] == f;
            assert(entry_ok(s, live, dir_entries(s, p).0[l]));
        }
    }
}

/// A name is removed, and what it led to stays.
proof fn name_dropped(s: FsView, t: FsView, pl: Seq<Place>, live: Set<u32>, p: u32, n: Seq<u8>)
    requires
        tree_ok(s, pl, live),
        live.contains(p),
        is_dir(s, p),
        unnamed_in(s, t, pl, p, n),
    ensures
        relisted(s, t, pl, live, p),
{
    assert forall|x: u32|
        #![trigger live.contains(x)]
        live.contains(x) && x != p implies node_kept(s, t, x) by {
        assert(inode_in_use(s, pl, x as int));
        assert(inode_load(t, x) == inode_load(s, x));
        assert forall|b: int| uses(s, x, b) implies #[trigger] read_block(t, b) == read_block(s, b) by {
            assert(!uses(s, p, b));
            assert(!is_system(s, pl, b));
        }
    }
    assert(dir_ok(s, live, p));
    assert forall|k: int| 0 <= k < dir_entries(t, p).0.len() implies entry_ok(
        s,
        live,
        #[trigger] dir_entries(t, p).0[k],
    ) by {
        let f = dir_entries(t, p).0[k];
        assert(dir_entries(t, p).0.contains(f));
        let es = dir_entries(s, p).0;
        let l = choose|l: int| 0 <= l < es.len() && es[l] == f;
        assert(entry_ok(s, live, dir_entries(s, p).0[l]));
    }
}

/// The parts of a renaming that went through.
proof fn mv_parts(s: FsView, from: Seq<char>, to: Seq<char>)
    requires
        mv(s, from, to).1 is Ok,
    ensures
        target(s, from) is Ok,
        target(s, to) is Ok,
        ({
            let (op, on) = target(s, from)->Ok_0;
            let (np, nn) = target(s, to)->Ok_0;
            let (ino, ft) = lookup_dir(s, op, on)->Ok_0;
            let a = dir_add(s, np, nn, ino, ft);
            let d = dir_del(a.0, op, on);
            &&& lookup_dir(s, op, on) is Ok
            &&& lookup_dir(s, np, nn) is Err
            &&& a.1 is Ok && d.1 is Ok
            &&& mv(s, from, to).0 == d.0
        }),
{
    reveal(mv);
}

/// The two steps of a renaming, on a sound volume.
#[verifier::spinoff_prover]
proof fn renamed(
    s: FsView,
    pl: Seq<Place>,
    live: Set<u32>,
    op: u32,
    on: Seq<u8>,
    np: u32,
    e: Entry,
)
    requires
        tree_ok(s, pl, live),
        live.contains(op),
        live.contains(np),
        is_dir(s, np),
        lookup_dir(s, op, on) == Ok::<(u32, u8), FsErr>((e.ino, e.ftype)),
        lookup_dir(s, np, e.name) is Err,
        e.name.len() <= 255,
        e.ino != 0,
        dir_add(s, np, e.name, e.ino, e.ftype).1 is Ok,
        dir_del(dir_add(s, np, e.name, e.ino, e.ftype).0, op, on).1 is Ok,
    ensures
        ({
            let s1 = dir_add(s, np, e.name, e.ino, e.ftype).0;
            let t = dir_del(s1, op, on).0;
            &&& tree_ok(t, pl, live)
            &&& steady(s, t)
            &&& lookup_dir(t, np, e.name) == Ok::<(u32, u8), FsErr>((e.ino, e.ftype))
            &&& added(s, t, live, np, e)
            &&& times(dir_entries(s, op).0, on) <= 1 ==> times(dir_entries(t, op).0, on) == 0
            &&& forall|x: u32, m: Seq<u8>|
                live.contains(x) && !(x == op && m == on) && lookup_dir(s, x, m) is Ok
                    ==> #[trigger] lookup_dir(t, x, m) == lookup_dir(s, x, m)
            &&& times(dir_entries(s, op).0, on) <= 1 ==> lookup_dir(t, op, on) == Err::<
                (u32, u8),
                FsErr,
            >(FsErr::NotFound)
            &&& forall|x: u32| #[trigger] live.contains(x) && !is_dir(s, x) ==> node_kept(s, t, x)
        }),
{
    found_lives(s, pl, live, op, on);
    ready(s, pl, live, np);
    name_is_entered(s, pl, np, e);
    let s1 = dir_add(s, np, e.name, e.ino, e.ftype).0;
    named_again(s, s1, pl, live, np, e);
    relisted_tree(s, s1, pl, live, np);
    kind_kept(s, s1, pl, live, np, op);
    ready(s1, pl, live, op);
    name_is_removed(s1, pl, op, on);
    let t = dir_del(s1, op, on).0;
    if np == op {
        assert(times(dir_entries(s1, op).0, on) == times(dir_entries(s, op).0, on));
    } else {
        dir_same(s, s1, op);
    }
    name_dropped(s1, t, pl, live, op, on);
    relisted_tree(s1, t, pl, live, op);
    assert forall|x: u32, m: Seq<u8>|
        live.contains(x) && !(x == op && m == on) && lookup_dir(s, x, m) is Ok implies #[trigger] lookup_dir(
        t,
        x,
        m,
    ) == lookup_dir(s, x, m) by {
        if x != np {
            dir_same(s, s1, x);
        }
        assert(lookup_dir(s1, x, m) == lookup_dir(s, x, m));
        if x != op {
            dir_same(s1, t, x);
        }
    }
    assert(added(s, t, live, np, e)) by {
        assert forall|x: u32| #[trigger] live.contains(x) implies is_dir(t, x) == is_dir(s, x) && (
        forall|f: Entry| #[trigger]
            dir_entries(t, x).0.contains(f) ==> dir_entries(s, x).0.contains(f) || (x == np && f == e)) by {
            kind_kept(s, s1, pl, live, np, x);
            kind_kept(s1, t, pl, live, op, x);
            if x != np {
                dir_same(s, s1, x);
            }
            if x != op {
                dir_same(s1, t, x);
            }
        }
    }
    assert(!(np == op && e.name == on));
    if np != op {
        dir_same(s1, t, np);
    }
    assert(lookup_dir(t, np, e.name) == lookup_dir(s1, np, e.name));
    assert forall|x: u32| #[trigger] live.contains(x) && !is_dir(s, x) implies node_kept(s, t, x) by {
        assert(node_kept(s, s1, x));
        kept_uses(s, s1, x, 0);
        assert(node_kept(s1, t, x));
        assert forall|b: int| uses(s, x, b) implies #[trigger] read_block(t, b) == read_block(s, b) by {
            kept_uses(s, s1, x, b);
            assert(read_block(s1, b) == read_block(s, b));
        }
    }
}

/// Moving a file or a directory leaves a sound volume.
pub proof fn moving_keeps_the_tree(
    s: FsView,
    pl: Seq<Place>,
    live: Set<u32>,
    from: Seq<char>,
    to: Seq<char>,
)
    requires
        tree_ok(s, pl, live),
        mv(s, from, to).1 is Ok,
    ensures
        tree_ok(mv(s, from, to).0, pl, live),
        steady(s, mv(s, from, to).0),
        target(s, from) is Ok,
        target(s, to) is Ok,
        ({
            let t = mv(s, from, to).0;
            let (op, on) = target(s, from)->Ok_0;
            let (np, nn) = target(s, to)->Ok_0;
            let (ino, ftype) = lookup_dir(s, op, on)->Ok_0;
            &&& live.contains(op) && live.contains(np) && is_dir(s, np)
            &&& lookup_dir(s, op, on) is Ok
            &&& lookup_dir(s, np, nn) is Err
            &&& lookup_dir(t, np, nn) == Ok::<(u32, u8), FsErr>((ino, ftype))
            &&& added(s, t, live, np, Entry { ino, ftype, name: nn })
            &&& times(dir_entries(s, op).0, on) <= 1 ==> times(dir_entries(t, op).0, on) == 0
            &&& forall|x: u32, m: Seq<u8>|
                live.contains(x) && !(x == op && m == on) && lookup_dir(s, x, m) is Ok
                    ==> #[trigger] lookup_dir(t, x, m) == lookup_dir(s, x, m)
        }),
{
    mv_parts(s, from, to);
    let (op, on) = target(s, from)->Ok_0;
    let (np, nn) = target(s, to)->Ok_0;
    let (ino, ftype) = lookup_dir(s, op, on)->Ok_0;
    assert(ways_kept(s, s, live));
    target_kept(s, s, pl, live, from);
    target_kept(s, s, pl, live, to);
    found_lives(s, pl, live, op, on);
    assert(nn.len() <= 255) by {
        reveal(target);
    }
    assert(inode_in_use(s, pl, ino as int));
    renamed(s, pl, live, op, on, np, Entry { ino, ftype, name: nn });
}

/// A file that was renamed: on a sound volume the new path gives what the old
/// one gave, the volume is sound, and, where the old name stands once, the old
/// path leads nowhere.
#[verifier::spinoff_prover]
pub proof fn renamed_file_is_found(
    s: FsView,
    pl: Seq<Place>,
    live: Set<u32>,
    from: Seq<char>,
    to: Seq<char>,
    room: int,
)
    requires
        tree_ok(s, pl, live),
        mv(s, from, to).1 is Ok,
        find_file(s, from) is Ok,
    ensures
        ({
            let t = mv(s, from, to).0;
            let (op, on) = target(s, from)->Ok_0;
            &&& tree_ok(t, pl, live)
            &&& find_file(t, to) == find_file(s, from)
            &&& read_file(t, to, room) == read_file(s, from, room)
            &&& times(dir_entries(s, op).0, on) <= 1 ==> find_file(t, from) == Err::<u32, FsErr>(
                FsErr::NotFound,
            )
        }),
{
    mv_parts(s, from, to);
    let (op, on) = target(s, from)->Ok_0;
    let (np, nn) = target(s, to)->Ok_0;
    let ino = find_file(s, from)->Ok_0;
    assert(ways_kept(s, s, live));
    target_kept(s, s, pl, live, from);
    target_kept(s, s, pl, live, to);
    found_lives(s, pl, live, op, on);
    assert(nn.len() <= 255) by {
        reveal(target);
    }
    assert(inode_in_use(s, pl, ino as int));
    let e = Entry { ino, ftype: 1, name: nn };
    renamed(s, pl, live, op, on, np, e);
    let t = mv(s, from, to).0;
    assert(dirs_kept(s, t, live)) by {
        assert forall|x: u32, m: Seq<u8>|
            live.contains(x) && (lookup_dir(s, x, m) matches Ok(y) && y.1 == 2) implies #[trigger] lookup_dir(
            t,
            x,
            m,
        ) == lookup_dir(s, x, m) by {
            assert(!(x == op && m == on));
        }
    }
    target_led(s, t, pl, live, from);
    target_led(s, t, pl, live, to);
    assert(node_kept(s, t, ino));
    file_same(s, t, ino, room);
}

} // verus!
