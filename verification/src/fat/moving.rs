//! Moving a file or a directory of a FAT volume: the new entry is made, then
//! the old one is wiped.

use vstd::prelude::*;
use crate::fat::erasing::{holds_name, others_found};
use crate::fat::keeping::{
    entry_made, entry_of, found_is_entry, hung, hung_grown, is_entry, is_free, kept_at, listed_in,
    name_found, named_once, names_dir, put_is_found, slot_same, slots_kept, stood, wipe_step,
};
use crate::fat::laws::{target_kept, ways_kept};
use crate::fat::model::{
    add_entry, dir_list, entry_at, find_pos, look_up, mv, parent_of, read_clus, read_fat, target,
    wipe_entry, Entry,
};
use crate::fat::slots::name_at;
use crate::fat::sound::{entry_known, list_set, names_ok, sound, sound_tree, spot_reached, Chains};
use crate::fat::table::{chain_in_use, chain_ok, in_range, roomy};
use crate::fat::tidy::{ends_at, full_at, reached};
use crate::fs::{same_but_disk, FatInfo, FsErr, FsView};

verus! {

/// An entry was put into directory `nd` of `s`, which gave `u`, and one taken
/// from directory `od`, which gave `t`.
pub open spec fn moved(
    s: FsView,
    u: FsView,
    t: FsView,
    i: FatInfo,
    dirs: Chains,
    nd: u32,
    b1: Seq<Entry>,
    e: Entry,
    a1: Seq<Entry>,
    od: u32,
    b2: Seq<Entry>,
    x: Entry,
    a2: Seq<Entry>,
) -> bool {
    &&& dirs.contains_key(nd)
    &&& dirs.contains_key(od)
    &&& list_set(s, u, i, dirs, nd, b1, Seq::empty(), seq![e], a1)
    &&& list_set(u, t, i, dirs, od, b2, seq![x], Seq::empty(), a2)
    &&& e == Entry { name: e.name, ..x }
    &&& od == nd ==> e.name != x.name
}

/// Where what an entry names was named before the move.
proof fn origin(
    s: FsView,
    u: FsView,
    t: FsView,
    i: FatInfo,
    dirs: Chains,
    nd: u32,
    b1: Seq<Entry>,
    e: Entry,
    a1: Seq<Entry>,
    od: u32,
    b2: Seq<Entry>,
    x: Entry,
    a2: Seq<Entry>,
    c: u32,
    k: int,
) -> (r: (u32, int))
    requires
        moved(s, u, t, i, dirs, nd, b1, e, a1, od, b2, x, a2),
        is_entry(t, i, dirs, c, k),
    ensures
        is_entry(s, i, dirs, r.0, r.1),
        entry_of(t, i, c, k) == (Entry {
            name: entry_of(t, i, c, k).name,
            ..entry_of(s, i, r.0, r.1)
        }),
        ({
            let lx = if od == nd && b2.len() >= b1.len() {
                b2.len() - 1
            } else {
                b2.len() as int
            };
            let l = if c == od && k >= b2.len() {
                k + 1
            } else {
                k
            };
            r == (if c == nd && l == b1.len() {
                (od, lx)
            } else if c == nd && l > b1.len() {
                (c, l - 1)
            } else {
                (c, l)
            })
        }),
{
    assert(dir_list(u, i, od as int)[b2.len() as int] == x);
    assert(dir_list(u, i, nd as int)[b1.len() as int] == e);
    let lx = stood(s, u, i, dirs, nd, b1, Seq::empty(), seq![e], a1, od, b2.len() as int);
    let l = stood(u, t, i, dirs, od, b2, seq![x], Seq::empty(), a2, c, k);
    if c == nd && l == b1.len() {
        (od, lx)
    } else {
        let m = stood(s, u, i, dirs, nd, b1, Seq::empty(), seq![e], a1, c, l);
        (c, m)
    }
}

/// The names are in order after a move.
proof fn names_moved(
    s: FsView,
    u: FsView,
    t: FsView,
    i: FatInfo,
    dirs: Chains,
    files: Chains,
    nd: u32,
    b1: Seq<Entry>,
    e: Entry,
    a1: Seq<Entry>,
    od: u32,
    b2: Seq<Entry>,
    x: Entry,
    a2: Seq<Entry>,
)
    requires
        names_ok(s, i, dirs, files),
        moved(s, u, t, i, dirs, nd, b1, e, a1, od, b2, x, a2),
    ensures
        names_ok(t, i, dirs, files),
{
    assert(dir_list(u, i, od as int)[b2.len() as int] == x);
    assert(dir_list(u, i, nd as int)[b1.len() as int] == e);
    assert forall|c: u32, k: int| dirs.contains_key(c) && 0 <= k < dir_list(t, i, c as int).len() implies entry_known(
        i,
        dirs,
        files,
        #[trigger] dir_list(t, i, c as int)[k],
    ) by {
        let (d, l) = origin(s, u, t, i, dirs, nd, b1, e, a1, od, b2, x, a2, c, k);
        assert(entry_known(i, dirs, files, dir_list(s, i, d as int)[l]));
    }
    assert forall|c: u32, k: int, d: u32, l: int|
        dirs.contains_key(c) && 0 <= k < dir_list(t, i, c as int).len() && dirs.contains_key(d) && 0
            <= l < dir_list(t, i, d as int).len() && (#[trigger] dir_list(t, i, c as int)[k]).cluster
            >= 2 && dir_list(t, i, c as int)[k].cluster == (#[trigger] dir_list(
            t,
            i,
            d as int,
        )[l]).cluster implies c == d && k == l by {
        let (c0, k0) = origin(s, u, t, i, dirs, nd, b1, e, a1, od, b2, x, a2, c, k);
        let (d0, l0) = origin(s, u, t, i, dirs, nd, b1, e, a1, od, b2, x, a2, d, l);
        named_once(s, i, dirs, files, c0, k0, d0, l0);
        assert(c0 == d0 && k0 == l0);
    }
}

/// A slot that holds a name is reached and holds it while used slots are kept.
proof fn slot_stays(
    s: FsView,
    t: FsView,
    i: FatInfo,
    ch: Seq<int>,
    more: Seq<int>,
    n: Seq<u8>,
    a: int,
    j: int,
    slot: int,
)
    requires
        s.disk.wf(),
        chain_ok(s, i, ch),
        ch.len() <= more.len(),
        forall|p: int| 0 <= p < ch.len() ==> #[trigger] more[p] == ch[p],
        reached(s, i, ch, a, j, slot),
        holds_name(read_clus(s, i, ch[a], j)->0, slot, n),
        forall|x: int, q: int|
            in_range(i, x) && read_fat(s, i, x) != 0 && 0 <= q < i.sec_per_clus ==> #[trigger] kept_at(
                s,
                t,
                i,
                x,
                q,
            ),
    ensures
        reached(t, i, more, a, j, slot),
        holds_name(read_clus(t, i, ch[a], j)->0, slot, n),
        entry_at(read_clus(t, i, ch[a], j)->0, 32 * slot) == entry_at(
            read_clus(s, i, ch[a], j)->0,
            32 * slot,
        ),
{
    assert forall|p: int, q: int| 0 <= p < ch.len() && 0 <= q < i.sec_per_clus implies #[trigger] kept_at(
        s,
        t,
        i,
        ch[p],
        q,
    ) && in_range(i, ch[p]) by {
        chain_in_use(s, i, ch, p);
        assert(in_range(i, ch[p]));
    }
    assert forall|p: int, q: int| 0 <= p < a && 0 <= q < i.sec_per_clus implies #[trigger] full_at(
        t,
        i,
        more[p],
        q,
    ) by {
        assert(full_at(s, i, ch[p], q));
        assert(more[p] == ch[p]);
        assert(kept_at(s, t, i, ch[p], q));
    }
    assert forall|q: int| 0 <= q < j implies #[trigger] full_at(t, i, more[a], q) by {
        assert(full_at(s, i, ch[a], q));
        assert(more[a] == ch[a]);
        assert(kept_at(s, t, i, ch[a], q));
    }
    assert(kept_at(s, t, i, ch[a], j));
    let b = read_clus(s, i, ch[a], j)->0;
    let c = read_clus(t, i, ch[a], j)->0;
    assert(slots_kept(b, c));
    assert(!is_free(b, slot));
    assert(slot_same(b, c, slot));
    let o = 32 * slot;
    assert forall|m: int| 0 <= m < 32 implies #[trigger] c[o + m] == b[o + m] by {
        assert(c.subrange(o, o + 32)[m] == b.subrange(o, o + 32)[m]);
    }
    assert(c[o + 0] == b[o + 0]);
    assert(c[o + 11] == b[o + 11]);
    assert(name_at(c, slot) =~= name_at(b, slot)) by {
        assert forall|m: int| 0 <= m < 11 implies name_at(c, slot)[m] == name_at(b, slot)[m] by {
            assert(c[o + m] == b[o + m]);
        }
    }
    assert(entry_at(c, o).name =~= entry_at(b, o).name);
    assert(c[o + 20] == b[o + 20] && c[o + 21] == b[o + 21]);
    assert(c[o + 26] == b[o + 26] && c[o + 27] == b[o + 27]);
    assert(c[o + 28] == b[o + 28] && c[o + 29] == b[o + 29]);
    assert(c[o + 30] == b[o + 30] && c[o + 31] == b[o + 31]);
    assert forall|r: int| 0 <= r < slot implies !#[trigger] ends_at(c, r) by {
        assert(!ends_at(b, r));
    }
    assert(more[a] == ch[a]);
}

/// What is moved is a file, or stays in its directory.
pub open spec fn stays_below(s: FsView, i: FatInfo, from: Seq<char>, to: Seq<char>) -> bool {
    let (od, on) = target(s, i, from)->Ok_0;
    let (nd, nn) = target(s, i, to)->Ok_0;
    od == nd || !look_up(s, i, od as int, on)->Ok_0.is_dir()
}

/// Where an entry stands once another is gone.
proof fn one_gone(before: Seq<Entry>, x: Entry, after: Seq<Entry>, n: int)
    requires
        0 <= n < before.len() + 1 + after.len(),
        n != before.len(),
    ensures
        (before + Seq::<Entry>::empty() + after)[if n > before.len() {
            n - 1
        } else {
            n
        }] == (before + seq![x] + after)[n],
        n > before.len() ==> n - 1 < (before + Seq::<Entry>::empty() + after).len(),
        n < before.len() ==> n < (before + Seq::<Entry>::empty() + after).len(),
{
    assert(before + Seq::<Entry>::empty() + after =~= before + after);
}

/// The directories are named by those above after such a move.
proof fn hung_moved(
    s: FsView,
    u: FsView,
    t: FsView,
    i: FatInfo,
    dirs: Chains,
    nd: u32,
    b1: Seq<Entry>,
    e: Entry,
    a1: Seq<Entry>,
    od: u32,
    b2: Seq<Entry>,
    x: Entry,
    a2: Seq<Entry>,
)
    requires
        dirs.contains_key(i.root_clus),
        hung(s, i, dirs),
        moved(s, u, t, i, dirs, nd, b1, e, a1, od, b2, x, a2),
        od == nd || !x.is_dir(),
        forall|c: u32| #[trigger] dirs.contains_key(c) ==> dirs.contains_key(parent_of(s, i, c)),
    ensures
        hung(t, i, dirs),
{
    assert forall|c: u32| #[trigger] dirs.contains_key(c) && c != i.root_clus implies listed_in(
        t,
        i,
        parent_of(t, i, c),
        c,
    ) by {
        let q = parent_of(s, i, c);
        assert(dirs.contains_key(q));
        assert(listed_in(s, i, q, c));
        let k = choose|k: int|
            0 <= k < dir_list(s, i, q as int).len() && names_dir(
                #[trigger] dir_list(s, i, q as int)[k],
                c,
            );
        // in the middle, with the new entry
        let l = if q == nd && k >= b1.len() {
            k + 1
        } else {
            k
        };
        let ul = dir_list(u, i, q as int);
        let tl = dir_list(t, i, q as int);
        assert(parent_of(t, i, c) == q);
        if q == nd {
            assert(dir_list(s, i, q as int) == b1 + Seq::<Entry>::empty() + a1);
            assert(ul == b1 + seq![e] + a1);
            assert(b1 + Seq::<Entry>::empty() + a1 =~= b1 + a1);
            assert(ul.len() == b1.len() + 1 + a1.len());
        }
        assert(0 <= l < ul.len());
        assert(ul[l] == dir_list(s, i, q as int)[k]);
        if q == od {
            assert(ul == b2 + seq![x] + a2);
            assert(ul.len() == b2.len() + 1 + a2.len());
            assert(tl == b2 + Seq::<Entry>::empty() + a2);
        } else {
            assert(tl == ul);
        }
        if q == od && l == b2.len() {
            assert(dir_list(u, i, q as int)[l] == x);
            let n = b1.len() as int;
            assert(nd == od);
            assert(ul == b1 + seq![e] + a1);
            assert(ul[n] == e);
            assert(n != b2.len());
            let m = if n > b2.len() {
                n - 1
            } else {
                n
            };
            one_gone(b2, x, a2, n);
            assert(tl[m] == ul[n]);
            assert(names_dir(dir_list(t, i, q as int)[m], c));
        } else {
            let m = if q == od && l > b2.len() {
                l - 1
            } else {
                l
            };
            if q == od {
                one_gone(b2, x, a2, l);
            }
            assert(tl[m] == ul[l]);
            assert(names_dir(dir_list(t, i, q as int)[m], c));
        }
    }
}

/// What was entered is found under its name, once the old name is wiped too.
proof fn moved_is_found(
    s: FsView,
    u: FsView,
    t: FsView,
    i: FatInfo,
    dirs: Chains,
    nd: u32,
    b1: Seq<Entry>,
    e: Entry,
    a1: Seq<Entry>,
    od: u32,
    b2: Seq<Entry>,
    x: Entry,
    a2: Seq<Entry>,
)
    requires
        moved(s, u, t, i, dirs, nd, b1, e, a1, od, b2, x, a2),
        look_up(s, i, nd as int, e.name) is Err,
    ensures
        look_up(t, i, nd as int, e.name) == Ok::<Entry, FsErr>(e),
{
    assert(b1 + Seq::<Entry>::empty() + a1 =~= b1 + a1);
    put_is_found(b1, e, a1);
    if od == nd {
        let es = dir_list(u, i, od as int);
        let p = b2.len() as int;
        assert(es[p] == x);
        assert(b2 + Seq::<Entry>::empty() + a2 =~= es.remove(p));
        others_found(es, p, e.name);
    }
}

/// Moving a file or a directory leaves a sound volume, with the directories
/// and the files that it had. The new name stands for what the old one stood
/// for: the same kind of thing, in the same clusters, of the same size.
#[verifier::spinoff_prover]
pub proof fn moving_keeps_sound(
    s: FsView,
    i: FatInfo,
    dirs: Chains,
    files: Chains,
    from: Seq<char>,
    to: Seq<char>,
) -> (more: Chains)
    requires
        sound(s, i, dirs, files),
        mv(s, from, to).1 is Ok,
        roomy(s, i, 1),
    ensures
        same_but_disk(s, mv(s, from, to).0),
        sound(mv(s, from, to).0, i, more, files),
        hung(s, i, dirs) && stays_below(s, i, from, to) ==> hung(mv(s, from, to).0, i, more),
        forall|c: u32| #[trigger] more.contains_key(c) == dirs.contains_key(c),
        ({
            let (od, on) = target(s, i, from)->Ok_0;
            let (nd, nn) = target(s, i, to)->Ok_0;
            let e = look_up(s, i, od as int, on)->Ok_0;
            &&& target(s, i, from) is Ok && target(s, i, to) is Ok
            &&& look_up(s, i, od as int, on) is Ok
            &&& look_up(s, i, nd as int, nn) is Err
            &&& look_up(mv(s, from, to).0, i, nd as int, nn) == Ok::<Entry, FsErr>(
                Entry { name: nn, attr: e.attr, cluster: e.cluster, size: e.size },
            )
        }),
{
    reveal(mv);
    sound_tree(s, i, dirs, files);
    let t = mv(s, from, to).0;
    let (od, on) = target(s, i, from)->Ok_0;
    let (nd, nn) = target(s, i, to)->Ok_0;
    assert(ways_kept(s, s, i, dirs));
    target_kept(s, s, i, dirs, from);
    target_kept(s, s, i, dirs, to);
    let e = look_up(s, i, od as int, on)->Ok_0;
    let (lba, slot) = find_pos(s, i, od as int, on)->Ok_0;
    let (a, j) = name_found(s, i, dirs, files, od, on);
    spot_reached(s, i, dirs[od], on, a, j, slot);
    found_is_entry(s, i, dirs, files, od, on, e);
    let ne = Entry { name: nn, ..e };
    let u = add_entry(s, i, nd as int, ne).0;
    let (more, b1, a1) = entry_made(s, i, dirs, files, nd, ne);
    assert(in_range(i, dirs[od][a]));
    assert(more[od][a] == dirs[od][a]);
    slot_stays(s, u, i, dirs[od], more[od], on, a, j, slot);
    // in the volume before, the slot holds the entry that was found
    assert(wipe_entry(s, lba, slot).1 is Ok) by {
        reveal(wipe_entry);
    }
    let (b0, x0, a0) = wipe_step(s, i, dirs, files, od, on, a, j, lba, slot);
    assert(x0 == e);
    let (b2, x, a2) = wipe_step(u, i, more, files, od, on, a, j, lba, slot);
    assert(x == e);
    assert(moved(s, u, t, i, more, nd, b1, ne, a1, od, b2, x, a2)) by {
        assert forall|c: u32| #[trigger] more.contains_key(c) implies dirs.contains_key(c) by {}
        assert(more.contains_key(nd) && more.contains_key(od));
    }
    assert(names_ok(s, i, more, files)) by {
        assert forall|c: u32, k: int| more.contains_key(c) && 0 <= k < dir_list(s, i, c as int).len() implies entry_known(
            i,
            more,
            files,
            #[trigger] dir_list(s, i, c as int)[k],
        ) by {
            assert(dirs.contains_key(c));
            let f = dir_list(s, i, c as int)[k];
            assert(entry_known(i, dirs, files, f));
            assert(more.contains_key(f.cluster) == dirs.contains_key(f.cluster));
        }
        assert forall|c: u32, k: int, d: u32, l: int|
            more.contains_key(c) && 0 <= k < dir_list(s, i, c as int).len() && more.contains_key(d)
                && 0 <= l < dir_list(s, i, d as int).len() && (#[trigger] dir_list(
                s,
                i,
                c as int,
            )[k]).cluster >= 2 && dir_list(s, i, c as int)[k].cluster == (#[trigger] dir_list(
                s,
                i,
                d as int,
            )[l]).cluster implies c == d && k == l by {
            assert(dirs.contains_key(c) && dirs.contains_key(d));
        }
    }
    names_moved(s, u, t, i, more, files, nd, b1, ne, a1, od, b2, x, a2);
    moved_is_found(s, u, t, i, more, nd, b1, ne, a1, od, b2, x, a2);
    if hung(s, i, dirs) && stays_below(s, i, from, to) {
        hung_grown(s, s, i, dirs, more);
        hung_moved(s, u, t, i, more, nd, b1, ne, a1, od, b2, x, a2);
    }
    more
}

} // verus!
