//! What the commands keep: each leaves a sound FAT volume sound.

use vstd::prelude::*;
use crate::bytes::zero_bytes;
use crate::fat::data::{chain_filled, enough, sectors_apart, sectors_behind};
use crate::fat::erasing::{chain_pos, first_is, holds_name, wiped};
use crate::fat::fresh::sector_put;
use crate::fat::laws::{
    apart, blanked, chain_no_long, entry_written, match_is_there, one_sector, room_for,
    tables_keep_contents, tables_stay, target_kept, ways_kept,
};
use crate::fat::model::{
    add_entry, alloc_chain, alloc_cluster, blank_clus, clus_list, clusters_for, dir_list,
    dotdot_in_chain, dotdot_in_clus, dotdot_in_sector, dots, dotted, enter_file, entry_at,
    fill_chain, find_file, find_free_slot, find_pos, first_match, free_chain, free_in_chain,
    free_in_clus, free_in_sector, grow_dir, look_up, look_up_dir, mkdir, mkdir_in, parent_of,
    read_clus, read_fat, read_file, remove, rm, rmdir, sector_list, sector_of, target, touch,
    wipe_entry, with_entry, write_dots, write_entry, write_fat, write_file, zero_clus, Entry,
};
use crate::fat::slots::{entry_entered, file_name, match_in_both, match_in_one, name_at, takes};
use crate::fat::sound::{
    chains_apart, chains_ok, entry_known, grow_step, grown_by, list_set, lists_same, names_ok,
    names_same, quiet, quiet_step, slot_step, sound, sound_tree, spot_reached, Chains,
};
use crate::fat::table::{
    at_most_all, chain_entry, chain_in_use, chain_is_freed, chain_is_taken, chain_ok,
    entry_reads_back, first_free_is_taken, in_range, ints, new_chain, only_tables, range_goes_on,
    roomy, spare, spare_taken, volume_ok,
};
use crate::fat::tidy::{
    chain_tidy, clus_tidy, ended_at, ends_at, full_at, no_name, one, reached, sector_blank,
    sector_tidy, slot_set, tidy_at, void_at,
};
use crate::fat::tree::{
    all_clean, clus_clean, free_spot, pos_spot, same_clus, same_contents, same_links, sector_clean,
    spot,
};
use crate::fs::{same_but_disk, FatInfo, FsErr, FsView};

verus! {

// ---------- names ----------

/// The `k`-th entry of directory `c`.
pub open spec fn entry_of(s: FsView, i: FatInfo, c: u32, k: int) -> Entry {
    dir_list(s, i, c as int)[k]
}

/// There is a `k`-th entry of directory `c`.
pub open spec fn is_entry(s: FsView, i: FatInfo, dirs: Chains, c: u32, k: int) -> bool {
    dirs.contains_key(c) && 0 <= k < dir_list(s, i, c as int).len()
}

/// Where an entry of the list stood before a slot was set.
pub(crate) proof fn stood(
    s: FsView,
    t: FsView,
    i: FatInfo,
    dirs: Chains,
    d: u32,
    before: Seq<Entry>,
    was: Seq<Entry>,
    is: Seq<Entry>,
    after: Seq<Entry>,
    c: u32,
    k: int,
) -> (l: int)
    requires
        list_set(s, t, i, dirs, d, before, was, is, after),
        was.len() <= 1,
        is.len() <= 1,
        is_entry(t, i, dirs, c, k),
        !(c == d && is.len() == 1 && k == before.len()),
    ensures
        is_entry(s, i, dirs, c, l),
        entry_of(s, i, c, l) == entry_of(t, i, c, k),
        !(c == d && was.len() == 1 && l == before.len()),
        l == (if c == d && k >= before.len() {
            k - is.len() + was.len()
        } else {
            k as int
        }),
{
    if c == d && k >= before.len() {
        k - is.len() + was.len()
    } else {
        k
    }
}

/// What setting a slot may change of the directories and the files: only what
/// the slot named is gone, new directories are empty, and what the slot names
/// now is known and was not named elsewhere.
pub open spec fn may_set(
    s: FsView,
    t: FsView,
    i: FatInfo,
    dirs: Chains,
    files: Chains,
    dirs2: Chains,
    files2: Chains,
    d: u32,
    before: Seq<Entry>,
    was: Seq<Entry>,
    is: Seq<Entry>,
    after: Seq<Entry>,
) -> bool {
    &&& chains_ok(s, i, dirs, files)
    &&& names_ok(s, i, dirs, files)
    &&& dirs.contains_key(d)
    &&& list_set(s, t, i, dirs, d, before, was, is, after)
    &&& was.len() <= 1
    &&& is.len() <= 1
    &&& forall|x: u32| #[trigger]
        dirs.contains_key(x) && !dirs2.contains_key(x) ==> was.len() == 1 && x == was[0].cluster
    &&& forall|x: u32| #[trigger]
        files.contains_key(x) && !files2.contains_key(x) ==> was.len() == 1 && x == was[0].cluster
    &&& forall|x: u32| #[trigger]
        dirs2.contains_key(x) && !dirs.contains_key(x) ==> dir_list(t, i, x as int).len() == 0
    &&& is.len() == 1 ==> entry_known(i, dirs2, files2, is[0])
    &&& is.len() == 1 && is[0].cluster >= 2 ==> forall|c: u32, k: int| #[trigger]
        is_entry(s, i, dirs, c, k) && entry_of(s, i, c, k).cluster == is[0].cluster ==> c == d
            && was.len() == 1 && k == before.len()
}

/// Two entries of a volume whose names are in order.
pub(crate) proof fn named_once(s: FsView, i: FatInfo, dirs: Chains, files: Chains, c: u32, k: int, x: u32, l: int)
    requires
        names_ok(s, i, dirs, files),
        is_entry(s, i, dirs, c, k),
        is_entry(s, i, dirs, x, l),
    ensures
        entry_known(i, dirs, files, entry_of(s, i, c, k)),
        entry_of(s, i, c, k).cluster >= 2 && entry_of(s, i, c, k).cluster == entry_of(
            s,
            i,
            x,
            l,
        ).cluster ==> c == x && k == l,
{
    assert(entry_known(i, dirs, files, dir_list(s, i, c as int)[k]));
    assert(dir_list(s, i, x as int)[l] == entry_of(s, i, x, l));
}

proof fn known_then(
    s: FsView,
    t: FsView,
    i: FatInfo,
    dirs: Chains,
    files: Chains,
    dirs2: Chains,
    files2: Chains,
    d: u32,
    before: Seq<Entry>,
    was: Seq<Entry>,
    is: Seq<Entry>,
    after: Seq<Entry>,
    c: u32,
    k: int,
)
    requires
        may_set(s, t, i, dirs, files, dirs2, files2, d, before, was, is, after),
        is_entry(t, i, dirs2, c, k),
    ensures
        entry_known(i, dirs2, files2, entry_of(t, i, c, k)),
        dirs.contains_key(c),
{
    let p = before.len() as int;
    assert(dirs.contains_key(c));
    if c == d && is.len() == 1 && k == p {
        assert(entry_of(t, i, c, k) == is[0]);
    } else {
        let l = stood(s, t, i, dirs, d, before, was, is, after, c, k);
        let e = entry_of(s, i, c, l);
        if was.len() == 1 {
            assert(entry_of(s, i, d, p) == was[0]);
            named_once(s, i, dirs, files, c, l, d, p);
        } else {
            named_once(s, i, dirs, files, c, l, c, l);
        }
        if e.is_dir() {
            assert(dirs.contains_key(e.cluster));
            assert(in_range(i, dirs[e.cluster][0]));
            assert(dirs2.contains_key(e.cluster));
        } else if e.cluster >= 2 {
            assert(files.contains_key(e.cluster));
            assert(files2.contains_key(e.cluster));
        }
    }
}

proof fn unique_then(
    s: FsView,
    t: FsView,
    i: FatInfo,
    dirs: Chains,
    files: Chains,
    dirs2: Chains,
    files2: Chains,
    d: u32,
    before: Seq<Entry>,
    was: Seq<Entry>,
    is: Seq<Entry>,
    after: Seq<Entry>,
    c: u32,
    k: int,
    x: u32,
    l: int,
)
    requires
        may_set(s, t, i, dirs, files, dirs2, files2, d, before, was, is, after),
        is_entry(t, i, dirs, c, k),
        is_entry(t, i, dirs, x, l),
        entry_of(t, i, c, k).cluster >= 2,
        entry_of(t, i, c, k).cluster == entry_of(t, i, x, l).cluster,
    ensures
        c == x && k == l,
{
    let p = before.len() as int;
    let new1 = c == d && is.len() == 1 && k == p;
    let new2 = x == d && is.len() == 1 && l == p;
    if new1 {
        assert(entry_of(t, i, c, k) == is[0]);
    }
    if new2 {
        assert(entry_of(t, i, x, l) == is[0]);
    }
    if !new1 && !new2 {
        let k0 = stood(s, t, i, dirs, d, before, was, is, after, c, k);
        let l0 = stood(s, t, i, dirs, d, before, was, is, after, x, l);
        named_once(s, i, dirs, files, c, k0, x, l0);
    } else if new1 && !new2 {
        let l0 = stood(s, t, i, dirs, d, before, was, is, after, x, l);
        assert(is_entry(s, i, dirs, x, l0));
    } else if !new1 && new2 {
        let k0 = stood(s, t, i, dirs, d, before, was, is, after, c, k);
        assert(is_entry(s, i, dirs, c, k0));
    }
}

/// A slot was set: the names are in order afterwards.
pub proof fn names_set(
    s: FsView,
    t: FsView,
    i: FatInfo,
    dirs: Chains,
    files: Chains,
    dirs2: Chains,
    files2: Chains,
    d: u32,
    before: Seq<Entry>,
    was: Seq<Entry>,
    is: Seq<Entry>,
    after: Seq<Entry>,
)
    requires
        may_set(s, t, i, dirs, files, dirs2, files2, d, before, was, is, after),
    ensures
        names_ok(t, i, dirs2, files2),
{
    assert forall|c: u32, k: int| dirs2.contains_key(c) && 0 <= k < dir_list(t, i, c as int).len() implies entry_known(
        i,
        dirs2,
        files2,
        #[trigger] dir_list(t, i, c as int)[k],
    ) by {
        known_then(s, t, i, dirs, files, dirs2, files2, d, before, was, is, after, c, k);
    }
    assert forall|c: u32, k: int, x: u32, l: int|
        dirs2.contains_key(c) && 0 <= k < dir_list(t, i, c as int).len() && dirs2.contains_key(x) && 0
            <= l < dir_list(t, i, x as int).len() && (#[trigger] dir_list(t, i, c as int)[k]).cluster
            >= 2 && dir_list(t, i, c as int)[k].cluster == (#[trigger] dir_list(
            t,
            i,
            x as int,
        )[l]).cluster implies c == x && k == l by {
        known_then(s, t, i, dirs, files, dirs2, files2, d, before, was, is, after, c, k);
        known_then(s, t, i, dirs, files, dirs2, files2, d, before, was, is, after, x, l);
        unique_then(s, t, i, dirs, files, dirs2, files2, d, before, was, is, after, c, k, x, l);
    }
}

// ---------- directories below directories ----------

/// Directory `d` names the directory at cluster `x`.
pub open spec fn listed_in(s: FsView, i: FatInfo, d: u32, x: u32) -> bool {
    exists|k: int|
        0 <= k < dir_list(s, i, d as int).len() && names_dir(#[trigger] dir_list(s, i, d as int)[k], x)
}

pub open spec fn names_dir(e: Entry, x: u32) -> bool {
    e.cluster == x && e.is_dir()
}

/// Each directory but the root is named by the one that it leads up to.
pub open spec fn hung(s: FsView, i: FatInfo, dirs: Chains) -> bool {
    &&& parent_of(s, i, i.root_clus) == i.root_clus
    &&& forall|x: u32| #[trigger]
        dirs.contains_key(x) && x != i.root_clus ==> listed_in(s, i, parent_of(s, i, x), x)
}

/// A slot was set that named no directory that is left.
pub(crate) proof fn hung_set(
    s: FsView,
    t: FsView,
    i: FatInfo,
    dirs: Chains,
    base: Chains,
    dirs2: Chains,
    d: u32,
    before: Seq<Entry>,
    was: Seq<Entry>,
    is: Seq<Entry>,
    after: Seq<Entry>,
)
    requires
        hung(s, i, dirs),
        list_set(s, t, i, base, d, before, was, is, after),
        base.contains_key(d),
        base.contains_key(i.root_clus),
        was.len() <= 1,
        forall|x: u32| #[trigger]
            base.contains_key(x) ==> dirs.contains_key(x) && base.contains_key(parent_of(s, i, x)),
        forall|x: u32| #[trigger]
            dirs2.contains_key(x) ==> base.contains_key(x) || listed_in(t, i, parent_of(t, i, x), x),
        was.len() == 1 && was[0].is_dir() ==> !dirs2.contains_key(was[0].cluster),
    ensures
        hung(t, i, dirs2),
{
    assert forall|x: u32| #[trigger] dirs2.contains_key(x) && x != i.root_clus implies listed_in(
        t,
        i,
        parent_of(t, i, x),
        x,
    ) by {
        if base.contains_key(x) {
            let q = parent_of(s, i, x);
            assert(dirs.contains_key(x));
            assert(base.contains_key(q));
            assert(listed_in(s, i, q, x));
            let k = choose|k: int|
                0 <= k < dir_list(s, i, q as int).len() && names_dir(
                    #[trigger] dir_list(s, i, q as int)[k],
                    x,
                );
            if q == d {
                let n = before.len() as int;
                let l = if k < n {
                    k
                } else {
                    k - was.len() + is.len()
                };
                if k == n && was.len() == 1 {
                    assert(dir_list(s, i, q as int)[k] == was[0]);
                }
                assert(dir_list(t, i, q as int)[l] == dir_list(s, i, q as int)[k]);
                assert(names_dir(dir_list(t, i, q as int)[l], x));
            } else {
                assert(names_dir(dir_list(t, i, q as int)[k], x));
            }
        }
    }
}

/// A directory that can be removed is a directory without entries, not the
/// root.
pub proof fn removed_is_empty(s: FsView, i: FatInfo, dirs: Chains, files: Chains, path: Seq<char>)
    requires
        sound(s, i, dirs, files),
        rmdir(s, path).1 is Ok,
    ensures
        ({
            let e = dir_entry(s, i, path);
            e.cluster != i.root_clus && dir_list(s, i, e.cluster as int).len() == 0
        }),
{
    reveal(rmdir);
    reveal(remove);
    sound_tree(s, i, dirs, files);
    let (d, n) = target(s, i, path)->Ok_0;
    assert(ways_kept(s, s, i, dirs));
    target_kept(s, s, i, dirs, path);
    found_is_entry(s, i, dirs, files, d, n, dir_entry(s, i, path));
}

/// Where every directory is named by the one above, nothing leads up to a
/// directory without entries.
pub proof fn empty_is_not_above(s: FsView, i: FatInfo, dirs: Chains, c: u32)
    requires
        hung(s, i, dirs),
        c != i.root_clus,
        dir_list(s, i, c as int).len() == 0,
    ensures
        not_above(s, i, dirs, c),
{
}

// ---------- spots ----------

/// A spot is where it was while the clusters of the directory are.
proof fn spot_same(
    s: FsView,
    t: FsView,
    i: FatInfo,
    ch: Seq<int>,
    n: Seq<u8>,
    a: int,
    j: int,
    slot: int,
)
    requires
        spot(s, i, ch, 0, n, a, j, slot),
        same_contents(s, t, i, ch, 0),
    ensures
        spot(t, i, ch, 0, n, a, j, slot),
{
    assert forall|p: int, q: int| 0 <= p < ch.len() && 0 <= q < i.sec_per_clus implies #[trigger] read_clus(
        t,
        i,
        ch[p],
        q,
    ) == read_clus(s, i, ch[p], q) by {
        assert(same_clus(s, t, i, ch[p], 0));
    }
    assert forall|p: int| 0 <= p < a implies clus_clean(
        t,
        i,
        #[trigger] ch[p],
        n,
        0,
        i.sec_per_clus as int,
    ) by {
        assert(clus_clean(s, i, ch[p], n, 0, i.sec_per_clus as int));
        assert forall|r: int| 0 <= r < i.sec_per_clus implies #[trigger] sector_clean(t, i, ch[p], n, r) by {
            assert(sector_clean(s, i, ch[p], n, r));
            assert(read_clus(t, i, ch[p], r) == read_clus(s, i, ch[p], r));
        }
    }
    assert forall|r: int| 0 <= r < j implies #[trigger] sector_clean(t, i, ch[a], n, r) by {
        assert(sector_clean(s, i, ch[a], n, r));
        assert(read_clus(t, i, ch[a], r) == read_clus(s, i, ch[a], r));
    }
    assert(read_clus(t, i, ch[a], j) == read_clus(s, i, ch[a], j));
}

/// The slots before are used.
proof fn reached_same(s: FsView, t: FsView, i: FatInfo, ch: Seq<int>, a: int, j: int, slot: int)
    requires
        reached(s, i, ch, a, j, slot),
        same_contents(s, t, i, ch, 0),
    ensures
        reached(t, i, ch, a, j, slot),
{
    assert forall|p: int, q: int| 0 <= p < ch.len() && 0 <= q < i.sec_per_clus implies #[trigger] read_clus(
        t,
        i,
        ch[p],
        q,
    ) == read_clus(s, i, ch[p], q) by {
        assert(same_clus(s, t, i, ch[p], 0));
    }
    assert forall|p: int, q: int| 0 <= p < a && 0 <= q < i.sec_per_clus implies #[trigger] full_at(
        t,
        i,
        ch[p],
        q,
    ) by {
        assert(full_at(s, i, ch[p], q));
        assert(read_clus(t, i, ch[p], q) == read_clus(s, i, ch[p], q));
    }
    assert forall|q: int| 0 <= q < j implies #[trigger] full_at(t, i, ch[a], q) by {
        assert(full_at(s, i, ch[a], q));
        assert(read_clus(t, i, ch[a], q) == read_clus(s, i, ch[a], q));
    }
    assert(read_clus(t, i, ch[a], j) == read_clus(s, i, ch[a], j));
}

/// A sector with an entry put into a slot.
proof fn entry_sets(b: Seq<u8>, slot: int, e: Entry)
    requires
        b.len() == 512,
        0 <= slot < 16,
        file_name(e.name),
        e.attr != 0x0F,
    ensures
        slot_set(b, with_entry(b, slot, e), slot),
        one(with_entry(b, slot, e), slot) == seq![e],
        with_entry(b, slot, e)[32 * slot] != 46,
{
    entry_entered(b, slot, e);
}

/// A sector with a wiped slot.
proof fn wipe_sets(b: Seq<u8>, slot: int)
    requires
        b.len() == 512,
        0 <= slot < 16,
    ensures
        slot_set(b, b.update(32 * slot, 0xE5), slot),
        one(b.update(32 * slot, 0xE5), slot) == Seq::<Entry>::empty(),
{
}

/// A slot that holds a name adds its entry.
proof fn held_one(b: Seq<u8>, slot: int, n: Seq<u8>)
    requires
        b.len() == 512,
        0 <= slot < 16,
        holds_name(b, slot, n),
        file_name(n),
    ensures
        one(b, slot) == seq![entry_at(b, 32 * slot)],
        entry_at(b, 32 * slot).name == n,
        takes(b, slot, n),
{
    assert(name_at(b, slot)[0] == b[32 * slot]);
}

// ---------- a free slot ----------

/// What a search for a free slot leaves: a sound volume, whose directory `d`
/// may have grown, and a slot that the list has reached and that is free.
pub open spec fn slot_ready(
    s: FsView,
    t: FsView,
    i: FatInfo,
    dirs: Chains,
    files: Chains,
    more: Chains,
    d: u32,
    a: int,
    j: int,
    lba: int,
    slot: int,
) -> bool {
    &&& same_but_disk(s, t)
    &&& chains_ok(t, i, more, files)
    &&& lists_same(s, t, i, dirs)
    &&& spare(t, i) >= spare(s, i) - 1
    &&& forall|c: u32| #[trigger] more.contains_key(c) == dirs.contains_key(c)
    &&& grown(dirs, more, d)
    &&& lba == sector_of(i, more[d][a], j)
    &&& 0 <= a < more[d].len()
    &&& 0 <= j < i.sec_per_clus
    &&& t.raw_read(lba) is Some ==> reached(t, i, more[d], a, j, slot) && is_free(
        t.raw_read(lba)->0,
        slot,
    )
    &&& forall|x: int|
        in_range(i, x) && read_fat(s, i, x) != 0 ==> #[trigger] same_clus(s, t, i, x, 0)
}

/// Directory `d` has its clusters and may have more behind them; the others
/// have theirs.
pub open spec fn grown(dirs: Chains, more: Chains, d: u32) -> bool {
    &&& forall|c: u32| #[trigger] dirs.contains_key(c) && c != d ==> more[c] == dirs[c]
    &&& dirs[d].len() <= more[d].len()
    &&& forall|p: int| 0 <= p < dirs[d].len() ==> #[trigger] more[d][p] == dirs[d][p]
}

/// The used slots of sector `b` are as they were in `c`.
pub open spec fn slots_kept(b: Seq<u8>, c: Seq<u8>) -> bool {
    &&& c.len() == 512
    &&& forall|k: int| 0 <= k < 16 && !ends_at(b, k) ==> !#[trigger] ends_at(c, k)
    &&& forall|k: int| 0 <= k < 16 && !is_free(b, k) ==> #[trigger] slot_same(b, c, k)
}

pub open spec fn slot_same(b: Seq<u8>, c: Seq<u8>, k: int) -> bool {
    c.subrange(32 * k, 32 * k + 32) == b.subrange(32 * k, 32 * k + 32)
}

/// The used slots of a sector of a cluster are as they were.
pub open spec fn kept_at(s: FsView, t: FsView, i: FatInfo, x: int, q: int) -> bool {
    read_clus(s, i, x, q) is Some && read_clus(s, i, x, q)->0.len() == 512 ==> read_clus(t, i, x, q) is Some
        && slots_kept(read_clus(s, i, x, q)->0, read_clus(t, i, x, q)->0)
}

/// A free slot was set.
proof fn set_keeps(b: Seq<u8>, c: Seq<u8>, slot: int)
    requires
        slot_set(b, c, slot),
        0 <= slot < 16,
        is_free(b, slot),
    ensures
        slots_kept(b, c),
{
    assert forall|k: int| 0 <= k < 16 && !ends_at(b, k) implies !#[trigger] ends_at(c, k) by {
        if k != slot {
            assert(c[32 * k] == b[32 * k]);
        }
    }
    assert forall|k: int| 0 <= k < 16 && !is_free(b, k) implies #[trigger] slot_same(b, c, k) by {
        assert(k != slot);
        assert(c.subrange(32 * k, 32 * k + 32) =~= b.subrange(32 * k, 32 * k + 32));
    }
}

/// The slot is free.
pub open spec fn is_free(b: Seq<u8>, slot: int) -> bool {
    ends_at(b, slot) || b[32 * slot] == 0xE5
}

proof fn free_in_sector_is_free(b: Seq<u8>, k: int)
    ensures
        free_in_sector(b, k) matches Some(slot) ==> is_free(b, slot),
    decreases 16 - k,
{
    if k < 16 {
        free_in_sector_is_free(b, k + 1);
    }
}

proof fn free_in_clus_is_free(s: FsView, i: FatInfo, c: int, k: int)
    requires
        c >= 2,
    ensures
        free_in_clus(s, i, c, k) matches Ok(Some((lba, slot))) ==> is_free(
            s.raw_read(lba)->0,
            slot,
        ),
    decreases i.sec_per_clus - k,
{
    if k < i.sec_per_clus {
        if let Some(b) = read_clus(s, i, c, k) {
            free_in_sector_is_free(b, 0);
            free_in_clus_is_free(s, i, c, k + 1);
        }
    }
}

/// The slot that a search finds without growing the directory is free.
proof fn free_in_chain_is_free(s: FsView, i: FatInfo, ch: Seq<int>, k: int, fuel: nat)
    requires
        volume_ok(s, i),
        chain_ok(s, i, ch),
        0 <= k < ch.len(),
        free_in_chain(s, i, ch[k], fuel).1 is Ok,
    ensures
        ({
            let (t, f) = free_in_chain(s, i, ch[k], fuel);
            ||| is_free(t.raw_read((f->Ok_0).0)->0, (f->Ok_0).1)
            ||| free_in_chain(s, i, ch[k], fuel) == grow_dir(s, i, ch.last())
        }),
    decreases fuel,
{
    let c = ch[k];
    assert(in_range(i, ch[k]));
    free_in_clus_is_free(s, i, c, 0);
    let next = read_fat(s, i, c);
    assert(chain_entry(s, i, ch, k, next));
    if k + 1 < ch.len() {
        assert(in_range(i, ch[k + 1]));
        range_goes_on(s, i, ch[k + 1]);
        if free_in_clus(s, i, c, 0) == Ok::<Option<(int, int)>, FsErr>(None) {
            free_in_chain_is_free(s, i, ch, k + 1, (fuel - 1) as nat);
        }
    } else {
        assert(ch.last() == c);
    }
}

/// Growth ends in a slot of a blank sector.
proof fn grown_slot(s: FsView, i: FatInfo, c: int)
    requires
        roomy(s, i, 1),
        volume_ok(s, i),
        in_range(i, c),
        grow_dir(s, i, c).1 is Ok,
    ensures
        ({
            let (t, r) = grow_dir(s, i, c);
            &&& r == Ok::<(int, int), FsErr>((sector_of(i, grown_by(s, i), 0), 0))
            &&& t.raw_read(sector_of(i, grown_by(s, i), 0)) is Some ==> is_free(
                t.raw_read(sector_of(i, grown_by(s, i), 0))->0,
                0,
            )
        }),
{
    reveal(grow_dir);
    first_free_is_taken(s, i);
    let s1 = alloc_cluster(s, i).0;
    let nc = alloc_cluster(s, i).1->0;
    entry_reads_back(s1, i, c, nc);
    let s2 = write_fat(s1, i, c, nc).0;
    blanked(s2, i, nc as int, 0);
    let t = blank_clus(s2, i, nc as int, 0);
    if t.raw_read(sector_of(i, nc as int, 0)) is Some {
        assert(read_clus(t, i, nc as int, 0) is Some);
    }
}

/// A directory that grows takes one free cluster.
proof fn growth_takes_one(s: FsView, i: FatInfo, dirs: Chains, files: Chains, d: u32, n: Seq<u8>)
    requires
        roomy(s, i, 1),
        chains_ok(s, i, dirs, files),
        dirs.contains_key(d),
        all_clean(s, i, dirs[d], n, 0),
        grow_dir(s, i, dirs[d].last()).1 is Ok,
    ensures
        spare(grow_dir(s, i, dirs[d].last()).0, i) == spare(s, i) - 1,
{
    grow_step(s, i, dirs, files, d, n);
    let t = grow_dir(s, i, dirs[d].last()).0;
    let nc = grown_by(s, i);
    let old = dirs[d];
    let more = dirs.insert(d, old.push(nc));
    assert(more.contains_key(d));
    chain_in_use(s, i, old, old.len() - 1);
    chain_in_use(t, i, more[d], old.len() - 1);
    assert forall|c: int| in_range(i, c) && c != nc implies (#[trigger] read_fat(t, i, c) == 0) == (
    read_fat(s, i, c) == 0) by {
        if c == old.last() {
            assert(more[d][old.len() - 1] == c);
        }
    }
    spare_taken(s, t, i, nc);
}

proof fn slot_found(s: FsView, i: FatInfo, dirs: Chains, files: Chains, d: u32, n: Seq<u8>) -> (r: (
    Chains,
    int,
    int,
))
    requires
        roomy(s, i, 1),
        chains_ok(s, i, dirs, files),
        dirs.contains_key(d),
        first_match(dir_list(s, i, d as int), Some(n)) is None,
        find_free_slot(s, i, d as int).1 is Ok,
    ensures
        ({
            let (t, f) = find_free_slot(s, i, d as int);
            slot_ready(s, t, i, dirs, files, r.0, d, r.1, r.2, (f->Ok_0).0, (f->Ok_0).1)
        }),
{
    reveal(find_free_slot);
    reveal(dir_list);
    let ch = dirs[d];
    let (t, f) = find_free_slot(s, i, d as int);
    let (lba, slot) = f->Ok_0;
    at_most_all(i, ch);
    let r = free_spot(s, i, ch, 0, n, (i.cluster_count + 2) as nat, i.cluster_count as nat);
    match r {
        Some((a, j)) => {
            spot_reached(s, i, ch, n, a, j, slot);
            free_in_chain_is_free(s, i, ch, 0, (i.cluster_count + 2) as nat);
            assert(in_range(i, ch[ch.len() - 1]));
            if free_in_chain(s, i, ch[0], (i.cluster_count + 2) as nat) == grow_dir(
                s,
                i,
                ch.last(),
            ) {
                grown_slot(s, i, ch.last());
            }
            (dirs, a, j)
        },
        None => {
            assert(in_range(i, ch[ch.len() - 1]));
            grown_slot(s, i, ch.last());
            grow_step(s, i, dirs, files, d, n);
            let nc = grown_by(s, i);
            growth_takes_one(s, i, dirs, files, d, n);
            let more = dirs.insert(d, ch.push(nc));
            assert(more[d][ch.len() as int] == nc);
            assert(more.contains_key(d));
            (more, ch.len() as int, 0)
        },
    }
}

/// The names of a volume whose directory has grown.
proof fn names_grown(s: FsView, t: FsView, i: FatInfo, dirs: Chains, files: Chains, more: Chains)
    requires
        names_ok(s, i, dirs, files),
        lists_same(s, t, i, dirs),
        forall|c: u32| #[trigger] more.contains_key(c) == dirs.contains_key(c),
    ensures
        names_ok(t, i, more, files),
{
    names_same(s, t, i, dirs, files);
    assert forall|c: u32, k: int| more.contains_key(c) && 0 <= k < dir_list(t, i, c as int).len() implies entry_known(
        i,
        more,
        files,
        #[trigger] dir_list(t, i, c as int)[k],
    ) by {
        assert(dirs.contains_key(c));
        let e = dir_list(t, i, c as int)[k];
        assert(entry_known(i, dirs, files, e));
        assert(more.contains_key(e.cluster) == dirs.contains_key(e.cluster));
    }
    assert forall|c: u32, k: int, d: u32, l: int|
        more.contains_key(c) && 0 <= k < dir_list(t, i, c as int).len() && more.contains_key(d) && 0
            <= l < dir_list(t, i, d as int).len() && (#[trigger] dir_list(t, i, c as int)[k]).cluster
            >= 2 && dir_list(t, i, c as int)[k].cluster == (#[trigger] dir_list(
            t,
            i,
            d as int,
        )[l]).cluster implies c == d && k == l by {
        assert(dirs.contains_key(c) && dirs.contains_key(d));
    }
}

pub(crate) proof fn hung_grown(s: FsView, t: FsView, i: FatInfo, dirs: Chains, more: Chains)
    requires
        hung(s, i, dirs),
        dirs.contains_key(i.root_clus),
        lists_same(s, t, i, dirs),
        forall|c: u32| #[trigger] more.contains_key(c) == dirs.contains_key(c),
        forall|c: u32| #[trigger] dirs.contains_key(c) ==> dirs.contains_key(parent_of(s, i, c)),
    ensures
        hung(t, i, more),
{
    assert forall|x: u32| #[trigger] more.contains_key(x) && x != i.root_clus implies listed_in(
        t,
        i,
        parent_of(t, i, x),
        x,
    ) by {
        assert(dirs.contains_key(x));
        assert(dirs.contains_key(parent_of(s, i, x)));
        assert(listed_in(s, i, parent_of(s, i, x), x));
    }
}

/// An entry is written into a free slot.
proof fn entry_step(
    v: FsView,
    i: FatInfo,
    dirs: Chains,
    files: Chains,
    d: u32,
    a: int,
    j: int,
    slot: int,
    e: Entry,
) -> (r: (Seq<Entry>, Seq<Entry>))
    requires
        chains_ok(v, i, dirs, files),
        dirs.contains_key(d),
        reached(v, i, dirs[d], a, j, slot),
        is_free(v.raw_read(sector_of(i, dirs[d][a], j))->0, slot),
        file_name(e.name),
        e.attr != 0x0F,
        write_entry(v, sector_of(i, dirs[d][a], j), slot, e).1 is Ok,
    ensures
        ({
            let t = write_entry(v, sector_of(i, dirs[d][a], j), slot, e).0;
            &&& same_but_disk(v, t)
            &&& chains_ok(t, i, dirs, files)
            &&& list_set(v, t, i, dirs, d, r.0, Seq::empty(), seq![e], r.1)
            &&& forall|x: int| in_range(i, x) && x != dirs[d][a] ==> #[trigger] same_clus(v, t, i, x, 0)
            &&& forall|q: int| 0 <= q < i.sec_per_clus ==> #[trigger] kept_at(v, t, i, dirs[d][a], q)
        }),
{
    let lba = sector_of(i, dirs[d][a], j);
    entry_written(v, lba, slot, e);
    let t = write_entry(v, lba, slot, e).0;
    let b = v.raw_read(lba)->0;
    entry_sets(b, slot, e);
    assert(one(b, slot) == Seq::<Entry>::empty());
    sector_alone(v, t, i, dirs[d][a], j);
    set_keeps(b, with_entry(b, slot, e), slot);
    assert forall|q: int| 0 <= q < i.sec_per_clus implies #[trigger] kept_at(v, t, i, dirs[d][a], q) by {
        assert(in_range(i, dirs[d][a]));
        if q != j {
            if sector_of(i, dirs[d][a], q) == lba {
                sectors_apart(i, dirs[d][a], q, dirs[d][a], j);
            }
            let x = read_clus(v, i, dirs[d][a], q);
            assert(read_clus(t, i, dirs[d][a], q) == x);
        }
    }
    slot_step(v, t, i, dirs, files, d, e.name, a, j, slot)
}

/// One sector of a cluster was written: the other clusters are as they were.
proof fn sector_alone(s: FsView, t: FsView, i: FatInfo, c: int, j: int)
    requires
        one_sector(s, t, sector_of(i, c, j)),
        0 <= j < i.sec_per_clus,
    ensures
        forall|x: int| in_range(i, x) && x != c ==> #[trigger] same_clus(s, t, i, x, 0),
{
    assert forall|x: int| in_range(i, x) && x != c implies #[trigger] same_clus(s, t, i, x, 0) by {
        assert forall|q: int| 0 <= q < i.sec_per_clus implies #[trigger] read_clus(t, i, x, q)
            == read_clus(s, i, x, q) by {
            if sector_of(i, x, q) == sector_of(i, c, j) {
                sectors_apart(i, x, q, c, j);
            }
        }
    }
}

// ---------- names that lead on ----------

/// A name other than that of the slot is found as it was.
proof fn match_set(
    before: Seq<Entry>,
    was: Seq<Entry>,
    is: Seq<Entry>,
    after: Seq<Entry>,
    n: Seq<u8>,
    m: Seq<u8>,
)
    requires
        was.len() <= 1,
        is.len() <= 1,
        was.len() == 1 ==> was[0].name == n,
        is.len() == 1 ==> is[0].name == n,
        m != n,
    ensures
        first_match(before + is + after, Some(m)) == first_match(before + was + after, Some(m)),
{
    match_in_both(before + was, after, Some(m));
    match_in_both(before + is, after, Some(m));
    match_in_both(before, was, Some(m));
    match_in_both(before, is, Some(m));
    if was.len() == 1 {
        assert(was =~= seq![was[0]]);
        match_in_one(was[0], m);
    }
    if is.len() == 1 {
        assert(is =~= seq![is[0]]);
        match_in_one(is[0], m);
    }
}

/// Where only the name `n` of directory `d` has changed, which led to no
/// directory, paths lead where they led.
proof fn ways_set(
    s: FsView,
    t: FsView,
    i: FatInfo,
    dirs: Chains,
    d: u32,
    n: Seq<u8>,
    before: Seq<Entry>,
    was: Seq<Entry>,
    is: Seq<Entry>,
    after: Seq<Entry>,
)
    requires
        list_set(s, t, i, dirs, d, before, was, is, after),
        was.len() <= 1,
        is.len() <= 1,
        was.len() == 1 ==> was[0].name == n,
        is.len() == 1 ==> is[0].name == n,
        look_up_dir(s, i, d as int, n) is Err,
    ensures
        ways_kept(s, t, i, dirs),
{
    assert forall|c: u32| #[trigger] dirs.contains_key(c) implies {
        &&& parent_of(t, i, c) == parent_of(s, i, c)
        &&& forall|m: Seq<u8>|
            look_up_dir(s, i, c as int, m) is Ok ==> #[trigger] look_up_dir(t, i, c as int, m)
                == look_up_dir(s, i, c as int, m)
    } by {
        assert forall|m: Seq<u8>| look_up_dir(s, i, c as int, m) is Ok implies #[trigger] look_up_dir(
            t,
            i,
            c as int,
            m,
        ) == look_up_dir(s, i, c as int, m) by {
            if c == d {
                match_set(before, was, is, after, n, m);
            }
        }
    }
}

/// The entry that was put is found where the name was not found before.
pub(crate) proof fn put_is_found(before: Seq<Entry>, e: Entry, after: Seq<Entry>)
    requires
        first_match(before + after, Some(e.name)) is None,
    ensures
        first_match(before + seq![e] + after, Some(e.name)) == Some(e),
{
    match_in_both(before, after, Some(e.name));
    match_in_both(before + seq![e], after, Some(e.name));
    match_in_both(before, seq![e], Some(e.name));
    match_in_one(e, e.name);
}

// ---------- touch ----------

/// Making an empty file: where the path led nowhere it leads to a file without
/// data, and the volume is as sound as it was; where it led somewhere nothing
/// changes. So a second call changes nothing.
#[verifier::spinoff_prover]
pub proof fn touched_file_is_there(
    s: FsView,
    i: FatInfo,
    dirs: Chains,
    files: Chains,
    path: Seq<char>,
    room: int,
) -> (more: Chains)
    requires
        sound(s, i, dirs, files),
        touch(s, path).1 is Ok,
        roomy(s, i, 1),
    ensures
        ({
            let t = touch(s, path).0;
            let (d, n) = target(s, i, path)->Ok_0;
            &&& target(s, i, path) is Ok
            &&& same_but_disk(s, t)
            &&& sound(t, i, more, files)
            &&& hung(s, i, dirs) ==> hung(t, i, more)
            &&& look_up(s, i, d as int, n) is Ok ==> t == s
            &&& look_up(s, i, d as int, n) is Err ==> (find_file(t, i, path) matches Ok(e) && e.size
                == 0) && read_file(
                t,
                path,
                room,
            ) == (Seq::<u8>::empty(), None::<FsErr>)
            &&& touch(t, path) == (t, Ok::<(), FsErr>(()))
        }),
{
    reveal(touch);
    reveal(add_entry);
    sound_tree(s, i, dirs, files);
    let t = touch(s, path).0;
    let (d, n) = target(s, i, path)->Ok_0;
    assert(ways_kept(s, s, i, dirs));
    target_kept(s, s, i, dirs, path);
    if look_up(s, i, d as int, n) is Ok {
        dirs
    } else {
        let e = Entry { name: n, attr: 32, cluster: 0, size: 0 };
        let (u, f) = find_free_slot(s, i, d as int);
        let (lba, slot) = f->Ok_0;
        assert(u.raw_read(lba) is Some) by {
            reveal(write_entry);
        }
        let (more, a, j) = slot_found(s, i, dirs, files, d, n);
        names_grown(s, u, i, dirs, files, more);
        let (before, after) = entry_step(u, i, more, files, d, a, j, slot, e);
        assert(!e.is_dir());
        names_set(u, t, i, more, files, more, files, d, before, Seq::empty(), seq![e], after);
        if hung(s, i, dirs) {
            hung_grown(s, u, i, dirs, more);
            hung_set(u, t, i, more, more, more, d, before, Seq::empty(), seq![e], after);
        }
        assert(before + Seq::<Entry>::empty() + after =~= before + after);
        put_is_found(before, e, after);
        grown_ways(s, u, t, i, dirs, more, d, n, before, e, after);
        target_kept(s, t, i, dirs, path);
        more
    }
}

/// Paths lead where they led once a directory has grown and has an entry more.
proof fn grown_ways(
    s: FsView,
    u: FsView,
    t: FsView,
    i: FatInfo,
    dirs: Chains,
    more: Chains,
    d: u32,
    n: Seq<u8>,
    before: Seq<Entry>,
    e: Entry,
    after: Seq<Entry>,
)
    requires
        lists_same(s, u, i, dirs),
        forall|c: u32| #[trigger] more.contains_key(c) == dirs.contains_key(c),
        dirs.contains_key(d),
        list_set(u, t, i, more, d, before, Seq::empty(), seq![e], after),
        e.name == n,
        look_up(s, i, d as int, n) is Err,
    ensures
        ways_kept(s, t, i, dirs),
{
    assert(list_set(s, t, i, dirs, d, before, Seq::empty(), seq![e], after)) by {
        assert forall|c: u32| #[trigger] dirs.contains_key(c) implies parent_of(t, i, c) == parent_of(
            s,
            i,
            c,
        ) && (c != d ==> dir_list(t, i, c as int) == dir_list(s, i, c as int)) by {
            assert(more.contains_key(c));
        }
    }
    ways_set(s, t, i, dirs, d, n, before, Seq::empty(), seq![e], after);
}

// ---------- entries that are there ----------

/// The slot of a name that was found.
pub open spec fn name_at_spot(
    s: FsView,
    i: FatInfo,
    ch: Seq<int>,
    n: Seq<u8>,
    a: int,
    j: int,
    lba: int,
    slot: int,
) -> bool {
    &&& spot(s, i, ch, 0, n, a, j, slot)
    &&& lba == sector_of(i, ch[a], j)
    &&& s.raw_read(lba) is Some
    &&& s.raw_read(lba)->0.len() == 512
    &&& holds_name(s.raw_read(lba)->0, slot, n)
}

pub(crate) proof fn name_found(s: FsView, i: FatInfo, dirs: Chains, files: Chains, d: u32, n: Seq<u8>) -> (r: (int, int))
    requires
        chains_ok(s, i, dirs, files),
        dirs.contains_key(d),
        find_pos(s, i, d as int, n) is Ok,
    ensures
        ({
            let (lba, slot) = find_pos(s, i, d as int, n)->Ok_0;
            name_at_spot(s, i, dirs[d], n, r.0, r.1, lba, slot)
        }),
{
    reveal(find_pos);
    let ch = dirs[d];
    assert(in_range(i, ch[0]));
    chain_pos(s, i, d as int, n, (i.cluster_count + 2) as nat);
    pos_spot(s, i, ch, 0, n, (i.cluster_count + 2) as nat)
}

/// The entry with the name is wiped.
pub(crate) proof fn wipe_step(
    v: FsView,
    i: FatInfo,
    dirs: Chains,
    files: Chains,
    d: u32,
    n: Seq<u8>,
    a: int,
    j: int,
    lba: int,
    slot: int,
) -> (r: (Seq<Entry>, Entry, Seq<Entry>))
    requires
        chains_ok(v, i, dirs, files),
        dirs.contains_key(d),
        reached(v, i, dirs[d], a, j, slot),
        lba == sector_of(i, dirs[d][a], j),
        v.raw_read(lba) is Some,
        v.raw_read(lba)->0.len() == 512,
        holds_name(v.raw_read(lba)->0, slot, n),
        file_name(n),
        wipe_entry(v, lba, slot).1 is Ok,
    ensures
        ({
            let t = wipe_entry(v, lba, slot).0;
            &&& same_but_disk(v, t)
            &&& chains_ok(t, i, dirs, files)
            &&& list_set(v, t, i, dirs, d, r.0, seq![r.1], Seq::empty(), r.2)
            &&& r.1 == entry_at(v.raw_read(lba)->0, 32 * slot)
            &&& r.1.name == n
            &&& spot(v, i, dirs[d], 0, n, a, j, slot) ==> first_match(
                dir_list(v, i, d as int),
                Some(n),
            ) == Some(r.1)
        }),
{
    wiped(v, lba, slot);
    let t = wipe_entry(v, lba, slot).0;
    let b = v.raw_read(lba)->0;
    wipe_sets(b, slot);
    held_one(b, slot, n);
    let x = entry_at(b, 32 * slot);
    let (before, after) = slot_step(v, t, i, dirs, files, d, n, a, j, slot);
    if spot(v, i, dirs[d], 0, n, a, j, slot) {
        found_behind(before, x, after, n);
    }
    (before, x, after)
}

/// The first entry with a name is found.
proof fn found_behind(before: Seq<Entry>, x: Entry, after: Seq<Entry>, n: Seq<u8>)
    requires
        no_name(before, n),
        x.name == n,
    ensures
        first_match(before + seq![x] + after, Some(n)) == Some(x),
{
    let es = before + seq![x] + after;
    let p = before.len() as int;
    assert(es[p] == x);
    assert forall|q: int| 0 <= q < p implies (#[trigger] es[q]).name != n by {
        assert(es[q] == before[q]);
    }
    first_is(es, p, n);
}

/// A chain is freed that no other shares a cluster with.
proof fn free_step(s: FsView, i: FatInfo, dirs: Chains, files: Chains, first: u32, ch: Seq<int>)
    requires
        chains_ok(s, i, dirs, files),
        first >= 2 ==> chain_ok(s, i, ch) && ch[0] == first,
        first < 2 ==> ch.len() == 0,
        apart(dirs, ch),
        apart(files, ch),
    ensures
        ({
            let t = free_chain(s, i, first);
            &&& quiet(s, t, i, dirs, files)
            &&& only_tables(s, t, i)
            &&& forall|x: int|
                in_range(i, x) && !ch.contains(x) ==> #[trigger] read_fat(t, i, x) == read_fat(s, i, x)
            &&& ch.len() <= 2_000_000 ==> forall|q: int|
                0 <= q < ch.len() ==> read_fat(t, i, #[trigger] ch[q]) == 0
        }),
{
    let t = free_chain(s, i, first);
    if first >= 2 {
        chain_is_freed(s, i, ch);
    } else {
        reveal(free_chain);
        assert(t == s);
    }
    assert forall|c: u32| #[trigger] dirs.contains_key(c) implies same_links(s, t, i, dirs[c])
        && same_contents(s, t, i, dirs[c], 0) by {
        freed_beside(s, t, i, dirs, c, ch);
        tables_keep_contents(s, t, i, dirs[c]);
    }
    assert forall|f: u32| #[trigger] files.contains_key(f) implies same_links(s, t, i, files[f]) by {
        freed_beside(s, t, i, files, f, ch);
    }
}

proof fn freed_beside(s: FsView, t: FsView, i: FatInfo, m: Chains, c: u32, ch: Seq<int>)
    requires
        m.contains_key(c),
        chain_ok(s, i, m[c]),
        apart(m, ch),
        forall|x: int|
            in_range(i, x) && !ch.contains(x) ==> #[trigger] read_fat(t, i, x) == read_fat(s, i, x),
    ensures
        same_links(s, t, i, m[c]),
{
    let h = m[c];
    assert forall|q: int| 0 <= q < h.len() implies read_fat(t, i, #[trigger] h[q]) == read_fat(
        s,
        i,
        h[q],
    ) by {
        assert(in_range(i, h[q]));
        if ch.contains(h[q]) {
            let b = choose|b: int| 0 <= b < ch.len() && ch[b] == h[q];
            assert(m[c][q] != ch[b]);
        }
    }
}

/// A file without its entry: its chain is clear of the others.
proof fn one_less(s: FsView, i: FatInfo, dirs: Chains, files: Chains, f: u32)
    requires
        chains_ok(s, i, dirs, files),
        files.contains_key(f),
    ensures
        chains_ok(s, i, dirs, files.remove(f)),
        apart(dirs, files[f]),
        apart(files.remove(f), files[f]),
{
    let m = files.remove(f);
    assert forall|c: u32, a: int, b: int|
        m.contains_key(c) && 0 <= a < m[c].len() && 0 <= b < files[f].len() implies #[trigger] m[c][a]
        != #[trigger] files[f][b] by {
        assert(m[c] == files[c]);
        assert(files[c][a] != files[f][b]);
    }
    assert(chains_apart(m)) by {
        assert forall|c: u32, d: u32, a: int, b: int|
            m.contains_key(c) && m.contains_key(d) && c != d && 0 <= a < m[c].len() && 0 <= b
                < m[d].len() implies #[trigger] m[c][a] != #[trigger] m[d][b] by {
            assert(m[c] == files[c] && m[d] == files[d]);
            assert(files[c][a] != files[d][b]);
        }
    }
}

/// The files once the file at cluster `f` is gone.
pub open spec fn without_file(files: Chains, f: u32) -> Chains {
    if f >= 2 {
        files.remove(f)
    } else {
        files
    }
}

/// Removing a file leaves a sound volume: the file is not among its files any
/// more, and its clusters are free (where it has no more than two million).
#[verifier::spinoff_prover]
pub proof fn removal_keeps_sound(
    s: FsView,
    i: FatInfo,
    dirs: Chains,
    files: Chains,
    path: Seq<char>,
)
    requires
        sound(s, i, dirs, files),
        rm(s, path).1 is Ok,
    ensures
        ({
            let t = rm(s, path).0;
            let e = find_file(s, i, path)->Ok_0;
            &&& find_file(s, i, path) is Ok
            &&& same_but_disk(s, t)
            &&& sound(t, i, dirs, without_file(files, e.cluster))
            &&& hung(s, i, dirs) ==> hung(t, i, dirs)
        }),
{
    reveal(rm);
    reveal(remove);
    sound_tree(s, i, dirs, files);
    let t = rm(s, path).0;
    let (d, n) = target(s, i, path)->Ok_0;
    assert(ways_kept(s, s, i, dirs));
    target_kept(s, s, i, dirs, path);
    let e = find_file(s, i, path)->Ok_0;
    let (lba, slot) = find_pos(s, i, d as int, n)->Ok_0;
    let (a, j) = name_found(s, i, dirs, files, d, n);
    let files2 = without_file(files, e.cluster);
    let ch = if e.cluster >= 2 {
        files[e.cluster]
    } else {
        Seq::empty()
    };
    found_is_entry(s, i, dirs, files, d, n, e);
    if e.cluster >= 2 {
        one_less(s, i, dirs, files, e.cluster);
    }
    free_step(s, i, dirs, files2, e.cluster, ch);
    let s1 = free_chain(s, i, e.cluster);
    quiet_step(s, s1, i, dirs, files2);
    spot_same(s, s1, i, dirs[d], n, a, j, slot);
    spot_reached(s1, i, dirs[d], n, a, j, slot);
    assert(in_range(i, dirs[d][a]));
    sectors_behind(i, dirs[d][a], j);
    assert(s1.raw_read(lba) == s.raw_read(lba));
    let (before, x, after) = wipe_step(s1, i, dirs, files2, d, n, a, j, lba, slot);
    assert(dir_list(s1, i, d as int) == dir_list(s, i, d as int));
    assert(x == e);
    lists_chained(s, s1, t, i, dirs, d, before, seq![x], Seq::empty(), after);
    names_set(s, t, i, dirs, files, dirs, files2, d, before, seq![x], Seq::empty(), after);
    if hung(s, i, dirs) {
        hung_set(s, t, i, dirs, dirs, dirs, d, before, seq![x], Seq::empty(), after);
    }
}

/// A slot that is set after changes beside the directories.
pub(crate) proof fn lists_chained(
    s: FsView,
    u: FsView,
    t: FsView,
    i: FatInfo,
    dirs: Chains,
    d: u32,
    before: Seq<Entry>,
    was: Seq<Entry>,
    is: Seq<Entry>,
    after: Seq<Entry>,
)
    requires
        lists_same(s, u, i, dirs),
        dirs.contains_key(d),
        list_set(u, t, i, dirs, d, before, was, is, after),
    ensures
        list_set(s, t, i, dirs, d, before, was, is, after),
{
}

/// What a name is found to be is known.
pub(crate) proof fn found_is_entry(s: FsView, i: FatInfo, dirs: Chains, files: Chains, d: u32, n: Seq<u8>, e: Entry)
    requires
        names_ok(s, i, dirs, files),
        dirs.contains_key(d),
        first_match(dir_list(s, i, d as int), Some(n)) == Some(e),
    ensures
        entry_known(i, dirs, files, e),
        e.name == n,
        e.attr != 0x0F,
{
    let k = match_is_there(dir_list(s, i, d as int), n);
    assert(entry_known(i, dirs, files, dir_list(s, i, d as int)[k]));
    reveal(dir_list);
    chain_no_long(s, i, d as int, i.cluster_count as nat);
    assert(dir_list(s, i, d as int)[k].attr != 0x0F);
}

/// The entry of a path to a directory.
pub open spec fn dir_entry(s: FsView, i: FatInfo, path: Seq<char>) -> Entry {
    let (d, n) = target(s, i, path)->Ok_0;
    look_up(s, i, d as int, n)->Ok_0
}

/// No other directory leads up to the directory at cluster `c`.
pub open spec fn not_above(s: FsView, i: FatInfo, dirs: Chains, c: u32) -> bool {
    forall|x: u32| #[trigger] dirs.contains_key(x) && x != c ==> parent_of(s, i, x) != c
}

/// A directory less: its chain is clear of the others.
proof fn one_dir_less(s: FsView, i: FatInfo, dirs: Chains, files: Chains, c: u32)
    requires
        chains_ok(s, i, dirs, files),
        dirs.contains_key(c),
        c != i.root_clus,
        not_above(s, i, dirs, c),
    ensures
        chains_ok(s, i, dirs.remove(c), files),
        apart(dirs.remove(c), dirs[c]),
        apart(files, dirs[c]),
{
    let m = dirs.remove(c);
    assert forall|x: u32, a: int, b: int|
        m.contains_key(x) && 0 <= a < m[x].len() && 0 <= b < dirs[c].len() implies #[trigger] m[x][a]
        != #[trigger] dirs[c][b] by {
        assert(m[x] == dirs[x]);
        assert(dirs[x][a] != dirs[c][b]);
    }
    assert forall|f: u32, a: int, b: int|
        files.contains_key(f) && 0 <= a < files[f].len() && 0 <= b < dirs[c].len() implies #[trigger] files[f][a]
        != #[trigger] dirs[c][b] by {
        assert(apart(dirs, files[f]));
        assert(dirs[c][b] != files[f][a]);
    }
    assert forall|f: u32| #[trigger] files.contains_key(f) implies apart(m, files[f]) by {
        assert forall|x: u32, a: int, b: int|
            m.contains_key(x) && 0 <= a < m[x].len() && 0 <= b < files[f].len() implies #[trigger] m[x][a]
            != #[trigger] files[f][b] by {
            assert(m[x] == dirs[x]);
            assert(dirs[x][a] != files[f][b]);
        }
    }
    assert(chains_apart(m)) by {
        assert forall|x: u32, y: u32, a: int, b: int|
            m.contains_key(x) && m.contains_key(y) && x != y && 0 <= a < m[x].len() && 0 <= b
                < m[y].len() implies #[trigger] m[x][a] != #[trigger] m[y][b] by {
            assert(m[x] == dirs[x] && m[y] == dirs[y]);
            assert(dirs[x][a] != dirs[y][b]);
        }
    }
    assert forall|x: u32| #[trigger] m.contains_key(x) implies m.contains_key(parent_of(s, i, x)) by {
        assert(dirs.contains_key(x));
    }
}

/// Removing a directory leaves a sound volume without it, where no other
/// directory leads up to it.
#[verifier::spinoff_prover]
pub proof fn directory_removal_keeps_sound(
    s: FsView,
    i: FatInfo,
    dirs: Chains,
    files: Chains,
    path: Seq<char>,
)
    requires
        sound(s, i, dirs, files),
        rmdir(s, path).1 is Ok,
        not_above(s, i, dirs, dir_entry(s, i, path).cluster),
    ensures
        ({
            let t = rmdir(s, path).0;
            let e = dir_entry(s, i, path);
            &&& target(s, i, path) is Ok
            &&& e.is_dir()
            &&& dir_list(s, i, e.cluster as int).len() == 0
            &&& same_but_disk(s, t)
            &&& sound(t, i, dirs.remove(e.cluster), files)
            &&& hung(s, i, dirs) ==> hung(t, i, dirs.remove(e.cluster))
        }),
{
    reveal(rmdir);
    reveal(remove);
    sound_tree(s, i, dirs, files);
    let t = rmdir(s, path).0;
    let (d, n) = target(s, i, path)->Ok_0;
    assert(ways_kept(s, s, i, dirs));
    target_kept(s, s, i, dirs, path);
    let e = dir_entry(s, i, path);
    let c = e.cluster;
    let (lba, slot) = find_pos(s, i, d as int, n)->Ok_0;
    let (a, j) = name_found(s, i, dirs, files, d, n);
    found_is_entry(s, i, dirs, files, d, n, e);
    assert(in_range(i, dirs[c][0]));
    assert(c != d) by {
        let k = match_is_there(dir_list(s, i, d as int), n);
    }
    let dirs2 = dirs.remove(c);
    one_dir_less(s, i, dirs, files, c);
    free_step(s, i, dirs2, files, c, dirs[c]);
    let s1 = free_chain(s, i, c);
    quiet_step(s, s1, i, dirs2, files);
    assert(dirs2[d] == dirs[d]);
    spot_same(s, s1, i, dirs2[d], n, a, j, slot);
    spot_reached(s1, i, dirs2[d], n, a, j, slot);
    assert(in_range(i, dirs[d][a]));
    sectors_behind(i, dirs[d][a], j);
    assert(s1.raw_read(lba) == s.raw_read(lba));
    let (before, x, after) = wipe_step(s1, i, dirs2, files, d, n, a, j, lba, slot);
    assert(dir_list(s1, i, d as int) == dir_list(s, i, d as int));
    assert(x == e);
    // the removed directory lists nothing that is named
    names_less(s, t, i, dirs, files, d, before, e, after);
    if hung(s, i, dirs) {
        lists_chained(s, s1, t, i, dirs2, d, before, seq![x], Seq::empty(), after);
        hung_set(s, t, i, dirs, dirs2, dirs2, d, before, seq![x], Seq::empty(), after);
    }
}

/// The names once a directory without entries, and its own entry, are gone.
proof fn names_less(
    s: FsView,
    t: FsView,
    i: FatInfo,
    dirs: Chains,
    files: Chains,
    d: u32,
    before: Seq<Entry>,
    e: Entry,
    after: Seq<Entry>,
)
    requires
        chains_ok(s, i, dirs, files),
        names_ok(s, i, dirs, files),
        dirs.contains_key(d),
        e.is_dir(),
        dirs.contains_key(e.cluster),
        e.cluster != d,
        dir_list(s, i, d as int) == before + seq![e] + after,
        dir_list(t, i, d as int) == before + Seq::<Entry>::empty() + after,
        forall|c: u32|
            #![trigger dirs.contains_key(c)]
            dirs.contains_key(c) && c != e.cluster && c != d ==> dir_list(t, i, c as int) == dir_list(
                s,
                i,
                c as int,
            ),
    ensures
        names_ok(t, i, dirs.remove(e.cluster), files),
{
    let dirs2 = dirs.remove(e.cluster);
    let p = before.len() as int;
    assert(is_entry(s, i, dirs, d, p) && entry_of(s, i, d, p) == e);
    assert(in_range(i, dirs[e.cluster][0]));
    assert forall|c: u32, k: int| dirs2.contains_key(c) && 0 <= k < dir_list(t, i, c as int).len() implies entry_known(
        i,
        dirs2,
        files,
        #[trigger] dir_list(t, i, c as int)[k],
    ) by {
        let l = if c == d && k >= p {
            k + 1
        } else {
            k
        };
        assert(entry_of(s, i, c, l) == dir_list(t, i, c as int)[k]);
        named_once(s, i, dirs, files, c, l, d, p);
        let f = entry_of(s, i, c, l);
        if f.is_dir() {
            assert(in_range(i, dirs[f.cluster][0]));
        }
    }
    assert forall|c: u32, k: int, x: u32, l: int|
        dirs2.contains_key(c) && 0 <= k < dir_list(t, i, c as int).len() && dirs2.contains_key(x) && 0
            <= l < dir_list(t, i, x as int).len() && (#[trigger] dir_list(t, i, c as int)[k]).cluster
            >= 2 && dir_list(t, i, c as int)[k].cluster == (#[trigger] dir_list(
            t,
            i,
            x as int,
        )[l]).cluster implies c == x && k == l by {
        let k0 = if c == d && k >= p {
            k + 1
        } else {
            k
        };
        let l0 = if x == d && l >= p {
            l + 1
        } else {
            l
        };
        assert(entry_of(s, i, c, k0) == dir_list(t, i, c as int)[k]);
        assert(entry_of(s, i, x, l0) == dir_list(t, i, x as int)[l]);
        named_once(s, i, dirs, files, c, k0, x, l0);
    }
}

// ---------- writing ----------

/// Clusters are taken for a new chain: they belong to no other.
proof fn taking_step(s: FsView, i: FatInfo, dirs: Chains, files: Chains, need: int)
    requires
        roomy(s, i, need),
        chains_ok(s, i, dirs, files),
        0 <= need,
        alloc_chain(s, i, need).1 is Some,
    ensures
        ({
            let t = alloc_chain(s, i, need).0;
            let chain = alloc_chain(s, i, need).1->0;
            &&& quiet(s, t, i, dirs, files)
            &&& only_tables(s, t, i)
            &&& chain.len() == need
            &&& need > 0 ==> chain_ok(t, i, ints(chain))
            &&& spare(t, i) == spare(s, i) - need
            &&& apart(dirs, ints(chain))
            &&& apart(files, ints(chain))
            &&& forall|k: int| 0 <= k < chain.len() ==> read_fat(s, i, (#[trigger] chain[k]) as int) == 0
        }),
{
    chain_is_taken(s, i, need);
    let t = alloc_chain(s, i, need).0;
    let chain = alloc_chain(s, i, need).1->0;
    let ci = ints(chain);
    assert forall|c: u32| #[trigger] dirs.contains_key(c) implies same_links(s, t, i, dirs[c])
        && same_contents(s, t, i, dirs[c], 0) by {
        taken_beside(s, t, i, dirs, c, chain);
        tables_keep_contents(s, t, i, dirs[c]);
    }
    assert forall|f: u32| #[trigger] files.contains_key(f) implies same_links(s, t, i, files[f]) by {
        taken_beside(s, t, i, files, f, chain);
    }
    assert forall|c: u32, a: int, b: int|
        dirs.contains_key(c) && 0 <= a < dirs[c].len() && 0 <= b < ci.len() implies #[trigger] dirs[c][a]
        != #[trigger] ci[b] by {
        chain_in_use(s, i, dirs[c], a);
        assert(read_fat(s, i, chain[b] as int) == 0);
    }
    assert forall|c: u32, a: int, b: int|
        files.contains_key(c) && 0 <= a < files[c].len() && 0 <= b < ci.len() implies #[trigger] files[c][a]
        != #[trigger] ci[b] by {
        chain_in_use(s, i, files[c], a);
        assert(read_fat(s, i, chain[b] as int) == 0);
    }
}

proof fn taken_beside(s: FsView, t: FsView, i: FatInfo, m: Chains, c: u32, chain: Seq<u32>)
    requires
        m.contains_key(c),
        chain_ok(s, i, m[c]),
        new_chain(s, t, i, chain),
    ensures
        same_links(s, t, i, m[c]),
{
    let h = m[c];
    let ci = ints(chain);
    assert forall|q: int| 0 <= q < h.len() implies read_fat(t, i, #[trigger] h[q]) == read_fat(
        s,
        i,
        h[q],
    ) by {
        assert(in_range(i, h[q]));
        chain_in_use(s, i, h, q);
        if ci.contains(h[q]) {
            let k = choose|k: int| 0 <= k < ci.len() && ci[k] == h[q];
            assert(read_fat(s, i, chain[k] as int) == 0);
        }
    }
}

/// The files with one more, whose chain is clear of the others.
proof fn one_more(s: FsView, i: FatInfo, dirs: Chains, files: Chains, f: u32, ch: Seq<int>)
    requires
        chains_ok(s, i, dirs, files),
        chain_ok(s, i, ch),
        ch[0] == f,
        apart(dirs, ch),
        apart(files, ch),
    ensures
        chains_ok(s, i, dirs, files.insert(f, ch)),
        !files.contains_key(f),
        !dirs.contains_key(f),
{
    let m = files.insert(f, ch);
    if files.contains_key(f) {
        assert(files[f][0] != ch[0]);
    }
    if dirs.contains_key(f) {
        assert(dirs[f][0] != ch[0]);
    }
    assert(chains_apart(m)) by {
        assert forall|x: u32, y: u32, a: int, b: int|
            m.contains_key(x) && m.contains_key(y) && x != y && 0 <= a < m[x].len() && 0 <= b
                < m[y].len() implies #[trigger] m[x][a] != #[trigger] m[y][b] by {
            if x == f {
                assert(files[y][b] != ch[a]);
            } else if y == f {
                assert(files[x][a] != ch[b]);
            } else {
                assert(files[x][a] != files[y][b]);
            }
        }
    }
}

/// The files with the chain that data was put in, if it has clusters.
pub open spec fn with_file(files: Chains, chain: Seq<u32>) -> Chains {
    if chain.len() > 0 {
        files.insert(chain[0], ints(chain))
    } else {
        files
    }
}

/// The data goes to clusters of its own.
proof fn filling_step(
    s: FsView,
    i: FatInfo,
    dirs: Chains,
    files: Chains,
    chain: Seq<u32>,
    data: Seq<u8>,
)
    requires
        chains_ok(s, i, dirs, files),
        chain.len() == clusters_for(i, data.len() as int),
        chain.len() > 0 ==> chain_ok(s, i, ints(chain)),
        apart(dirs, ints(chain)),
        fill_chain(s, i, chain, data, 0).1,
    ensures
        quiet(s, fill_chain(s, i, chain, data, 0).0, i, dirs, files),
{
    let ci = ints(chain);
    let t = fill_chain(s, i, chain, data, 0).0;
    assert forall|a: int, b: int| 0 <= a < b < chain.len() implies #[trigger] chain[a]
        != #[trigger] chain[b] by {
        assert(ci[a] != ci[b]);
    }
    chain_filled(s, i, chain, data);
    assert forall|l: int| l < i.data_start implies #[trigger] t.raw_read(l) == s.raw_read(l) by {
        assert forall|q: int, j: int| 0 <= q < chain.len() && 0 <= j < i.sec_per_clus implies l
            != #[trigger] sector_of(i, #[trigger] chain[q] as int, j) by {
            assert(in_range(i, ci[q]));
            sectors_behind(i, chain[q] as int, j);
        }
    }
    tables_stay(s, t, i);
    assert forall|c: u32| #[trigger] dirs.contains_key(c) implies same_links(s, t, i, dirs[c])
        && same_contents(s, t, i, dirs[c], 0) by {
        let h = dirs[c];
        assert forall|q: int| 0 <= q < h.len() implies read_fat(t, i, #[trigger] h[q]) == read_fat(
            s,
            i,
            h[q],
        ) && same_clus(s, t, i, h[q], 0) by {
            let x = h[q];
            assert(in_range(i, x));
            assert forall|r: int| 0 <= r < i.sec_per_clus implies #[trigger] read_clus(t, i, x, r)
                == read_clus(s, i, x, r) by {
                let l = sector_of(i, x, r);
                assert forall|v: int, j: int| 0 <= v < chain.len() && 0 <= j < i.sec_per_clus implies l
                    != #[trigger] sector_of(i, #[trigger] chain[v] as int, j) by {
                    if l == sector_of(i, chain[v] as int, j) {
                        sectors_apart(i, x, r, chain[v] as int, j);
                        assert(dirs[c][q] != ci[v]);
                    }
                }
            }
        }
    }
    assert forall|f: u32| #[trigger] files.contains_key(f) implies same_links(s, t, i, files[f]) by {
        let h = files[f];
        assert forall|q: int| 0 <= q < h.len() implies read_fat(t, i, #[trigger] h[q]) == read_fat(
            s,
            i,
            h[q],
        ) by {
            assert(in_range(i, h[q]));
        }
    }
}

/// The states of a write, as far as they are known to go.
spec fn wrote(s: FsView, i: FatInfo, path: Seq<char>, data: Seq<u8>) -> bool {
    let (d, n) = target(s, i, path)->Ok_0;
    let existing = first_match(dir_list(s, i, d as int), Some(n));
    let need = clusters_for(i, data.len() as int);
    let a = alloc_chain(s, i, need);
    let chain = a.1->0;
    let first = if chain.len() == 0 {
        0
    } else {
        chain[0]
    };
    let e = enter_file(a.0, i, d, n, existing, first, data.len() as u32);
    let f = fill_chain(e.0, i, chain, data, 0);
    &&& target(s, i, path) is Ok
    &&& data.len() <= 65536
    &&& a.1 is Some
    &&& e.1 is Ok
    &&& f.1
    &&& write_file(s, path, data).0 == f.0
}

proof fn write_parts(s: FsView, i: FatInfo, path: Seq<char>, data: Seq<u8>)
    requires
        s.fat == Some(i),
        write_file(s, path, data).1 is Ok,
    ensures
        wrote(s, i, path, data),
{
    reveal(write_file);
}

/// The files after a write: the chain of the old contents is gone, and that of
/// the new is there.
pub open spec fn files_after(s: FsView, i: FatInfo, files: Chains, path: Seq<char>, data: Seq<u8>) -> Chains {
    let (d, n) = target(s, i, path)->Ok_0;
    let chain = alloc_chain(s, i, clusters_for(i, data.len() as int)).1->0;
    match first_match(dir_list(s, i, d as int), Some(n)) {
        Some(e) => without_file(with_file(files, chain), e.cluster),
        None => with_file(files, chain),
    }
}

/// An entry changes its contents: the same name, another chain.
#[verifier::spinoff_prover]
proof fn entry_replaced(
    s: FsView,
    i: FatInfo,
    dirs: Chains,
    files: Chains,
    d: u32,
    n: Seq<u8>,
    e0: Entry,
    first: u32,
    size: u32,
) -> (r: (Seq<Entry>, Seq<Entry>))
    requires
        chains_ok(s, i, dirs, files),
        dirs.contains_key(d),
        file_name(n),
        e0.attr != 0x0F,
        first_match(dir_list(s, i, d as int), Some(n)) == Some(e0),
        e0.cluster >= 2 ==> files.contains_key(e0.cluster),
        enter_file(s, i, d, n, Some(e0), first, size).1 is Ok,
    ensures
        ({
            let t = enter_file(s, i, d, n, Some(e0), first, size).0;
            let e = Entry { name: n, attr: e0.attr, cluster: first, size };
            &&& same_but_disk(s, t)
            &&& chains_ok(t, i, dirs, without_file(files, e0.cluster))
            &&& list_set(s, t, i, dirs, d, r.0, seq![e0], seq![e], r.1)
        }),
{
    reveal(enter_file);
    let t = enter_file(s, i, d, n, Some(e0), first, size).0;
    let e = Entry { name: n, attr: e0.attr, cluster: first, size };
    let files2 = without_file(files, e0.cluster);
    let ch = if e0.cluster >= 2 {
        files[e0.cluster]
    } else {
        Seq::empty()
    };
    if e0.cluster >= 2 {
        one_less(s, i, dirs, files, e0.cluster);
    }
    free_step(s, i, dirs, files2, e0.cluster, ch);
    let s1 = free_chain(s, i, e0.cluster);
    quiet_step(s, s1, i, dirs, files2);
    let (lba, slot) = find_pos(s1, i, d as int, n)->Ok_0;
    let (a, j) = name_found(s1, i, dirs, files2, d, n);
    spot_reached(s1, i, dirs[d], n, a, j, slot);
    entry_written(s1, lba, slot, e);
    let b = s1.raw_read(lba)->0;
    held_one(b, slot, n);
    entry_sets(b, slot, e);
    let (before, after) = slot_step(s1, t, i, dirs, files2, d, n, a, j, slot);
    let x = entry_at(b, 32 * slot);
    found_behind(before, x, after, n);
    assert(dir_list(s1, i, d as int) == dir_list(s, i, d as int));
    assert(x == e0);
    lists_chained(s, s1, t, i, dirs, d, before, seq![e0], seq![e], after);
    (before, after)
}

/// An entry is made in a directory that has none of the name.
#[verifier::spinoff_prover]
pub(crate) proof fn entry_made(s: FsView, i: FatInfo, dirs: Chains, files: Chains, d: u32, e: Entry) -> (r: (
    Chains,
    Seq<Entry>,
    Seq<Entry>,
))
    requires
        roomy(s, i, 1),
        chains_ok(s, i, dirs, files),
        dirs.contains_key(d),
        file_name(e.name),
        e.attr != 0x0F,
        first_match(dir_list(s, i, d as int), Some(e.name)) is None,
        add_entry(s, i, d as int, e).1 is Ok,
    ensures
        ({
            let t = add_entry(s, i, d as int, e).0;
            &&& same_but_disk(s, t)
            &&& chains_ok(t, i, r.0, files)
            &&& forall|c: u32| #[trigger] r.0.contains_key(c) == dirs.contains_key(c)
            &&& grown(dirs, r.0, d)
            &&& list_set(s, t, i, dirs, d, r.1, Seq::empty(), seq![e], r.2)
            &&& forall|x: int, q: int|
                in_range(i, x) && read_fat(s, i, x) != 0 && 0 <= q < i.sec_per_clus ==> #[trigger] kept_at(
                    s,
                    t,
                    i,
                    x,
                    q,
                )
        }),
{
    reveal(add_entry);
    let t = add_entry(s, i, d as int, e).0;
    let (u, f) = find_free_slot(s, i, d as int);
    let (lba, slot) = f->Ok_0;
    assert(u.raw_read(lba) is Some) by {
        reveal(write_entry);
    }
    let (more, a, j) = slot_found(s, i, dirs, files, d, e.name);
    let (before, after) = entry_step(u, i, more, files, d, a, j, slot, e);
    assert(list_set(s, t, i, dirs, d, before, Seq::empty(), seq![e], after)) by {
        assert forall|c: u32| #[trigger] dirs.contains_key(c) implies parent_of(t, i, c) == parent_of(
            s,
            i,
            c,
        ) && (c != d ==> dir_list(t, i, c as int) == dir_list(s, i, c as int)) by {
            assert(more.contains_key(c));
        }
    }
    assert forall|x: int, q: int|
        in_range(i, x) && read_fat(s, i, x) != 0 && 0 <= q < i.sec_per_clus implies #[trigger] kept_at(
        s,
        t,
        i,
        x,
        q,
    ) by {
        assert(same_clus(s, u, i, x, 0));
        assert(read_clus(u, i, x, q) == read_clus(s, i, x, q));
        if x == more[d][a] {
            assert(kept_at(u, t, i, more[d][a], q));
        } else {
            assert(same_clus(u, t, i, x, 0));
            assert(read_clus(t, i, x, q) == read_clus(u, i, x, q));
        }
    }
    (more, before, after)
}

/// Writing a file leaves a sound volume, unless the path names a directory.
#[verifier::spinoff_prover]
pub proof fn writing_keeps_sound(
    s: FsView,
    i: FatInfo,
    dirs: Chains,
    files: Chains,
    path: Seq<char>,
    data: Seq<u8>,
) -> (more: Chains)
    requires
        sound(s, i, dirs, files),
        find_file(s, i, path) != Err::<Entry, FsErr>(FsErr::IsDir),
        write_file(s, path, data).1 is Ok,
        room_for(s, i, data),
    ensures
        same_but_disk(s, write_file(s, path, data).0),
        sound(write_file(s, path, data).0, i, more, files_after(s, i, files, path, data)),
        hung(s, i, dirs) ==> hung(write_file(s, path, data).0, i, more),
{
    write_parts(s, i, path, data);
    sound_tree(s, i, dirs, files);
    let t = write_file(s, path, data).0;
    let (d, n) = target(s, i, path)->Ok_0;
    assert(ways_kept(s, s, i, dirs));
    target_kept(s, s, i, dirs, path);
    let existing = first_match(dir_list(s, i, d as int), Some(n));
    let need = clusters_for(i, data.len() as int);
    enough(i, data.len() as int);
    taking_step(s, i, dirs, files, need);
    let s1 = alloc_chain(s, i, need).0;
    let chain = alloc_chain(s, i, need).1->0;
    quiet_step(s, s1, i, dirs, files);
    let first = if chain.len() == 0 {
        0
    } else {
        chain[0]
    };
    let files1 = with_file(files, chain);
    if chain.len() > 0 {
        one_more(s1, i, dirs, files, chain[0], ints(chain));
    }
    let size = data.len() as u32;
    let s2 = enter_file(s1, i, d, n, existing, first, size).0;
    let (more, files2, before, was, e, after) = match existing {
        Some(e0) => {
            found_is_entry(s, i, dirs, files, d, n, e0);
            assert(!e0.is_dir());
            let (before, after) = entry_replaced(s1, i, dirs, files1, d, n, e0, first, size);
            let e = Entry { name: n, attr: e0.attr, cluster: first, size };
            (dirs, without_file(files1, e0.cluster), before, seq![e0], e, after)
        },
        None => {
            reveal(enter_file);
            let e = Entry { name: n, attr: 32, cluster: first, size };
            let (more, before, after) = entry_made(s1, i, dirs, files1, d, e);
            (more, files1, before, Seq::empty(), e, after)
        },
    };
    lists_chained(s, s1, s2, i, dirs, d, before, was, seq![e], after);
    written_rest(s, s2, i, dirs, files, more, files2, d, before, was, e, after, chain, data);
    more
}

/// The end of a write: the data follows, and the names are in order.
#[verifier::spinoff_prover]
proof fn written_rest(
    s: FsView,
    s2: FsView,
    i: FatInfo,
    dirs: Chains,
    files: Chains,
    more: Chains,
    files2: Chains,
    d: u32,
    before: Seq<Entry>,
    was: Seq<Entry>,
    e: Entry,
    after: Seq<Entry>,
    chain: Seq<u32>,
    data: Seq<u8>,
)
    requires
        sound(s, i, dirs, files),
        dirs.contains_key(d),
        same_but_disk(s, s2),
        chains_ok(s2, i, more, files2),
        forall|c: u32| #[trigger] more.contains_key(c) == dirs.contains_key(c),
        list_set(s, s2, i, dirs, d, before, was, seq![e], after),
        was.len() <= 1,
        files2 == (if was.len() == 1 {
            without_file(with_file(files, chain), was[0].cluster)
        } else {
            with_file(files, chain)
        }),
        was.len() == 1 ==> (was[0].cluster >= 2 ==> files.contains_key(was[0].cluster)),
        was.len() == 1 ==> !was[0].is_dir(),
        !e.is_dir(),
        e.cluster == (if chain.len() == 0 {
            0u32
        } else {
            chain[0]
        }),
        chain.len() == clusters_for(i, data.len() as int),
        apart(files, ints(chain)),
        forall|k: int| 0 <= k < chain.len() ==> read_fat(s, i, (#[trigger] chain[k]) as int) == 0,
        fill_chain(s2, i, chain, data, 0).1,
    ensures
        same_but_disk(s, fill_chain(s2, i, chain, data, 0).0),
        sound(fill_chain(s2, i, chain, data, 0).0, i, more, files2),
        hung(s, i, dirs) ==> hung(fill_chain(s2, i, chain, data, 0).0, i, more),
{
    let t = fill_chain(s2, i, chain, data, 0).0;
    if chain.len() > 0 {
        if was.len() == 1 && was[0].cluster == chain[0] && chain[0] >= 2 {
            assert(files[was[0].cluster][0] != ints(chain)[0]);
        }
        assert(files2.contains_key(chain[0]));
        assert(files2[chain[0]] == ints(chain));
        assert(chain_ok(s2, i, ints(chain)));
        assert(apart(more, ints(chain)));
    }
    filling_step(s2, i, more, files2, chain, data);
    quiet_step(s2, t, i, more, files2);
    let is = seq![e];
    assert(list_set(s, t, i, dirs, d, before, was, is, after)) by {
        assert forall|c: u32| #[trigger] dirs.contains_key(c) implies parent_of(t, i, c) == parent_of(
            s,
            i,
            c,
        ) && (c != d ==> dir_list(t, i, c as int) == dir_list(s, i, c as int)) by {
            assert(more.contains_key(c));
        }
        assert(more.contains_key(d));
    }
    if e.cluster >= 2 {
        assert forall|c: u32, k: int| #[trigger]
            is_entry(s, i, dirs, c, k) && entry_of(s, i, c, k).cluster == e.cluster implies c == d
            && was.len() == 1 && k == before.len() by {
            let f = entry_of(s, i, c, k);
            named_once(s, i, dirs, files, c, k, c, k);
            assert(read_fat(s, i, chain[0] as int) == 0);
            if f.is_dir() {
                chain_in_use(s, i, dirs[f.cluster], 0);
            } else {
                chain_in_use(s, i, files[f.cluster], 0);
            }
        }
    }
    assert(may_set(s, t, i, dirs, files, more, files2, d, before, was, is, after)) by {
        assert forall|x: u32| #[trigger]
            files.contains_key(x) && !files2.contains_key(x) implies was.len() == 1 && x
            == was[0].cluster by {}
    }
    names_set(s, t, i, dirs, files, more, files2, d, before, was, is, after);
    if hung(s, i, dirs) {
        hung_set(s, t, i, dirs, dirs, more, d, before, was, is, after);
    }
}

// ---------- directories ----------

/// A cluster is zeroed, whole.
proof fn zeroed_clus(s: FsView, i: FatInfo, c: int, k: int)
    requires
        2 <= c,
        0 <= k,
        s.disk.wf(),
        zero_clus(s, i, c, k).1,
    ensures
        ({
            let t = zero_clus(s, i, c, k).0;
            &&& same_but_disk(s, t)
            &&& t.disk.wf()
            &&& forall|q: int|
                k <= q < i.sec_per_clus ==> #[trigger] read_clus(t, i, c, q) == Some(zero_bytes(512))
            &&& forall|l: int|
                (forall|q: int| k <= q < i.sec_per_clus ==> l != #[trigger] sector_of(i, c, q))
                    ==> #[trigger] t.raw_read(l) == s.raw_read(l)
        }),
    decreases i.sec_per_clus - k,
{
    if k < i.sec_per_clus {
        let z = zero_bytes(512);
        let l = sector_of(i, c, k);
        sector_put(s, l, z);
        let s1 = s.raw_write(l, z)->0;
        zeroed_clus(s1, i, c, k + 1);
        let t = zero_clus(s, i, c, k).0;
        assert(t.raw_read(l) == s1.raw_read(l)) by {
            assert forall|q: int| k + 1 <= q < i.sec_per_clus implies l != #[trigger] sector_of(i, c, q) by {}
        }
        assert forall|m: int|
            (forall|q: int| k <= q < i.sec_per_clus ==> m != #[trigger] sector_of(i, c, q)) implies #[trigger] t.raw_read(
            m,
        ) == s.raw_read(m) by {
            assert(m != sector_of(i, c, k));
            assert(t.raw_read(m) == s1.raw_read(m));
        }
    }
}

/// The first sector of a directory: itself, and the directory above.
pub open spec fn dots_sector(c: u32, up: u32) -> Seq<u8> {
    with_entry(
        with_entry(
            zero_bytes(512),
            0,
            Entry { name: dots(1), attr: 16, cluster: c, size: 0 },
        ),
        1,
        Entry { name: dots(2), attr: 16, cluster: up, size: 0 },
    )
}

pub(crate) proof fn dots_slots(c: u32, up: u32)
    ensures
        dots_sector(c, up).len() == 512,
        sector_list(dots_sector(c, up), 0) == (Seq::<Entry>::empty(), true),
        dotdot_in_sector(dots_sector(c, up), 0) == Some(up),
        sector_tidy(dots_sector(c, up)),
{
    let z = zero_bytes(512);
    let one = Entry { name: dots(1), attr: 16, cluster: c, size: 0 };
    let two = Entry { name: dots(2), attr: 16, cluster: up, size: 0 };
    let a = with_entry(z, 0, one);
    let b = dots_sector(c, up);
    entry_entered(z, 0, one);
    entry_entered(a, 1, two);
    assert(b[0] == a[0] && b[1] == a[1]);
    assert(b[64] == a[64] && a[64] == z[64]);
    assert(b[34] == two.name[2]) by {
        assert(entry_at(b, 32).name[2] == b[34]);
    }
    assert(dotted(b, 0));
    assert(dotted(b, 32));
    assert(sector_list(b, 2) == (Seq::<Entry>::empty(), true));
    assert(sector_list(b, 1) == sector_list(b, 2));
    assert(sector_list(b, 0) == sector_list(b, 1));
    assert(dotdot_in_sector(b, 1) == Some(entry_at(b, 32).cluster));
    assert(dotdot_in_sector(b, 0) == dotdot_in_sector(b, 1));
    assert forall|k: int, r: int| 0 <= k <= r < 16 && #[trigger] ends_at(b, k) implies #[trigger] ends_at(
        b,
        r,
    ) by {
        assert(k >= 2);
        assert(b[32 * r] == a[32 * r]);
        assert(a[32 * r] == z[32 * r]);
    }
}

/// The two entries are written.
pub(crate) proof fn dots_written(s: FsView, i: FatInfo, c: u32, up: u32)
    requires
        s.disk.wf(),
        s.raw_read(sector_of(i, c as int, 0)) == Some(zero_bytes(512)),
        write_dots(s, i, c, up).1 is Ok,
    ensures
        one_sector(s, write_dots(s, i, c, up).0, sector_of(i, c as int, 0)),
        write_dots(s, i, c, up).0.raw_read(sector_of(i, c as int, 0)) == Some(dots_sector(c, up)),
{
    reveal(write_dots);
    let lba = sector_of(i, c as int, 0);
    let one = Entry { name: dots(1), attr: 16, cluster: c, size: 0 };
    let two = Entry { name: dots(2), attr: 16, cluster: up, size: 0 };
    entry_written(s, lba, 0, one);
    let s1 = write_entry(s, lba, 0, one).0;
    entry_written(s1, lba, 1, two);
}

/// A fresh directory, of one cluster.
pub open spec fn fresh_dir(s: FsView, i: FatInfo, c: u32, up: u32) -> bool {
    &&& in_range(i, c as int)
    &&& read_fat(s, i, c as int) == 0x0FFF_FFF8
    &&& read_clus(s, i, c as int, 0) == Some(dots_sector(c, up))
    &&& forall|q: int|
        1 <= q < i.sec_per_clus ==> #[trigger] read_clus(s, i, c as int, q) == Some(zero_bytes(512))
}

/// What a fresh directory holds, and where it leads up to.
proof fn fresh_dir_ok(s: FsView, i: FatInfo, c: u32, up: u32)
    requires
        volume_ok(s, i),
        fresh_dir(s, i, c, up),
        c != i.root_clus,
    ensures
        chain_ok(s, i, seq![c as int]),
        chain_tidy(s, i, seq![c as int]),
        dir_list(s, i, c as int).len() == 0,
        parent_of(s, i, c) == (if up == 0 {
            i.root_clus
        } else {
            up
        }),
{
    let ch = seq![c as int];
    dots_slots(c, up);
    assert(chain_ok(s, i, ch)) by {
        assert forall|k: int| 0 <= k < ch.len() implies in_range(i, #[trigger] ch[k]) && chain_entry(
            s,
            i,
            ch,
            k,
            read_fat(s, i, ch[k]),
        ) by {
            assert(ch[k] == c);
        }
    }
    let z = zero_bytes(512);
    assert(sector_blank(z) && sector_tidy(z));
    assert(clus_tidy(s, i, c as int)) by {
        assert forall|q: int| 0 <= q < i.sec_per_clus implies #[trigger] tidy_at(s, i, c as int, q) by {
            if q > 0 {
                assert(read_clus(s, i, c as int, q) == Some(z));
            }
        }
        assert forall|q: int, r: int|
            0 <= q < r < i.sec_per_clus && #[trigger] ended_at(s, i, c as int, q) implies #[trigger] void_at(
            s,
            i,
            c as int,
            r,
        ) by {
            assert(read_clus(s, i, c as int, r) == Some(z));
        }
    }
    assert forall|p: int| 0 <= p < ch.len() implies clus_tidy(s, i, #[trigger] ch[p]) by {
        assert(ch[p] == c);
    }
    reveal(dir_list);
    reveal(parent_of);
    assert(clus_list(s, i, c as int, 0) == (Seq::<Entry>::empty(), true));
    assert(dotdot_in_clus(s, i, c as int, 0) == Some(up));
    assert(dotdot_in_chain(s, i, c as int, i.cluster_count as nat) == Some(up));
}

/// Only sectors of one cluster were written, which no chain has.
proof fn beside_cluster(s: FsView, t: FsView, i: FatInfo, dirs: Chains, files: Chains, c: int)
    requires
        chains_ok(s, i, dirs, files),
        same_but_disk(s, t),
        t.disk.wf(),
        in_range(i, c),
        forall|l: int|
            (forall|q: int| 0 <= q < i.sec_per_clus ==> l != #[trigger] sector_of(i, c, q))
                ==> #[trigger] t.raw_read(l) == s.raw_read(l),
        apart(dirs, seq![c]),
    ensures
        quiet(s, t, i, dirs, files),
        read_fat(t, i, c) == read_fat(s, i, c),
        forall|x: int| in_range(i, x) && x != c ==> #[trigger] same_clus(s, t, i, x, 0),
{
    assert forall|l: int| l < i.data_start implies #[trigger] t.raw_read(l) == s.raw_read(l) by {
        assert forall|q: int| 0 <= q < i.sec_per_clus implies l != #[trigger] sector_of(i, c, q) by {
            sectors_behind(i, c, q);
        }
    }
    tables_stay(s, t, i);
    assert forall|x: int| in_range(i, x) && x != c implies #[trigger] same_clus(s, t, i, x, 0) by {
        assert forall|q: int| 0 <= q < i.sec_per_clus implies #[trigger] read_clus(t, i, x, q)
            == read_clus(s, i, x, q) by {
            let l = sector_of(i, x, q);
            assert forall|r: int| 0 <= r < i.sec_per_clus implies l != #[trigger] sector_of(i, c, r) by {
                if l == sector_of(i, c, r) {
                    sectors_apart(i, x, q, c, r);
                }
            }
        }
    }
    assert forall|d: u32| #[trigger] dirs.contains_key(d) implies same_links(s, t, i, dirs[d])
        && same_contents(s, t, i, dirs[d], 0) by {
        let h = dirs[d];
        assert forall|q: int| 0 <= q < h.len() implies read_fat(t, i, #[trigger] h[q]) == read_fat(
            s,
            i,
            h[q],
        ) && same_clus(s, t, i, h[q], 0) by {
            assert(in_range(i, h[q]));
            assert(dirs[d][q] != seq![c][0]);
        }
    }
    assert forall|f: u32| #[trigger] files.contains_key(f) implies same_links(s, t, i, files[f]) by {
        let h = files[f];
        assert forall|q: int| 0 <= q < h.len() implies read_fat(t, i, #[trigger] h[q]) == read_fat(
            s,
            i,
            h[q],
        ) by {
            assert(in_range(i, h[q]));
        }
    }
}

/// A free cluster is taken.
proof fn cluster_step(s: FsView, i: FatInfo, dirs: Chains, files: Chains)
    requires
        roomy(s, i, 1),
        chains_ok(s, i, dirs, files),
        alloc_cluster(s, i).1 is Some,
    ensures
        ({
            let (t, r) = alloc_cluster(s, i);
            let c = r->0;
            &&& quiet(s, t, i, dirs, files)
            &&& in_range(i, c as int)
            &&& read_fat(s, i, c as int) == 0
            &&& read_fat(t, i, c as int) == 0x0FFF_FFF8
            &&& apart(dirs, seq![c as int])
            &&& apart(files, seq![c as int])
        }),
{
    first_free_is_taken(s, i);
    let (t, r) = alloc_cluster(s, i);
    let c = r->0;
    let ch = seq![c as int];
    assert forall|d: u32, a: int, b: int|
        dirs.contains_key(d) && 0 <= a < dirs[d].len() && 0 <= b < ch.len() implies #[trigger] dirs[d][a]
        != #[trigger] ch[b] by {
        chain_in_use(s, i, dirs[d], a);
    }
    assert forall|d: u32, a: int, b: int|
        files.contains_key(d) && 0 <= a < files[d].len() && 0 <= b < ch.len() implies #[trigger] files[d][a]
        != #[trigger] ch[b] by {
        chain_in_use(s, i, files[d], a);
    }
    assert forall|x: int| in_range(i, x) && !ch.contains(x) implies #[trigger] read_fat(t, i, x)
        == read_fat(s, i, x) by {
        if x == c {
            assert(ch[0] == x);
        }
    }
    assert forall|d: u32| #[trigger] dirs.contains_key(d) implies same_links(s, t, i, dirs[d])
        && same_contents(s, t, i, dirs[d], 0) by {
        freed_beside(s, t, i, dirs, d, ch);
        tables_keep_contents(s, t, i, dirs[d]);
    }
    assert forall|f: u32| #[trigger] files.contains_key(f) implies same_links(s, t, i, files[f]) by {
        freed_beside(s, t, i, files, f, ch);
    }
}

/// The directories with one more.
proof fn one_dir_more(s: FsView, i: FatInfo, dirs: Chains, files: Chains, c: u32)
    requires
        chains_ok(s, i, dirs, files),
        chain_ok(s, i, seq![c as int]),
        chain_tidy(s, i, seq![c as int]),
        dirs.contains_key(parent_of(s, i, c)),
        apart(dirs, seq![c as int]),
        apart(files, seq![c as int]),
    ensures
        chains_ok(s, i, dirs.insert(c, seq![c as int]), files),
        !dirs.contains_key(c),
        !files.contains_key(c),
{
    let ch = seq![c as int];
    let m = dirs.insert(c, ch);
    if dirs.contains_key(c) {
        assert(dirs[c][0] != ch[0]);
    }
    if files.contains_key(c) {
        assert(files[c][0] != ch[0]);
    }
    assert(chains_apart(m)) by {
        assert forall|x: u32, y: u32, a: int, b: int|
            m.contains_key(x) && m.contains_key(y) && x != y && 0 <= a < m[x].len() && 0 <= b
                < m[y].len() implies #[trigger] m[x][a] != #[trigger] m[y][b] by {
            if x == c {
                assert(dirs[y][b] != ch[a]);
            } else if y == c {
                assert(dirs[x][a] != ch[b]);
            } else {
                assert(dirs[x][a] != dirs[y][b]);
            }
        }
    }
    assert forall|f: u32| #[trigger] files.contains_key(f) implies apart(m, files[f]) by {
        assert forall|x: u32, a: int, b: int|
            m.contains_key(x) && 0 <= a < m[x].len() && 0 <= b < files[f].len() implies #[trigger] m[x][a]
            != #[trigger] files[f][b] by {
            if x == c {
                assert(files[f][b] != ch[a]);
            } else {
                assert(dirs[x][a] != files[f][b]);
            }
        }
    }
    assert forall|x: u32| #[trigger] m.contains_key(x) implies m.contains_key(parent_of(s, i, x)) by {
        if x != c {
            assert(dirs.contains_key(x));
        }
    }
}

/// A new directory is named by the one that it leads up to.
proof fn hung_below(
    s: FsView,
    t: FsView,
    i: FatInfo,
    dirs: Chains,
    all: Chains,
    d: u32,
    before: Seq<Entry>,
    e: Entry,
    after: Seq<Entry>,
)
    requires
        hung(s, i, dirs),
        dirs.contains_key(i.root_clus),
        dirs.contains_key(d),
        list_set(s, t, i, dirs, d, before, Seq::empty(), seq![e], after),
        forall|x: u32| #[trigger] dirs.contains_key(x) ==> dirs.contains_key(parent_of(s, i, x)),
        forall|x: u32| #[trigger] all.contains_key(x) ==> dirs.contains_key(x) || x == e.cluster,
        parent_of(t, i, e.cluster) == d,
        e.is_dir(),
    ensures
        hung(t, i, all),
{
    let list = dir_list(t, i, d as int);
    assert(list[before.len() as int] == e);
    assert(names_dir(list[before.len() as int], e.cluster));
    assert(listed_in(t, i, d, e.cluster));
    hung_set(s, t, i, dirs, dirs, all, d, before, Seq::empty(), seq![e], after);
}

/// The parts of making a directory.
spec fn made_dir(s: FsView, i: FatInfo, d: u32, n: Seq<u8>) -> bool {
    let f = find_free_slot(s, i, d as int);
    let c = alloc_cluster(f.0, i);
    let z = zero_clus(c.0, i, c.1->0 as int, 0);
    let up = if d == i.root_clus {
        0
    } else {
        d
    };
    let w = write_dots(z.0, i, c.1->0, up);
    let e = Entry { name: n, attr: 16, cluster: c.1->0, size: 0 };
    let t = write_entry(w.0, (f.1->Ok_0).0, (f.1->Ok_0).1, e);
    &&& f.1 is Ok
    &&& c.1 is Some
    &&& z.1
    &&& w.1 is Ok
    &&& t.1 is Ok
    &&& mkdir_in(s, i, d, n).0 == t.0
}

/// The cluster of the directory that is made.
pub open spec fn new_dir(s: FsView, i: FatInfo, d: u32) -> u32 {
    alloc_cluster(find_free_slot(s, i, d as int).0, i).1->0
}

/// A directory is made, up to the entry that names it.
#[verifier::spinoff_prover]
proof fn dir_prepared(u: FsView, i: FatInfo, more: Chains, files: Chains, d: u32, up: u32)
    requires
        roomy(u, i, 1),
        chains_ok(u, i, more, files),
        more.contains_key(d),
        up == (if d == i.root_clus {
            0
        } else {
            d
        }),
        alloc_cluster(u, i).1 is Some,
        ({
            let c = alloc_cluster(u, i);
            let z = zero_clus(c.0, i, c.1->0 as int, 0);
            z.1 && write_dots(z.0, i, c.1->0, up).1 is Ok
        }),
    ensures
        ({
            let c = alloc_cluster(u, i).1->0;
            let v = write_dots(zero_clus(alloc_cluster(u, i).0, i, c as int, 0).0, i, c, up).0;
            let all = more.insert(c, seq![c as int]);
            &&& same_but_disk(u, v)
            &&& chains_ok(v, i, all, files)
            &&& lists_same(u, v, i, more)
            &&& dir_list(v, i, c as int).len() == 0
            &&& parent_of(v, i, c) == d
            &&& !more.contains_key(c)
            &&& c != i.root_clus
            &&& same_contents(u, v, i, more[d], 0)
            &&& read_fat(u, i, c as int) == 0
        }),
{
    cluster_step(u, i, more, files);
    let (u2, r) = alloc_cluster(u, i);
    let c = r->0;
    quiet_step(u, u2, i, more, files);
    zeroed_clus(u2, i, c as int, 0);
    let u3 = zero_clus(u2, i, c as int, 0).0;
    assert(read_clus(u3, i, c as int, 0) == Some(zero_bytes(512)));
    dots_written(u3, i, c, up);
    let v = write_dots(u3, i, c, up).0;
    assert forall|l: int|
        (forall|q: int| 0 <= q < i.sec_per_clus ==> l != #[trigger] sector_of(i, c as int, q)) implies #[trigger] v.raw_read(
        l,
    ) == u2.raw_read(l) by {
        assert(l != sector_of(i, c as int, 0));
        assert(v.raw_read(l) == u3.raw_read(l));
    }
    beside_cluster(u2, v, i, more, files, c as int);
    quiet_step(u2, v, i, more, files);
    assert(c != i.root_clus) by {
        if c == i.root_clus {
            assert(more[i.root_clus][0] != seq![c as int][0]);
        }
    }
    assert(fresh_dir(v, i, c, up)) by {
        assert forall|q: int| 1 <= q < i.sec_per_clus implies #[trigger] read_clus(v, i, c as int, q)
            == Some(zero_bytes(512)) by {
            assert(read_clus(u3, i, c as int, q) == Some(zero_bytes(512)));
            assert(sector_of(i, c as int, q) != sector_of(i, c as int, 0));
        }
    }
    fresh_dir_ok(v, i, c, up);
    assert(in_range(i, more[d][0]));
    one_dir_more(v, i, more, files, c);
    assert(same_contents(u, v, i, more[d], 0)) by {
        let h = more[d];
        assert forall|q: int| 0 <= q < h.len() implies same_clus(u, v, i, #[trigger] h[q], 0) by {
            assert(same_clus(u, u2, i, h[q], 0));
            assert(same_clus(u2, v, i, h[q], 0));
            assert forall|x: int| 0 <= x < i.sec_per_clus implies #[trigger] read_clus(v, i, h[q], x)
                == read_clus(u, i, h[q], x) by {
                assert(read_clus(u2, i, h[q], x) == read_clus(u, i, h[q], x));
            }
        }
    }
}

/// The end of making a directory: the names are in order, and the path leads to
/// it.
#[verifier::spinoff_prover]
proof fn made_rest(
    s: FsView,
    u: FsView,
    v: FsView,
    t: FsView,
    i: FatInfo,
    dirs: Chains,
    files: Chains,
    more: Chains,
    path: Seq<char>,
    e: Entry,
    before: Seq<Entry>,
    after: Seq<Entry>,
)
    requires
        sound(s, i, dirs, files),
        target(s, i, path) == Ok::<(u32, Seq<u8>), FsErr>(((target(s, i, path)->Ok_0).0, e.name)),
        look_up(s, i, (target(s, i, path)->Ok_0).0 as int, e.name) is Err,
        dirs.contains_key((target(s, i, path)->Ok_0).0),
        forall|x: u32| #[trigger] more.contains_key(x) == dirs.contains_key(x),
        chains_ok(u, i, more, files),
        lists_same(s, u, i, dirs),
        lists_same(u, v, i, more),
        same_but_disk(s, t),
        dir_list(v, i, e.cluster as int).len() == 0,
        parent_of(v, i, e.cluster) == (target(s, i, path)->Ok_0).0,
        !more.contains_key(e.cluster),
        e.cluster != i.root_clus,
        read_fat(u, i, e.cluster as int) == 0,
        e.attr == 16,
        chains_ok(t, i, more.insert(e.cluster, seq![e.cluster as int]), files),
        list_set(
            v,
            t,
            i,
            more.insert(e.cluster, seq![e.cluster as int]),
            (target(s, i, path)->Ok_0).0,
            before,
            Seq::empty(),
            seq![e],
            after,
        ),
    ensures
        sound(t, i, more.insert(e.cluster, seq![e.cluster as int]), files),
        hung(s, i, dirs) ==> hung(t, i, more.insert(e.cluster, seq![e.cluster as int])),
        target(t, i, path) == target(s, i, path),
        look_up_dir(t, i, (target(s, i, path)->Ok_0).0 as int, e.name) == Ok::<u32, FsErr>(e.cluster),
        dir_list(t, i, e.cluster as int).len() == 0,
{
    let (d, n) = target(s, i, path)->Ok_0;
    let c = e.cluster;
    let all = more.insert(c, seq![c as int]);
    sound_tree(s, i, dirs, files);
    assert(list_set(s, t, i, dirs, d, before, Seq::empty(), seq![e], after)) by {
        assert forall|x: u32| #[trigger] dirs.contains_key(x) implies parent_of(t, i, x) == parent_of(
            s,
            i,
            x,
        ) && (x != d ==> dir_list(t, i, x as int) == dir_list(s, i, x as int)) by {
            assert(more.contains_key(x));
            assert(all.contains_key(x));
        }
        assert(more.contains_key(d));
    }
    assert(all.contains_key(c));
    assert(dir_list(t, i, c as int) == dir_list(v, i, c as int)) by {
        assert(more.contains_key(d));
    }
    assert(e.attr / 16 % 2 == 1);
    assert forall|x: u32, k: int| #[trigger]
        is_entry(s, i, dirs, x, k) && entry_of(s, i, x, k).cluster == c implies false by {
        let g = entry_of(s, i, x, k);
        named_once(s, i, dirs, files, x, k, x, k);
        if g.is_dir() {
            assert(more.contains_key(c) == dirs.contains_key(c));
        } else {
            assert(in_range(i, c as int)) by {
                assert(all[c][0] == c);
                assert(in_range(i, all[c][0]));
            }
            chain_in_use(u, i, files[c], 0);
        }
    }
    names_set(s, t, i, dirs, files, all, files, d, before, Seq::empty(), seq![e], after);
    if hung(s, i, dirs) {
        hung_below(s, t, i, dirs, all, d, before, e, after);
    }
    assert(before + Seq::<Entry>::empty() + after =~= before + after);
    put_is_found(before, e, after);
    ways_set(s, t, i, dirs, d, n, before, Seq::empty(), seq![e], after);
    target_kept(s, t, i, dirs, path);
}

/// Making a directory leaves a sound volume with one directory more, which is
/// empty, and the path leads to it.
#[verifier::spinoff_prover]
#[verifier::rlimit(100)]
pub proof fn made_directory_is_there(
    s: FsView,
    i: FatInfo,
    dirs: Chains,
    files: Chains,
    path: Seq<char>,
) -> (all: Chains)
    requires
        sound(s, i, dirs, files),
        mkdir(s, path).1 is Ok,
        roomy(s, i, 2),
    ensures
        ({
            let t = mkdir(s, path).0;
            let (d, n) = target(s, i, path)->Ok_0;
            &&& target(s, i, path) is Ok
            &&& look_up(s, i, d as int, n) is Err
            &&& same_but_disk(s, t)
            &&& sound(t, i, all, files)
            &&& hung(s, i, dirs) ==> hung(t, i, all)
            &&& target(t, i, path) == target(s, i, path)
            &&& look_up_dir(t, i, d as int, n) == Ok::<u32, FsErr>(new_dir(s, i, d))
            &&& dir_list(t, i, new_dir(s, i, d) as int).len() == 0
        }),
{
    reveal(mkdir);
    reveal(mkdir_in);
    sound_tree(s, i, dirs, files);
    let t = mkdir(s, path).0;
    let (d, n) = target(s, i, path)->Ok_0;
    assert(ways_kept(s, s, i, dirs));
    target_kept(s, s, i, dirs, path);
    assert(made_dir(s, i, d, n));
    let (u, f) = find_free_slot(s, i, d as int);
    let (lba, slot) = f->Ok_0;
    let (more, a, j) = slot_found(s, i, dirs, files, d, n);
    assert(more.contains_key(d));
    let c = new_dir(s, i, d);
    let up = if d == i.root_clus {
        0
    } else {
        d
    };
    dir_prepared(u, i, more, files, d, up);
    let v = write_dots(zero_clus(alloc_cluster(u, i).0, i, c as int, 0).0, i, c, up).0;
    let all = more.insert(c, seq![c as int]);
    let e = Entry { name: n, attr: 16, cluster: c, size: 0 };
    assert(v.raw_read(lba) is Some) by {
        reveal(write_entry);
    }
    assert(u.raw_read(lba) is Some);
    assert(all[d] == more[d]);
    reached_same(u, v, i, more[d], a, j, slot);
    assert(v.raw_read(lba) == u.raw_read(lba)) by {
        assert(in_range(i, more[d][a]));
        assert(same_clus(u, v, i, more[d][a], 0));
        assert(read_clus(v, i, more[d][a], j) == read_clus(u, i, more[d][a], j));
    }
    let (before, after) = entry_step(v, i, all, files, d, a, j, slot, e);
    made_rest(s, u, v, t, i, dirs, files, more, path, e, before, after);
    all
}

} // verus!
