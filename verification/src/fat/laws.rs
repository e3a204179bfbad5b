//! What the file system promises: a file reads back as it was written.

use vstd::prelude::*;
use crate::bytes::{head, zero_bytes};
use crate::fat::data::{
    chain_filled, chain_reads_back, enough, sectors_apart, sectors_behind, stands,
};
use crate::fat::model::{
    add_entry, alloc_chain, blank_clus, chain_data, chain_list, clus_data, clus_list, clusters_for,
    dir_list, dotdot_in_chain, dotdot_in_clus, dotdot_in_sector, enter_file, entry_at, fill_chain,
    find_file, find_free_slot, find_pos, first_match, follow, follow_parts, free_chain, goes_on,
    grow_dir, look_up, look_up_dir, make_83, min_int, parent_of, part_83, read_clus, read_fat,
    read_file, resolve_from_cwd, sector_list, sector_of, target, with_entry, write_clus,
    write_entry, write_fat, write_file, Entry,
};
use crate::fat::slots::{
    behind_clean, entry_entered, file_name, match_in_both, match_in_one, names_are_file_names,
    replaced,
};
use crate::fat::table::{
    at_most_all, chain_entry, chain_in_use, chain_is_freed, chain_is_taken, chain_ok,
    entry_reads_back, first_free_is_taken, in_range, ints, new_chain, only_tables, range_goes_on,
    roomy, volume_ok,
};
use crate::fat::tree::{
    all_clean, chain_dotdot_kept, chain_replaced, chain_same, entered_in, free_spot, pos_spot,
    same_clus, same_contents, same_links, spot,
};
use crate::fs::{same_but_disk, FatInfo, FsErr, FsView};
use crate::path::{components, parent_and_leaf};

verus! {

// ---------- a volume with a tree of directories ----------

/// `dirs` gives the chain of each directory: the root is one, they share no
/// cluster, and the directories that an entry or a `..` names are among them.
pub open spec fn tree_ok(s: FsView, i: FatInfo, dirs: Map<u32, Seq<int>>) -> bool {
    &&& volume_ok(s, i)
    &&& dirs.contains_key(i.root_clus)
    &&& forall|c: u32| #[trigger]
        dirs.contains_key(c) ==> chain_ok(s, i, dirs[c]) && dirs[c][0] == c
    &&& forall|c: u32, d: u32, a: int, b: int|
        dirs.contains_key(c) && dirs.contains_key(d) && c != d && 0 <= a < dirs[c].len() && 0 <= b
            < dirs[d].len() ==> #[trigger] dirs[c][a] != #[trigger] dirs[d][b]
    &&& forall|c: u32, k: int|
        dirs.contains_key(c) && 0 <= k < dir_list(s, i, c as int).len() && (#[trigger] dir_list(
            s,
            i,
            c as int,
        )[k]).is_dir() ==> dirs.contains_key(dir_list(s, i, c as int)[k].cluster)
    &&& forall|c: u32| #[trigger]
        dirs.contains_key(c) ==> dirs.contains_key(parent_of(s, i, c))
}

/// The chain shares no cluster with a directory.
pub open spec fn apart(dirs: Map<u32, Seq<int>>, ch: Seq<int>) -> bool {
    forall|c: u32, a: int, b: int|
        dirs.contains_key(c) && 0 <= a < dirs[c].len() && 0 <= b < ch.len()
            ==> #[trigger] dirs[c][a] != #[trigger] ch[b]
}

/// The entry of a file names no cluster, or a chain that shares no cluster
/// with a directory.
pub open spec fn file_apart(s: FsView, i: FatInfo, dirs: Map<u32, Seq<int>>, e: Entry) -> bool {
    e.is_dir() || e.cluster < 2 || exists|ch: Seq<int>| #[trigger]
        chain_ok(s, i, ch) && ch[0] == e.cluster && apart(dirs, ch)
}

pub open spec fn files_apart(s: FsView, i: FatInfo, dirs: Map<u32, Seq<int>>) -> bool {
    forall|c: u32, k: int|
        dirs.contains_key(c) && 0 <= k < dir_list(s, i, c as int).len() ==> file_apart(
            s,
            i,
            dirs,
            #[trigger] dir_list(s, i, c as int)[k],
        )
}

// ---------- what a change leaves of the tree ----------

/// A match is an entry of the list.
pub(crate) proof fn match_is_there(es: Seq<Entry>, w: Seq<u8>) -> (k: int)
    requires
        first_match(es, Some(w)) is Some,
    ensures
        0 <= k < es.len(),
        es[k] == first_match(es, Some(w))->0,
        es[k].name == w,
    decreases es.len(),
{
    if es[0].name == w {
        0
    } else {
        let k = match_is_there(es.skip(1), w);
        assert(es.skip(1)[k] == es[k + 1]);
        k + 1
    }
}

/// Directories that are found are found again, and their parents stay.
pub open spec fn ways_kept(s: FsView, t: FsView, i: FatInfo, dirs: Map<u32, Seq<int>>) -> bool {
    forall|c: u32| #[trigger]
        dirs.contains_key(c) ==> {
            &&& parent_of(t, i, c) == parent_of(s, i, c)
            &&& forall|m: Seq<u8>|
                look_up_dir(s, i, c as int, m) is Ok ==> #[trigger] look_up_dir(t, i, c as int, m)
                    == look_up_dir(s, i, c as int, m)
        }
}

proof fn follow_kept(
    s: FsView,
    t: FsView,
    i: FatInfo,
    dirs: Map<u32, Seq<int>>,
    clu: u32,
    names: Seq<Seq<char>>,
)
    requires
        tree_ok(s, i, dirs),
        ways_kept(s, t, i, dirs),
        dirs.contains_key(clu),
        follow(s, i, clu, names) is Ok,
    ensures
        follow(t, i, clu, names) == follow(s, i, clu, names),
        dirs.contains_key(follow(s, i, clu, names)->Ok_0),
    decreases names.len(),
{
    if names.len() > 0 {
        if names[0] == seq!['.'] {
            follow_kept(s, t, i, dirs, clu, names.skip(1));
        } else if names[0] == seq!['.', '.'] {
            follow_kept(s, t, i, dirs, parent_of(s, i, clu), names.skip(1));
        } else {
            let n = make_83(names[0])->Ok_0;
            step_kept(s, t, i, dirs, clu, n);
            follow_kept(s, t, i, dirs, look_up_dir(s, i, clu as int, n)->Ok_0, names.skip(1));
        }
    }
}

proof fn step_kept(s: FsView, t: FsView, i: FatInfo, dirs: Map<u32, Seq<int>>, clu: u32, n: Seq<u8>)
    requires
        tree_ok(s, i, dirs),
        ways_kept(s, t, i, dirs),
        dirs.contains_key(clu),
        look_up_dir(s, i, clu as int, n) is Ok,
    ensures
        look_up_dir(t, i, clu as int, n) == look_up_dir(s, i, clu as int, n),
        dirs.contains_key(look_up_dir(s, i, clu as int, n)->Ok_0),
{
    let k = match_is_there(dir_list(s, i, clu as int), n);
    assert(dir_list(s, i, clu as int)[k].is_dir());
}

proof fn follow_parts_kept(
    s: FsView,
    t: FsView,
    i: FatInfo,
    dirs: Map<u32, Seq<int>>,
    clu: u32,
    parts: Seq<Seq<u8>>,
)
    requires
        tree_ok(s, i, dirs),
        ways_kept(s, t, i, dirs),
        dirs.contains_key(clu),
        follow_parts(s, i, clu, parts) is Ok,
    ensures
        follow_parts(t, i, clu, parts) == follow_parts(s, i, clu, parts),
        dirs.contains_key(follow_parts(s, i, clu, parts)->Ok_0),
    decreases parts.len(),
{
    if parts.len() > 0 {
        let n = part_83(parts[0]);
        step_kept(s, t, i, dirs, clu, n);
        follow_parts_kept(
            s,
            t,
            i,
            dirs,
            look_up_dir(s, i, clu as int, n)->Ok_0,
            parts.skip(1),
        );
    }
}

/// A path that leads to a place leads there again.
pub(crate) proof fn target_kept(s: FsView, t: FsView, i: FatInfo, dirs: Map<u32, Seq<int>>, path: Seq<char>)
    requires
        tree_ok(s, i, dirs),
        ways_kept(s, t, i, dirs),
        t.cwd == s.cwd,
        target(s, i, path) is Ok,
    ensures
        target(t, i, path) == target(s, i, path),
        dirs.contains_key(target(s, i, path)->Ok_0.0),
        file_name(target(s, i, path)->Ok_0.1),
{
    reveal(target);
    reveal(resolve_from_cwd);
    let (parent, leaf) = parent_and_leaf(path);
    names_are_file_names(leaf);
    if parent.len() > 0 && parent[0] == '/' {
        follow_kept(s, t, i, dirs, i.root_clus, components(parent));
    } else {
        follow_parts_kept(s, t, i, dirs, i.root_clus, s.cwd);
        follow_kept(
            s,
            t,
            i,
            dirs,
            follow_parts(s, i, i.root_clus, s.cwd)->Ok_0,
            components(parent),
        );
    }
}

/// A directory with the same clusters and contents.
pub(crate) proof fn dir_kept(s: FsView, t: FsView, i: FatInfo, c: u32, ch: Seq<int>)
    requires
        volume_ok(s, i),
        chain_ok(s, i, ch),
        ch[0] == c,
        same_links(s, t, i, ch),
        same_contents(s, t, i, ch, 0),
    ensures
        dir_list(t, i, c as int) == dir_list(s, i, c as int),
        parent_of(t, i, c) == parent_of(s, i, c),
{
    reveal(dir_list);
    reveal(parent_of);
    chain_same(s, t, i, ch, 0, i.cluster_count as nat);
}

/// Sectors behind the tables that stay keep the clusters' contents.
pub(crate) proof fn tables_keep_contents(s: FsView, t: FsView, i: FatInfo, ch: Seq<int>)
    requires
        only_tables(s, t, i),
        forall|k: int| 0 <= k < ch.len() ==> in_range(i, #[trigger] ch[k]),
    ensures
        same_contents(s, t, i, ch, 0),
{
    assert forall|q: int| 0 <= q < ch.len() implies same_clus(s, t, i, #[trigger] ch[q], 0) by {
        assert forall|j: int| 0 <= j < i.sec_per_clus implies #[trigger] read_clus(t, i, ch[q], j)
            == read_clus(s, i, ch[q], j) by {
            assert(in_range(i, ch[q]));
            sectors_behind(i, ch[q], j);
        }
    }
}

/// A change of table entries that no directory uses keeps the tree.
pub(crate) proof fn tree_kept(s: FsView, t: FsView, i: FatInfo, dirs: Map<u32, Seq<int>>)
    requires
        tree_ok(s, i, dirs),
        only_tables(s, t, i),
        forall|c: u32| #[trigger] dirs.contains_key(c) ==> same_links(s, t, i, dirs[c]),
    ensures
        tree_ok(t, i, dirs),
        forall|c: u32| #[trigger]
            dirs.contains_key(c) ==> dir_list(t, i, c as int) == dir_list(s, i, c as int)
                && parent_of(t, i, c) == parent_of(s, i, c),
{
    assert forall|c: u32| #[trigger] dirs.contains_key(c) implies {
        &&& chain_ok(t, i, dirs[c])
        &&& dir_list(t, i, c as int) == dir_list(s, i, c as int)
        &&& parent_of(t, i, c) == parent_of(s, i, c)
    } by {
        let ch = dirs[c];
        tables_keep_contents(s, t, i, ch);
        dir_kept(s, t, i, c, ch);
        assert forall|k: int| 0 <= k < ch.len() implies chain_entry(
            t,
            i,
            ch,
            k,
            read_fat(t, i, #[trigger] ch[k]),
        ) by {
            assert(chain_entry(s, i, ch, k, read_fat(s, i, ch[k])));
        }
    }
}

// ---------- an entry is written ----------

/// The entry `e` for the name `n` was written into directory `d`, whose chain
/// is `ch` now: the other directories are as they were, and of the table
/// entries in use only that of the last cluster of the directory can differ.
pub open spec fn outcome(
    s: FsView,
    t: FsView,
    i: FatInfo,
    dirs: Map<u32, Seq<int>>,
    d: u32,
    n: Seq<u8>,
    e: Entry,
    ch: Seq<int>,
) -> bool {
    &&& same_but_disk(s, t)
    &&& volume_ok(t, i)
    &&& replaced(dir_list(s, i, d as int), dir_list(t, i, d as int), n, e)
    &&& forall|c: u32| #[trigger]
        dirs.contains_key(c) ==> {
            &&& parent_of(t, i, c) == parent_of(s, i, c)
            &&& c != d ==> chain_ok(t, i, dirs[c]) && dir_list(t, i, c as int) == dir_list(
                s,
                i,
                c as int,
            )
        }
    &&& chain_ok(t, i, ch)
    &&& ch[0] == d
    &&& forall|q: int|
        0 <= q < ch.len() ==> dirs[d].contains(#[trigger] ch[q]) || read_fat(s, i, ch[q]) == 0
    &&& forall|x: int|
        in_range(i, x) && read_fat(s, i, x) != 0 && x != dirs[d].last() ==> #[trigger] read_fat(
            t,
            i,
            x,
        ) == read_fat(s, i, x)
    &&& forall|x: int|
        in_range(i, x) && read_fat(s, i, x) != 0 && !dirs[d].contains(x) ==> #[trigger] same_clus(
            s,
            t,
            i,
            x,
            0,
        )
}

/// Only one sector of the data changed.
pub open spec fn one_sector(s: FsView, t: FsView, lba: int) -> bool {
    &&& same_but_disk(s, t)
    &&& t.disk.wf()
    &&& forall|l: int| l != lba ==> #[trigger] t.raw_read(l) == s.raw_read(l)
}

pub(crate) proof fn entry_written(s: FsView, lba: int, slot: int, e: Entry)
    requires
        s.disk.wf(),
        0 <= slot < 16,
        e.name.len() == 11,
        write_entry(s, lba, slot, e).1 is Ok,
    ensures
        ({
            let t = write_entry(s, lba, slot, e).0;
            &&& one_sector(s, t, lba)
            &&& s.raw_read(lba) is Some
            &&& s.raw_read(lba)->0.len() == 512
            &&& t.raw_read(lba) == Some(with_entry(s.raw_read(lba)->0, slot, e))
        }),
{
    reveal(write_entry);
    let b = s.raw_read(lba)->0;
    entry_entered(b, slot, e);
    let t = write_entry(s, lba, slot, e).0;
    assert(t.disk.sec.dom() =~= s.disk.sec.dom());
}

/// A data sector is none of the table's.
pub(crate) proof fn data_keeps_tables(s: FsView, t: FsView, i: FatInfo, lba: int)
    requires
        volume_ok(s, i),
        one_sector(s, t, lba),
        lba >= i.data_start,
    ensures
        volume_ok(t, i),
        forall|x: int| in_range(i, x) ==> #[trigger] read_fat(t, i, x) == read_fat(s, i, x),
{
    assert(i.fat_size <= i.num_fats * i.fat_size) by (nonlinear_arith)
        requires
            1 <= i.num_fats,
            0 <= i.fat_size,
    ;
    assert forall|l: int| i.rsvc <= l < i.rsvc + i.num_fats * i.fat_size implies (
    #[trigger] t.raw_read(l)) is Some by {
        assert(s.raw_read(l) is Some);
    }
}

pub(crate) proof fn links_ok(s: FsView, t: FsView, i: FatInfo, ch: Seq<int>)
    requires
        chain_ok(s, i, ch),
        same_links(s, t, i, ch),
    ensures
        chain_ok(t, i, ch),
{
    assert forall|k: int| 0 <= k < ch.len() implies chain_entry(
        t,
        i,
        ch,
        k,
        read_fat(t, i, #[trigger] ch[k]),
    ) by {
        assert(chain_entry(s, i, ch, k, read_fat(s, i, ch[k])));
    }
}

proof fn spot_entered(
    s: FsView,
    i: FatInfo,
    dirs: Map<u32, Seq<int>>,
    d: u32,
    n: Seq<u8>,
    a: int,
    j: int,
    slot: int,
    e: Entry,
)
    requires
        tree_ok(s, i, dirs),
        dirs.contains_key(d),
        spot(s, i, dirs[d], 0, n, a, j, slot),
        file_name(n),
        e.name == n,
        e.attr != 0x0F,
        write_entry(s, sector_of(i, dirs[d][a], j), slot, e).1 is Ok,
    ensures
        outcome(
            s,
            write_entry(s, sector_of(i, dirs[d][a], j), slot, e).0,
            i,
            dirs,
            d,
            n,
            e,
            dirs[d],
        ),
{
    let ch = dirs[d];
    let lba = sector_of(i, ch[a], j);
    let t = write_entry(s, lba, slot, e).0;
    entry_written(s, lba, slot, e);
    assert(in_range(i, ch[a]));
    sectors_behind(i, ch[a], j);
    data_keeps_tables(s, t, i, lba);
    let b = s.raw_read(lba)->0;
    entry_entered(b, slot, e);
    // the written cluster
    assert(entered_in(s, t, i, ch[a], j, slot, e)) by {
        assert forall|q: int| 0 <= q < i.sec_per_clus && q != j implies #[trigger] read_clus(
            t,
            i,
            ch[a],
            q,
        ) == read_clus(s, i, ch[a], q) by {
            if sector_of(i, ch[a], q) == lba {
                sectors_apart(i, ch[a], q, ch[a], j);
            }
        }
    }
    // the others
    assert forall|x: int| in_range(i, x) && x != ch[a] implies #[trigger] same_clus(s, t, i, x, 0) by {
        assert forall|q: int| 0 <= q < i.sec_per_clus implies #[trigger] read_clus(t, i, x, q)
            == read_clus(s, i, x, q) by {
            if sector_of(i, x, q) == lba {
                sectors_apart(i, x, q, ch[a], j);
            }
        }
    }
    assert forall|c: u32| #[trigger] dirs.contains_key(c) implies same_links(s, t, i, dirs[c])
        && chain_ok(t, i, dirs[c]) by {
        let h = dirs[c];
        assert forall|q: int| 0 <= q < h.len() implies read_fat(t, i, #[trigger] h[q]) == read_fat(
            s,
            i,
            h[q],
        ) by {
            assert(in_range(i, h[q]));
        }
        links_ok(s, t, i, h);
    }
    assert forall|c: u32| #[trigger] dirs.contains_key(c) implies {
        &&& parent_of(t, i, c) == parent_of(s, i, c)
        &&& c != d ==> dir_list(t, i, c as int) == dir_list(s, i, c as int)
    } by {
        let h = dirs[c];
        if c != d {
            assert(same_contents(s, t, i, h, 0)) by {
                assert forall|q: int| 0 <= q < h.len() implies same_clus(s, t, i, #[trigger] h[q], 0) by {
                    assert(in_range(i, h[q]));
                    assert(dirs[c][q] != dirs[d][a]);
                }
            }
            dir_kept(s, t, i, c, h);
        } else {
            reveal(parent_of);
            assert forall|q: int| 0 <= q < ch.len() && q != a implies same_clus(
                s,
                t,
                i,
                #[trigger] ch[q],
                0,
            ) by {
                assert(in_range(i, ch[q]));
            }
            chain_dotdot_kept(s, t, i, ch, 0, n, a, j, slot, e, i.cluster_count as nat);
        }
    }
    assert(replaced(dir_list(s, i, d as int), dir_list(t, i, d as int), n, e)) by {
        reveal(dir_list);
        at_most_all(i, ch);
        assert forall|q: int| 0 <= q < ch.len() && q != a implies same_clus(
            s,
            t,
            i,
            #[trigger] ch[q],
            0,
        ) by {
            assert(in_range(i, ch[q]));
        }
        chain_replaced(s, t, i, ch, 0, n, a, j, slot, e, i.cluster_count as nat);
    }
}

// ---------- a directory grows ----------

/// Blanking a cluster zeroes its sectors and no other.
pub(crate) proof fn blanked(s: FsView, i: FatInfo, clu: int, k: int)
    requires
        2 <= clu,
        0 <= k,
        s.disk.wf(),
        s.disk.fixed == Set::<int>::empty(),
    ensures
        ({
            let t = blank_clus(s, i, clu, k);
            &&& same_but_disk(s, t)
            &&& t.disk.wf()
            &&& forall|q: int|
                k <= q < i.sec_per_clus && (#[trigger] read_clus(t, i, clu, q)) is Some ==> read_clus(
                    t,
                    i,
                    clu,
                    q,
                ) == Some(zero_bytes(512))
            &&& forall|l: int|
                (forall|q: int| k <= q < i.sec_per_clus ==> l != #[trigger] sector_of(i, clu, q))
                    ==> #[trigger] t.raw_read(l) == s.raw_read(l)
        }),
    decreases i.sec_per_clus - k,
{
    if k < i.sec_per_clus {
        let s1 = write_clus(s, i, clu, k, zero_bytes(512)).0;
        assert(s1.disk.sec.dom() =~= s.disk.sec.dom());
        blanked(s1, i, clu, k + 1);
        let t = blank_clus(s, i, clu, k);
        let l = sector_of(i, clu, k);
        assert forall|q: int| k + 1 <= q < i.sec_per_clus implies l != #[trigger] sector_of(
            i,
            clu,
            q,
        ) by {}
        assert(t.raw_read(l) == s1.raw_read(l));
        assert(read_clus(t, i, clu, k) is Some ==> read_clus(t, i, clu, k) == Some(
            zero_bytes(512),
        ));
        assert forall|x: int|
            (forall|q: int| k <= q < i.sec_per_clus ==> x != #[trigger] sector_of(i, clu, q)) implies #[trigger] t.raw_read(
            x,
        ) == s.raw_read(x) by {
            assert(x != sector_of(i, clu, k));
            assert(s1.raw_read(x) == s.raw_read(x));
        }
    }
}

pub(crate) proof fn no_dotdot(b: Seq<u8>, k: int)
    requires
        0 <= k <= 16,
        forall|r: int| 0 <= r < 16 ==> #[trigger] b[32 * r] != 46,
    ensures
        dotdot_in_sector(b, k) is None,
    decreases 16 - k,
{
    if k < 16 {
        assert(b[32 * k] != 46);
        no_dotdot(b, k + 1);
    }
}

/// A fresh cluster with one entry.
pub open spec fn fresh_clus(t: FsView, i: FatInfo, nc: int, e: Entry) -> bool {
    &&& read_clus(t, i, nc, 0) == Some(with_entry(zero_bytes(512), 0, e))
    &&& forall|q: int|
        1 <= q < i.sec_per_clus && (#[trigger] read_clus(t, i, nc, q)) is Some ==> read_clus(
            t,
            i,
            nc,
            q,
        ) == Some(zero_bytes(512))
}

proof fn fresh_no_dotdot(t: FsView, i: FatInfo, nc: int, e: Entry, k: int)
    requires
        fresh_clus(t, i, nc, e),
        file_name(e.name),
        0 <= k,
    ensures
        dotdot_in_clus(t, i, nc, k) is None,
    decreases i.sec_per_clus - k,
{
    if k < i.sec_per_clus {
        match read_clus(t, i, nc, k) {
            None => {},
            Some(b) => {
                let z = zero_bytes(512);
                entry_entered(z, 0, e);
                assert forall|r: int| 0 <= r < 16 implies #[trigger] b[32 * r] != 46 by {
                    if k == 0 {
                        let c = with_entry(z, 0, e);
                        if r > 0 {
                            assert(c[32 * r] == z[32 * r]);
                        }
                    } else {
                        assert(b == z);
                    }
                }
                no_dotdot(b, 0);
                fresh_no_dotdot(t, i, nc, e, k + 1);
            },
        }
    }
}

proof fn fresh_list(t: FsView, i: FatInfo, nc: int, e: Entry)
    requires
        1 <= i.sec_per_clus,
        fresh_clus(t, i, nc, e),
        file_name(e.name),
        e.attr != 0x0F,
    ensures
        clus_list(t, i, nc, 0) == (seq![e], true),
{
    let z = zero_bytes(512);
    let c = with_entry(z, 0, e);
    entry_entered(z, 0, e);
    assert(c[32] == z[32]);
    reveal_with_fuel(sector_list, 2);
    assert(sector_list(c, 1) == (Seq::<Entry>::empty(), true));
    assert(entry_at(c, 0) == e);
    assert(c[0] == e.name[0]);
    assert(seq![e] + Seq::<Entry>::empty() =~= seq![e]);
    assert(sector_list(c, 0) == (seq![e], true));
}

/// The chain of a directory with one more cluster.
pub open spec fn longer(s: FsView, t: FsView, i: FatInfo, ch: Seq<int>, nc: int) -> bool {
    &&& same_contents(s, t, i, ch, 0)
    &&& forall|q: int|
        0 <= q < ch.len() - 1 ==> read_fat(t, i, #[trigger] ch[q]) == read_fat(s, i, ch[q])
    &&& read_fat(t, i, ch.last()) == nc
    &&& crate::fat::model::is_eoc(read_fat(t, i, nc))
    &&& in_range(i, nc)
    &&& !ch.contains(nc)
}

proof fn grown_list(
    s: FsView,
    t: FsView,
    i: FatInfo,
    ch: Seq<int>,
    nc: int,
    n: Seq<u8>,
    e: Entry,
    k: int,
    fuel: nat,
)
    requires
        volume_ok(s, i),
        chain_ok(s, i, ch),
        longer(s, t, i, ch, nc),
        0 <= k < ch.len(),
        all_clean(s, i, ch, n, k),
        clus_list(t, i, nc, 0) == (seq![e], true),
        e.name == n,
        fuel > ch.len() - k,
    ensures
        replaced(chain_list(s, i, ch[k], fuel), chain_list(t, i, ch[k], fuel), n, e),
    decreases ch.len() - k,
{
    let c = ch[k];
    crate::fat::tree::clean_clus(s, i, c, n, 0);
    assert(same_clus(s, t, i, ch[k], 0));
    crate::fat::tree::clus_same(s, t, i, c, 0);
    assert(chain_entry(s, i, ch, k, read_fat(s, i, c)));
    let x = clus_list(s, i, c, 0).0;
    if k + 1 < ch.len() {
        assert(in_range(i, ch[k + 1]));
        range_goes_on(s, i, ch[k + 1]);
        grown_list(s, t, i, ch, nc, n, e, k + 1, (fuel - 1) as nat);
        let l1 = chain_list(s, i, ch[k + 1], (fuel - 1) as nat);
        let l2 = chain_list(t, i, ch[k + 1], (fuel - 1) as nat);
        behind_clean(x, (l1, true), (l2, true), n, e);
    } else {
        assert(ch.last() == c);
        range_goes_on(s, i, nc);
        assert(chain_list(t, i, nc, (fuel - 1) as nat) == seq![e]);
        assert(chain_list(t, i, c, fuel) == x + seq![e]);
        assert(chain_list(s, i, c, fuel) == x);
        match_in_one(e, n);
        match_in_both(x, seq![e], Some(n));
        assert forall|m: Seq<u8>| m != n && first_match(x, Some(m)) is Some implies #[trigger] first_match(
            x + seq![e],
            Some(m),
        ) == first_match(x, Some(m)) by {
            match_in_both(x, seq![e], Some(m));
        }
    }
}

pub(crate) proof fn grown_dotdot(
    s: FsView,
    t: FsView,
    i: FatInfo,
    ch: Seq<int>,
    nc: int,
    k: int,
    fuel: nat,
)
    requires
        volume_ok(s, i),
        chain_ok(s, i, ch),
        longer(s, t, i, ch, nc),
        0 <= k < ch.len(),
        dotdot_in_clus(t, i, nc, 0) is None,
    ensures
        dotdot_in_chain(t, i, ch[k], fuel) == dotdot_in_chain(s, i, ch[k], fuel),
    decreases fuel,
{
    if fuel > 0 {
        let c = ch[k];
        assert(same_clus(s, t, i, ch[k], 0));
        crate::fat::tree::clus_same(s, t, i, c, 0);
        assert(chain_entry(s, i, ch, k, read_fat(s, i, c)));
        if k + 1 < ch.len() {
            grown_dotdot(s, t, i, ch, nc, k + 1, (fuel - 1) as nat);
        } else {
            assert(ch.last() == c);
            reveal_with_fuel(dotdot_in_chain, 3);
            assert(dotdot_in_chain(t, i, nc, (fuel - 1) as nat) is None);
        }
    }
}

/// A directory without a free slot grows by a cluster, which takes the entry.
proof fn grown_entered(
    s: FsView,
    i: FatInfo,
    dirs: Map<u32, Seq<int>>,
    d: u32,
    n: Seq<u8>,
    e: Entry,
) -> (ch: Seq<int>)
    requires
        roomy(s, i, 1),
        tree_ok(s, i, dirs),
        dirs.contains_key(d),
        all_clean(s, i, dirs[d], n, 0),
        file_name(n),
        e.name == n,
        e.attr != 0x0F,
        grow_dir(s, i, dirs[d].last()).1 is Ok,
        ({
            let (g, r) = grow_dir(s, i, dirs[d].last());
            write_entry(g, r->Ok_0.0, r->Ok_0.1, e).1 is Ok
        }),
    ensures
        ({
            let (g, r) = grow_dir(s, i, dirs[d].last());
            outcome(s, write_entry(g, r->Ok_0.0, r->Ok_0.1, e).0, i, dirs, d, n, e, ch)
        }),
{
    reveal(grow_dir);
    let old = dirs[d];
    let last = old.last();
    assert(last == old[old.len() - 1]);
    assert(in_range(i, old[old.len() - 1]));
    first_free_is_taken(s, i);
    let s1 = crate::fat::model::alloc_cluster(s, i).0;
    let nc = crate::fat::model::alloc_cluster(s, i).1->0;
    let c = nc as int;
    entry_reads_back(s1, i, last, nc);
    let s2 = write_fat(s1, i, last, nc).0;
    let g = blank_clus(s2, i, c, 0);
    blanked(s2, i, c, 0);
    let lba = sector_of(i, c, 0);
    entry_written(g, lba, 0, e);
    let t = write_entry(g, lba, 0, e).0;
    sectors_behind(i, c, 0);
    // no directory used the new cluster
    assert forall|x: u32, q: int| dirs.contains_key(x) && 0 <= q < dirs[x].len() implies #[trigger] dirs[x][q]
        != c by {
        chain_in_use(s, i, dirs[x], q);
    }
    // the tables
    assert(i.fat_size <= i.num_fats * i.fat_size) by (nonlinear_arith)
        requires
            1 <= i.num_fats,
            0 <= i.fat_size,
    ;
    assert forall|l: int| l < i.data_start implies #[trigger] t.raw_read(l) == s2.raw_read(l) by {
        assert forall|q: int| 0 <= q < i.sec_per_clus implies l != #[trigger] sector_of(i, c, q) by {
            sectors_behind(i, c, q);
        }
        assert(g.raw_read(l) == s2.raw_read(l));
    }
    assert(volume_ok(t, i)) by {
        assert forall|l: int| i.rsvc <= l < i.rsvc + i.num_fats * i.fat_size implies (
        #[trigger] t.raw_read(l)) is Some by {
            assert(s2.raw_read(l) is Some);
        }
    }
    assert forall|x: int| in_range(i, x) implies #[trigger] read_fat(t, i, x) == read_fat(s2, i, x) by {
        assert(t.raw_read(crate::fat::model::fat_sector(i, x)) == s2.raw_read(
            crate::fat::model::fat_sector(i, x),
        ));
    }
    assert(read_fat(t, i, last) == nc);
    assert(read_fat(t, i, c) == 0x0FFF_FFF8);
    assert forall|x: int| in_range(i, x) && x != last && x != c implies #[trigger] read_fat(t, i, x)
        == read_fat(s, i, x) by {
        assert(read_fat(s2, i, x) == read_fat(s1, i, x));
        assert(read_fat(s1, i, x) == read_fat(s, i, x));
    }
    // the contents of the other clusters
    assert forall|x: int| in_range(i, x) && x != c implies #[trigger] same_clus(s, t, i, x, 0) by {
        assert forall|q: int| 0 <= q < i.sec_per_clus implies #[trigger] read_clus(t, i, x, q)
            == read_clus(s, i, x, q) by {
            let l = sector_of(i, x, q);
            sectors_behind(i, x, q);
            assert forall|r: int| 0 <= r < i.sec_per_clus implies l != #[trigger] sector_of(i, c, r) by {
                if l == sector_of(i, c, r) {
                    sectors_apart(i, x, q, c, r);
                }
            }
            assert(l != lba);
            assert(g.raw_read(l) == s2.raw_read(l));
            assert(s2.raw_read(l) == s1.raw_read(l));
        }
    }
    // the new cluster
    assert(fresh_clus(t, i, c, e)) by {
        assert(read_clus(g, i, c, 0) is Some);
        assert forall|q: int| 1 <= q < i.sec_per_clus && (#[trigger] read_clus(t, i, c, q)) is Some implies read_clus(
            t,
            i,
            c,
            q,
        ) == Some(zero_bytes(512)) by {
            assert(sector_of(i, c, q) != lba);
            assert(read_clus(t, i, c, q) == read_clus(g, i, c, q));
        }
    }
    fresh_list(t, i, c, e);
    fresh_no_dotdot(t, i, c, e, 0);
    assert(longer(s, t, i, old, c)) by {
        assert forall|q: int| 0 <= q < old.len() implies same_clus(s, t, i, #[trigger] old[q], 0) by {
            assert(in_range(i, old[q]));
            assert(dirs[d][q] != c);
        }
        assert forall|q: int| 0 <= q < old.len() - 1 implies read_fat(t, i, #[trigger] old[q])
            == read_fat(s, i, old[q]) by {
            assert(in_range(i, old[q]));
            assert(old[q] != old[old.len() - 1]);
            assert(dirs[d][q] != c);
        }
        if old.contains(c) {
            let q = choose|q: int| 0 <= q < old.len() && old[q] == c;
            assert(dirs[d][q] != c);
        }
    }
    let ch = old.push(c);
    assert(chain_ok(t, i, ch)) by {
        assert forall|k: int| 0 <= k < ch.len() implies in_range(i, #[trigger] ch[k]) && chain_entry(
            t,
            i,
            ch,
            k,
            read_fat(t, i, ch[k]),
        ) by {
            if k < old.len() {
                assert(ch[k] == old[k]);
                assert(in_range(i, old[k]));
                assert(chain_entry(s, i, old, k, read_fat(s, i, old[k])));
                if k + 1 < old.len() {
                    assert(ch[k + 1] == old[k + 1]);
                }
            }
        }
        assert forall|a: int, b: int| 0 <= a < b < ch.len() implies #[trigger] ch[a] != #[trigger] ch[b] by {
            assert(ch[a] == old[a]);
            if b < old.len() {
                assert(ch[b] == old[b]);
            } else {
                assert(dirs[d][a] != c);
            }
        }
    }
    assert(replaced(dir_list(s, i, d as int), dir_list(t, i, d as int), n, e)) by {
        reveal(dir_list);
        at_most_all(i, ch);
        assert forall|q: int| 0 <= q < old.len() implies crate::fat::tree::clus_clean(
            s,
            i,
            #[trigger] old[q],
            n,
            0,
            i.sec_per_clus as int,
        ) by {}
        grown_list(s, t, i, old, c, n, e, 0, i.cluster_count as nat);
    }
    assert forall|x: u32| #[trigger] dirs.contains_key(x) implies {
        &&& parent_of(t, i, x) == parent_of(s, i, x)
        &&& x != d ==> chain_ok(t, i, dirs[x]) && dir_list(t, i, x as int) == dir_list(
            s,
            i,
            x as int,
        )
    } by {
        let h = dirs[x];
        if x != d {
            assert forall|q: int| 0 <= q < h.len() implies read_fat(t, i, #[trigger] h[q])
                == read_fat(s, i, h[q]) && same_clus(s, t, i, h[q], 0) by {
                assert(in_range(i, h[q]));
                assert(dirs[x][q] != c);
                assert(dirs[x][q] != dirs[d][old.len() - 1]);
            }
            assert(same_links(s, t, i, h));
            assert(same_contents(s, t, i, h, 0));
            links_ok(s, t, i, h);
            dir_kept(s, t, i, x, h);
        } else {
            reveal(parent_of);
            grown_dotdot(s, t, i, old, c, 0, i.cluster_count as nat);
        }
    }
    assert forall|q: int| 0 <= q < ch.len() implies dirs[d].contains(#[trigger] ch[q]) || read_fat(
        s,
        i,
        ch[q],
    ) == 0 by {
        if q < old.len() {
            assert(old[q] == ch[q]);
        }
    }
    assert forall|x: int|
        in_range(i, x) && read_fat(s, i, x) != 0 && !dirs[d].contains(x) implies #[trigger] same_clus(
        s,
        t,
        i,
        x,
        0,
    ) by {
        assert(x != c);
    }
    ch
}

// ---------- a file is entered ----------

/// No listed entry is a part of a long name.
pub open spec fn no_long(es: Seq<Entry>) -> bool {
    forall|k: int| 0 <= k < es.len() ==> (#[trigger] es[k]).attr != 0x0F
}

proof fn sector_no_long(b: Seq<u8>, k: int)
    requires
        0 <= k,
    ensures
        no_long(sector_list(b, k).0),
    decreases 16 - k,
{
    if k < 16 && b[32 * k] != 0 {
        sector_no_long(b, k + 1);
    }
}

proof fn clus_no_long(s: FsView, i: FatInfo, clu: int, k: int)
    ensures
        no_long(clus_list(s, i, clu, k).0),
    decreases i.sec_per_clus - k,
{
    if k < i.sec_per_clus {
        match read_clus(s, i, clu, k) {
            None => {},
            Some(b) => {
                sector_no_long(b, 0);
                clus_no_long(s, i, clu, k + 1);
            },
        }
    }
}

pub(crate) proof fn chain_no_long(s: FsView, i: FatInfo, clu: int, fuel: nat)
    ensures
        no_long(chain_list(s, i, clu, fuel)),
    decreases fuel,
{
    if fuel > 0 {
        clus_no_long(s, i, clu, 0);
        chain_no_long(s, i, read_fat(s, i, clu) as int, (fuel - 1) as nat);
    }
}

/// The file gets its entry; table entries that were in use, and belong
/// neither to the old chain of the file nor to the end of the directory, stay.
proof fn file_entered(
    s: FsView,
    i: FatInfo,
    dirs: Map<u32, Seq<int>>,
    d: u32,
    n: Seq<u8>,
    existing: Option<Entry>,
    prior: Seq<int>,
    first: u32,
    size: u32,
) -> (ch: Seq<int>)
    requires
        roomy(s, i, 1),
        tree_ok(s, i, dirs),
        dirs.contains_key(d),
        file_name(n),
        existing == first_match(dir_list(s, i, d as int), Some(n)),
        existing matches Some(e) ==> e.cluster >= 2 ==> chain_ok(s, i, prior) && prior[0]
            == e.cluster && apart(dirs, prior),
        enter_file(s, i, d, n, existing, first, size).1 is Ok,
    ensures
        ({
            let t = enter_file(s, i, d, n, existing, first, size).0;
            let attr = match existing {
                Some(e) => e.attr,
                None => 32,
            };
            let e = Entry { name: n, attr, cluster: first, size };
            &&& same_but_disk(s, t)
            &&& volume_ok(t, i)
            &&& replaced(dir_list(s, i, d as int), dir_list(t, i, d as int), n, e)
            &&& forall|c: u32| #[trigger]
                dirs.contains_key(c) ==> {
                    &&& parent_of(t, i, c) == parent_of(s, i, c)
                    &&& c != d ==> chain_ok(t, i, dirs[c]) && dir_list(t, i, c as int) == dir_list(
                        s,
                        i,
                        c as int,
                    )
                }
            &&& chain_ok(t, i, ch)
            &&& ch[0] == d
            &&& forall|q: int|
                0 <= q < ch.len() ==> dirs[d].contains(#[trigger] ch[q]) || read_fat(s, i, ch[q])
                    == 0
            &&& forall|x: int|
                in_range(i, x) && read_fat(s, i, x) != 0 && x != dirs[d].last() && (existing is Some
                    && existing->0.cluster >= 2 ==> !prior.contains(x)) ==> #[trigger] read_fat(
                    t,
                    i,
                    x,
                ) == read_fat(s, i, x)
            &&& forall|x: int|
                in_range(i, x) && read_fat(s, i, x) != 0 && !dirs[d].contains(x) && (existing is Some
                    && existing->0.cluster >= 2 ==> !prior.contains(x)) ==> #[trigger] same_clus(
                    s,
                    t,
                    i,
                    x,
                    0,
                )
        }),
{
    reveal(enter_file);
    let t = enter_file(s, i, d, n, existing, first, size).0;
    match existing {
        Some(old) => {
            let s1 = free_chain(s, i, old.cluster);
            if old.cluster >= 2 {
                chain_is_freed(s, i, prior);
                assert forall|c: u32| #[trigger] dirs.contains_key(c) implies same_links(
                    s,
                    s1,
                    i,
                    dirs[c],
                ) by {
                    let h = dirs[c];
                    assert forall|q: int| 0 <= q < h.len() implies read_fat(s1, i, #[trigger] h[q])
                        == read_fat(s, i, h[q]) by {
                        assert(in_range(i, h[q]));
                        if prior.contains(h[q]) {
                            let b = choose|b: int| 0 <= b < prior.len() && prior[b] == h[q];
                            assert(dirs[c][q] != prior[b]);
                        }
                    }
                }
            } else {
                reveal(free_chain);
                assert(s1 == s);
                assert(only_tables(s, s1, i));
            }
            tree_kept(s, s1, i, dirs);
            let e = Entry { name: n, attr: old.attr, cluster: first, size };
            let (lba, slot) = find_pos(s1, i, d as int, n)->Ok_0;
            reveal(find_pos);
            let (a, j) = pos_spot(s1, i, dirs[d], 0, n, (i.cluster_count + 2) as nat);
            assert(old.attr != 0x0F) by {
                reveal(dir_list);
                chain_no_long(s, i, d as int, i.cluster_count as nat);
                let k = match_is_there(dir_list(s, i, d as int), n);
                assert(dir_list(s, i, d as int)[k].attr != 0x0F);
            }
            spot_entered(s1, i, dirs, d, n, a, j, slot, e);
            let ch = dirs[d];
            assert forall|x: int|
                in_range(i, x) && read_fat(s, i, x) != 0 && x != dirs[d].last() && (old.cluster >= 2
                    ==> !prior.contains(x)) implies #[trigger] read_fat(t, i, x) == read_fat(
                s,
                i,
                x,
            ) by {
                assert(read_fat(s1, i, x) == read_fat(s, i, x));
            }
            assert forall|x: int|
                in_range(i, x) && read_fat(s, i, x) != 0 && !dirs[d].contains(x) && (old.cluster >= 2
                    ==> !prior.contains(x)) implies #[trigger] same_clus(s, t, i, x, 0) by {
                assert(read_fat(s1, i, x) == read_fat(s, i, x));
                assert(same_clus(s1, t, i, x, 0));
                assert forall|r: int| 0 <= r < i.sec_per_clus implies #[trigger] read_clus(t, i, x, r)
                    == read_clus(s, i, x, r) by {
                    sectors_behind(i, x, r);
                    assert(read_clus(t, i, x, r) == read_clus(s1, i, x, r));
                }
            }
            assert forall|q: int| 0 <= q < ch.len() implies dirs[d].contains(#[trigger] ch[q])
                || read_fat(s, i, ch[q]) == 0 by {
                assert(dirs[d][q] == ch[q]);
            }
            ch
        },
        None => {
            reveal(add_entry);
            reveal(find_free_slot);
            reveal(dir_list);
            let e = Entry { name: n, attr: 32, cluster: first, size };
            at_most_all(i, dirs[d]);
            let r = free_spot(
                s,
                i,
                dirs[d],
                0,
                n,
                (i.cluster_count + 2) as nat,
                i.cluster_count as nat,
            );
            match r {
                Some((a, j)) => {
                    let (lba, slot) = find_free_slot(s, i, d as int).1->Ok_0;
                    spot_entered(s, i, dirs, d, n, a, j, slot, e);
                    dirs[d]
                },
                None => grown_entered(s, i, dirs, d, n, e),
            }
        },
    }
}

// ---------- the law ----------

/// The states that writing a file goes through: clusters are taken, the entry
/// is written, and the data follows.
pub open spec fn taken_state(s: FsView, i: FatInfo, data: Seq<u8>) -> FsView {
    alloc_chain(s, i, clusters_for(i, data.len() as int)).0
}

/// The clusters that are taken for the data.
pub open spec fn taken_chain(s: FsView, i: FatInfo, data: Seq<u8>) -> Seq<u32> {
    alloc_chain(s, i, clusters_for(i, data.len() as int)).1->0
}

/// The entry that the path has, if it has one.
pub open spec fn entry_before(s: FsView, i: FatInfo, path: Seq<char>) -> Option<Entry> {
    let (d, n) = target(s, i, path)->Ok_0;
    first_match(dir_list(s, i, d as int), Some(n))
}

/// The entry that is written.
pub open spec fn entry_after(s: FsView, i: FatInfo, path: Seq<char>, data: Seq<u8>) -> Entry {
    let chain = taken_chain(s, i, data);
    Entry {
        name: (target(s, i, path)->Ok_0).1,
        attr: match entry_before(s, i, path) {
            Some(e) => e.attr,
            None => 32,
        },
        cluster: if chain.len() == 0 {
            0
        } else {
            chain[0]
        },
        size: data.len() as u32,
    }
}

/// The state with the entry, before the data is written.
pub open spec fn entered_state(s: FsView, i: FatInfo, path: Seq<char>, data: Seq<u8>) -> FsView {
    let (d, n) = target(s, i, path)->Ok_0;
    let e = entry_after(s, i, path, data);
    enter_file(
        taken_state(s, i, data),
        i,
        d,
        n,
        entry_before(s, i, path),
        e.cluster,
        e.size,
    ).0
}

/// What is known once the entry is written; `ch` is the chain of the directory.
#[verifier::opaque]
spec fn steps_done(
    s: FsView,
    i: FatInfo,
    dirs: Map<u32, Seq<int>>,
    path: Seq<char>,
    data: Seq<u8>,
    ch: Seq<int>,
) -> bool {
    let (d, n) = target(s, i, path)->Ok_0;
    let s1 = taken_state(s, i, data);
    let s2 = entered_state(s, i, path, data);
    let chain = taken_chain(s, i, data);
    let existing = entry_before(s, i, path);
    let prior = prior_chain(s, i, dirs, d, existing);
    let e = entry_after(s, i, path, data);
    let t = write_file(s, path, data).0;
    &&& target(s, i, path) is Ok
    &&& dirs.contains_key(d)
    &&& new_chain(s, s1, i, chain)
    &&& chain.len() == clusters_for(i, data.len() as int)
    &&& tree_ok(s1, i, dirs)
    &&& forall|x: int| #![trigger read_fat(s1, i, x)]
        in_range(i, x) && read_fat(s, i, x) != 0 ==> !ints(chain).contains(x) && read_fat(s1, i, x)
            == read_fat(s, i, x)
    &&& forall|c: u32| #[trigger]
        dirs.contains_key(c) ==> dir_list(s1, i, c as int) == dir_list(s, i, c as int) && parent_of(
            s1,
            i,
            c,
        ) == parent_of(s, i, c)
    &&& same_but_disk(s1, s2)
    &&& volume_ok(s2, i)
    &&& replaced(dir_list(s1, i, d as int), dir_list(s2, i, d as int), n, e)
    &&& forall|c: u32| #[trigger]
        dirs.contains_key(c) ==> {
            &&& parent_of(s2, i, c) == parent_of(s1, i, c)
            &&& c != d ==> chain_ok(s2, i, dirs[c]) && dir_list(s2, i, c as int) == dir_list(
                s1,
                i,
                c as int,
            )
        }
    &&& chain_ok(s2, i, ch)
    &&& ch[0] == d
    &&& forall|q: int|
        0 <= q < ch.len() ==> dirs[d].contains(#[trigger] ch[q]) || read_fat(s1, i, ch[q]) == 0
    &&& existing is Some && existing->0.cluster >= 2 ==> chain_ok(s, i, prior)
    &&& forall|x: int|
        in_range(i, x) && read_fat(s1, i, x) != 0 && x != dirs[d].last() && (existing is Some
            && existing->0.cluster >= 2 ==> !prior.contains(x)) ==> #[trigger] read_fat(s2, i, x)
            == read_fat(s1, i, x)
    &&& forall|x: int|
        in_range(i, x) && read_fat(s1, i, x) != 0 && !dirs[d].contains(x) && (existing is Some
            && existing->0.cluster >= 2 ==> !prior.contains(x)) ==> #[trigger] same_clus(
            s1,
            s2,
            i,
            x,
            0,
        )
    &&& t == fill_chain(s2, i, chain, data, 0).0
    &&& fill_chain(s2, i, chain, data, 0).1
}

proof fn steps(s: FsView, i: FatInfo, dirs: Map<u32, Seq<int>>, path: Seq<char>, data: Seq<u8>) -> (ch:
    Seq<int>)
    requires
        s.fat == Some(i),
        tree_ok(s, i, dirs),
        files_apart(s, i, dirs),
        find_file(s, i, path) != Err::<Entry, FsErr>(FsErr::IsDir),
        write_file(s, path, data).1 is Ok,
        room_for(s, i, data),
    ensures
        steps_done(s, i, dirs, path, data, ch),
{
    reveal(steps_done);
    reveal(write_file);
    let (d, n) = target(s, i, path)->Ok_0;
    assert(ways_kept(s, s, i, dirs));
    target_kept(s, s, i, dirs, path);
    let existing = first_match(dir_list(s, i, d as int), Some(n));
    let need = clusters_for(i, data.len() as int);
    enough(i, data.len() as int);
    chain_is_taken(s, i, need);
    let s1 = alloc_chain(s, i, need).0;
    let chain = alloc_chain(s, i, need).1->0;
    let ci = ints(chain);
    // the clusters that were taken belong to no directory and no file
    assert forall|x: int| #![trigger read_fat(s1, i, x)]
        in_range(i, x) && read_fat(s, i, x) != 0 implies !ci.contains(x) && read_fat(s1, i, x)
        == read_fat(s, i, x) by {
        if ci.contains(x) {
            let k = choose|k: int| 0 <= k < ci.len() && ci[k] == x;
            assert(read_fat(s, i, chain[k] as int) == 0);
        }
    }
    assert forall|c: u32| #[trigger] dirs.contains_key(c) implies same_links(s, s1, i, dirs[c]) by {
        let h = dirs[c];
        assert forall|q: int| 0 <= q < h.len() implies read_fat(s1, i, #[trigger] h[q]) == read_fat(
            s,
            i,
            h[q],
        ) by {
            assert(in_range(i, h[q]));
            chain_in_use(s, i, h, q);
        }
    }
    tree_kept(s, s1, i, dirs);
    let prior = prior_chain(s, i, dirs, d, existing);
    if existing is Some && existing->0.cluster >= 2 {
        let k = match_is_there(dir_list(s, i, d as int), n);
        assert(file_apart(s, i, dirs, dir_list(s, i, d as int)[k]));
        assert forall|q: int| 0 <= q < prior.len() implies read_fat(s1, i, #[trigger] prior[q])
            == read_fat(s, i, prior[q]) by {
            assert(in_range(i, prior[q]));
            chain_in_use(s, i, prior, q);
        }
        links_ok(s, s1, i, prior);
    }
    let first = if chain.len() == 0 {
        0
    } else {
        chain[0]
    };
    let size = data.len() as u32;
    let s2 = enter_file(s1, i, d, n, existing, first, size).0;
    let ch = file_entered(s1, i, dirs, d, n, existing, prior, first, size);
    ch
}

/// The chain of the data is not touched by writing the entry.
proof fn chain_untouched(
    s: FsView,
    i: FatInfo,
    dirs: Map<u32, Seq<int>>,
    path: Seq<char>,
    data: Seq<u8>,
    ch: Seq<int>,
)
    requires
        tree_ok(s, i, dirs),
        steps_done(s, i, dirs, path, data, ch),
    ensures
        taken_chain(s, i, data).len() > 0 ==> chain_ok(
            entered_state(s, i, path, data),
            i,
            ints(taken_chain(s, i, data)),
        ),
{
    reveal(steps_done);
    let t = write_file(s, path, data).0;
    let (d, n) = target(s, i, path)->Ok_0;
    let existing = entry_before(s, i, path);
    let s1 = taken_state(s, i, data);
    let s2 = entered_state(s, i, path, data);
    let chain = taken_chain(s, i, data);
    let ci = ints(chain);
    let prior = prior_chain(s, i, dirs, d, existing);
    // the chain of the file is untouched
    if chain.len() > 0 {
        assert forall|q: int| 0 <= q < ci.len() implies read_fat(s2, i, #[trigger] ci[q])
            == read_fat(s1, i, ci[q]) by {
            assert(in_range(i, ci[q]));
            chain_in_use(s1, i, ci, q);
            assert(read_fat(s, i, chain[q] as int) == 0);
            let h = dirs[d];
            assert(h.last() == h[h.len() - 1]);
            chain_in_use(s, i, h, h.len() - 1);
            if existing is Some && existing->0.cluster >= 2 && prior.contains(ci[q]) {
                let b = choose|b: int| 0 <= b < prior.len() && prior[b] == ci[q];
                chain_in_use(s, i, prior, b);
            }
        }
        links_ok(s1, s2, i, ci);
    }
}

/// The data goes to the clusters that were taken, and to no other.
proof fn data_goes_there(
    s: FsView,
    i: FatInfo,
    dirs: Map<u32, Seq<int>>,
    path: Seq<char>,
    data: Seq<u8>,
    ch: Seq<int>,
)
    requires
        tree_ok(s, i, dirs),
        steps_done(s, i, dirs, path, data, ch),
    ensures
        ({
            let t = write_file(s, path, data).0;
            let s2 = entered_state(s, i, path, data);
            let chain = taken_chain(s, i, data);
            &&& same_but_disk(s2, t)
            &&& volume_ok(t, i)
            &&& stands(t, i, chain, data)
            &&& forall|x: int| in_range(i, x) ==> #[trigger] read_fat(t, i, x) == read_fat(s2, i, x)
            &&& forall|x: int|
                in_range(i, x) && !ints(chain).contains(x) ==> #[trigger] same_clus(s2, t, i, x, 0)
        }),
{
    reveal(steps_done);
    chain_untouched(s, i, dirs, path, data, ch);
    let t = write_file(s, path, data).0;
    let (d, n) = target(s, i, path)->Ok_0;
    let existing = entry_before(s, i, path);
    let s1 = taken_state(s, i, data);
    let s2 = entered_state(s, i, path, data);
    let chain = taken_chain(s, i, data);
    let ci = ints(chain);
    let prior = prior_chain(s, i, dirs, d, existing);
    // the data goes to the chain of the file only
    assert forall|a: int, b: int| 0 <= a < b < chain.len() implies #[trigger] chain[a]
        != #[trigger] chain[b] by {
        assert(ci[a] != ci[b]);
    }
    chain_filled(s2, i, chain, data);
    assert forall|l: int| l < i.data_start implies #[trigger] t.raw_read(l) == s2.raw_read(l) by {
        assert forall|q: int, j: int| 0 <= q < chain.len() && 0 <= j < i.sec_per_clus implies l
            != #[trigger] sector_of(i, #[trigger] chain[q] as int, j) by {
            assert(in_range(i, ci[q]));
            sectors_behind(i, chain[q] as int, j);
        }
    }
    tables_stay(s2, t, i);
    assert forall|x: int| in_range(i, x) && !ci.contains(x) implies #[trigger] same_clus(
        s2,
        t,
        i,
        x,
        0,
    ) by {
        assert forall|r: int| 0 <= r < i.sec_per_clus implies #[trigger] read_clus(t, i, x, r)
            == read_clus(s2, i, x, r) by {
            let l = sector_of(i, x, r);
            assert forall|q: int, j: int| 0 <= q < chain.len() && 0 <= j < i.sec_per_clus implies l
                != #[trigger] sector_of(i, #[trigger] chain[q] as int, j) by {
                if l == sector_of(i, chain[q] as int, j) {
                    sectors_apart(i, x, r, chain[q] as int, j);
                    assert(ci[q] == x);
                }
            }
        }
    }
}

/// What the directories hold afterwards: that of the file has its entry, and
/// the others are as they were.
pub open spec fn listed_after(
    s: FsView,
    t: FsView,
    i: FatInfo,
    dirs: Map<u32, Seq<int>>,
    path: Seq<char>,
    data: Seq<u8>,
) -> bool {
    let (d, n) = target(s, i, path)->Ok_0;
    &&& target(s, i, path) is Ok
    &&& replaced(
        dir_list(s, i, d as int),
        dir_list(t, i, d as int),
        n,
        entry_after(s, i, path, data),
    )
    &&& forall|c: u32|
        #![trigger dirs.contains_key(c)]
        dirs.contains_key(c) && c != d ==> dir_list(t, i, c as int) == dir_list(s, i, c as int)
    &&& forall|c: u32| #[trigger]
        dirs.contains_key(c) ==> parent_of(t, i, c) == parent_of(s, i, c)
}

/// Writing the data changes no directory.
proof fn directories_stay(
    s: FsView,
    i: FatInfo,
    dirs: Map<u32, Seq<int>>,
    path: Seq<char>,
    data: Seq<u8>,
    ch: Seq<int>,
)
    requires
        tree_ok(s, i, dirs),
        steps_done(s, i, dirs, path, data, ch),
    ensures
        forall|c: u32| #[trigger]
            dirs.contains_key(c) ==> {
                &&& parent_of(write_file(s, path, data).0, i, c) == parent_of(s, i, c)
                &&& dir_list(write_file(s, path, data).0, i, c as int) == dir_list(
                    entered_state(s, i, path, data),
                    i,
                    c as int,
                )
            },
        listed_after(s, write_file(s, path, data).0, i, dirs, path, data),
{
    reveal(steps_done);
    chain_untouched(s, i, dirs, path, data, ch);
    data_goes_there(s, i, dirs, path, data, ch);
    let t = write_file(s, path, data).0;
    let (d, n) = target(s, i, path)->Ok_0;
    let existing = entry_before(s, i, path);
    let s1 = taken_state(s, i, data);
    let s2 = entered_state(s, i, path, data);
    let chain = taken_chain(s, i, data);
    let ci = ints(chain);
    let prior = prior_chain(s, i, dirs, d, existing);
    // the directories
    assert forall|c: u32| #[trigger] dirs.contains_key(c) implies {
        &&& parent_of(t, i, c) == parent_of(s, i, c)
        &&& dir_list(t, i, c as int) == dir_list(s2, i, c as int)
    } by {
        let h = if c == d {
            ch
        } else {
            dirs[c]
        };
        assert forall|q: int| 0 <= q < h.len() implies read_fat(t, i, #[trigger] h[q]) == read_fat(
            s2,
            i,
            h[q],
        ) && same_clus(s2, t, i, h[q], 0) by {
            assert(in_range(i, h[q]));
            if ci.contains(h[q]) {
                let k = choose|k: int| 0 <= k < ci.len() && ci[k] == h[q];
                assert(read_fat(s, i, chain[k] as int) == 0);
                chain_in_use(s1, i, ci, k);
                if c == d {
                    assert(dirs[d].contains(ch[q]));
                    let b = choose|b: int| 0 <= b < dirs[d].len() && dirs[d][b] == ch[q];
                    chain_in_use(s, i, dirs[d], b);
                } else {
                    chain_in_use(s, i, dirs[c], q);
                }
            }
        }
        assert(same_links(s2, t, i, h));
        assert(same_contents(s2, t, i, h, 0));
        dir_kept(s2, t, i, c, h);
    }
}

/// The table has entries for the clusters that the data take, and for one by
/// which the directory may grow.
pub open spec fn room_for(s: FsView, i: FatInfo, data: Seq<u8>) -> bool {
    roomy(s, i, clusters_for(i, data.len() as int) + 1)
}

/// A file reads back as it was written. On a volume whose directories form a
/// tree, a write that succeeds to a path that is not a directory's is followed
/// by a read of the same path that returns the same bytes, as many of them as
/// the buffer has room for.
#[verifier::spinoff_prover]
#[verifier::rlimit(80)]
pub proof fn written_file_reads_back(
    s: FsView,
    i: FatInfo,
    dirs: Map<u32, Seq<int>>,
    path: Seq<char>,
    data: Seq<u8>,
    room: int,
)
    requires
        s.fat == Some(i),
        tree_ok(s, i, dirs),
        files_apart(s, i, dirs),
        find_file(s, i, path) != Err::<Entry, FsErr>(FsErr::IsDir),
        write_file(s, path, data).1 is Ok,
        room_for(s, i, data),
        room >= 0,
    ensures
        same_but_disk(s, write_file(s, path, data).0),
        read_file(write_file(s, path, data).0, path, room) == (head(data, room), None::<FsErr>),
        find_file(write_file(s, path, data).0, i, path) matches Ok(e) && e.size == data.len(),
{
    reveal(steps_done);
    let ch = steps(s, i, dirs, path, data);
    let t = write_file(s, path, data).0;
    let (d, n) = target(s, i, path)->Ok_0;
    let existing = entry_before(s, i, path);
    let s1 = taken_state(s, i, data);
    let s2 = entered_state(s, i, path, data);
    let chain = taken_chain(s, i, data);
    let ci = ints(chain);
    let prior = prior_chain(s, i, dirs, d, existing);
    let e = entry_after(s, i, path, data);
    assert(data.len() <= 65536) by {
        reveal(write_file);
    }
    enough(i, data.len() as int);
    chain_untouched(s, i, dirs, path, data, ch);
    data_goes_there(s, i, dirs, path, data, ch);
    directories_stay(s, i, dirs, path, data, ch);
    // the path leads to the entry
    assert(ways_kept(s, t, i, dirs)) by {
        assert forall|c: u32, m: Seq<u8>|
            dirs.contains_key(c) && look_up_dir(s, i, c as int, m) is Ok implies #[trigger] look_up_dir(
            t,
            i,
            c as int,
            m,
        ) == look_up_dir(s, i, c as int, m) by {
            if c == d {
                assert(m != n);
                assert(first_match(dir_list(s2, i, d as int), Some(m)) == first_match(
                    dir_list(s1, i, d as int),
                    Some(m),
                ));
            }
        }
    }
    target_kept(s, t, i, dirs, path);
    assert(look_up(t, i, d as int, n) == Ok::<Entry, FsErr>(e));
    assert(!e.is_dir()) by {
        match existing {
            Some(o) => {
                assert(look_up(s, i, d as int, n) == Ok::<Entry, FsErr>(o));
            },
            None => {},
        }
    }
    assert(find_file(t, i, path) == Ok::<Entry, FsErr>(e));
    if data.len() > 0 {
        at_most_all(i, ci);
        assert forall|q: int| 0 <= q < ci.len() implies read_fat(t, i, #[trigger] ci[q])
            == read_fat(s2, i, ci[q]) by {
            assert(in_range(i, ci[q]));
        }
        links_ok(s2, t, i, ci);
        assert(in_range(i, ci[0]));
        chain_reads_back(t, i, chain, data, i.cluster_count as nat);
        if room < data.len() {
            data_head(
                t,
                i,
                chain[0] as int,
                data.len() as int,
                room,
                i.cluster_count as nat,
            );
        }
    } else {
        assert(data =~= Seq::empty());
    }
}

/// The chain of a file that is neither in a directory nor in the file that is
/// replaced.
pub open spec fn stands_apart(
    s: FsView,
    i: FatInfo,
    dirs: Map<u32, Seq<int>>,
    path: Seq<char>,
    h: Seq<int>,
) -> bool {
    let (d, n) = target(s, i, path)->Ok_0;
    let existing = entry_before(s, i, path);
    &&& chain_ok(s, i, h)
    &&& apart(dirs, h)
    &&& existing is Some && existing->0.cluster >= 2 ==> forall|q: int|
        0 <= q < h.len() ==> !prior_chain(s, i, dirs, d, existing).contains(#[trigger] h[q])
}

/// A chain that stands apart is as it was.
proof fn chain_beside(
    s: FsView,
    i: FatInfo,
    dirs: Map<u32, Seq<int>>,
    path: Seq<char>,
    data: Seq<u8>,
    ch: Seq<int>,
    h: Seq<int>,
)
    requires
        tree_ok(s, i, dirs),
        steps_done(s, i, dirs, path, data, ch),
        stands_apart(s, i, dirs, path, h),
    ensures
        same_links(s, write_file(s, path, data).0, i, h),
        same_contents(s, write_file(s, path, data).0, i, h, 0),
{
    reveal(steps_done);
    data_goes_there(s, i, dirs, path, data, ch);
    let t = write_file(s, path, data).0;
    let (d, n) = target(s, i, path)->Ok_0;
    let s1 = taken_state(s, i, data);
    let s2 = entered_state(s, i, path, data);
    assert forall|q: int| 0 <= q < h.len() implies read_fat(t, i, #[trigger] h[q]) == read_fat(
        s,
        i,
        h[q],
    ) && same_clus(s, t, i, h[q], 0) by {
        let x = h[q];
        assert(in_range(i, x));
        chain_in_use(s, i, h, q);
        assert(read_fat(s1, i, x) == read_fat(s, i, x));
        assert(dirs[d].last() == dirs[d][dirs[d].len() - 1]);
        assert(dirs[d][dirs[d].len() - 1] != h[q]);
        if dirs[d].contains(x) {
            let b = choose|b: int| 0 <= b < dirs[d].len() && dirs[d][b] == x;
            assert(dirs[d][b] != h[q]);
        }
        assert(read_fat(s2, i, x) == read_fat(s1, i, x));
        assert(same_clus(s1, s2, i, x, 0));
        assert(same_clus(s2, t, i, x, 0));
        assert forall|r: int| 0 <= r < i.sec_per_clus implies #[trigger] read_clus(t, i, x, r)
            == read_clus(s, i, x, r) by {
            sectors_behind(i, x, r);
            assert(read_clus(t, i, x, r) == read_clus(s2, i, x, r));
            assert(read_clus(s2, i, x, r) == read_clus(s1, i, x, r));
        }
    }
}

/// A name that is not the written one leads where it led.
proof fn names_beside(
    s: FsView,
    t: FsView,
    i: FatInfo,
    dirs: Map<u32, Seq<int>>,
    path: Seq<char>,
    data: Seq<u8>,
    c: u32,
    m: Seq<u8>,
)
    requires
        listed_after(s, t, i, dirs, path, data),
        dirs.contains_key(c),
        !(c == (target(s, i, path)->Ok_0).0 && m == (target(s, i, path)->Ok_0).1),
        look_up(s, i, c as int, m) is Ok,
    ensures
        look_up(t, i, c as int, m) == look_up(s, i, c as int, m),
{
    let (d, n) = target(s, i, path)->Ok_0;
    if c == d {
        assert(first_match(dir_list(t, i, d as int), Some(m)) == first_match(
            dir_list(s, i, d as int),
            Some(m),
        ));
    }
}

/// Every directory is found where it was.
proof fn ways_after(
    s: FsView,
    t: FsView,
    i: FatInfo,
    dirs: Map<u32, Seq<int>>,
    path: Seq<char>,
    data: Seq<u8>,
)
    requires
        listed_after(s, t, i, dirs, path, data),
        find_file(s, i, path) != Err::<Entry, FsErr>(FsErr::IsDir),
    ensures
        ways_kept(s, t, i, dirs),
{
    let (d, n) = target(s, i, path)->Ok_0;
    assert forall|c: u32, m: Seq<u8>|
        dirs.contains_key(c) && look_up_dir(s, i, c as int, m) is Ok implies #[trigger] look_up_dir(
        t,
        i,
        c as int,
        m,
    ) == look_up_dir(s, i, c as int, m) by {
        if c == d && m == n {
            assert(look_up(s, i, d as int, n) is Ok);
        } else {
            names_beside(s, t, i, dirs, path, data, c, m);
        }
    }
}

/// Writing a file leaves another as it was: one that another path names, and
/// whose chain shares no cluster with a directory or with the file that is
/// replaced.
pub proof fn other_files_stay(
    s: FsView,
    i: FatInfo,
    dirs: Map<u32, Seq<int>>,
    path: Seq<char>,
    data: Seq<u8>,
    other: Seq<char>,
    chain: Seq<int>,
    room: int,
)
    requires
        s.fat == Some(i),
        tree_ok(s, i, dirs),
        files_apart(s, i, dirs),
        find_file(s, i, path) != Err::<Entry, FsErr>(FsErr::IsDir),
        write_file(s, path, data).1 is Ok,
        room_for(s, i, data),
        find_file(s, i, other) is Ok,
        target(s, i, other) != target(s, i, path),
        (find_file(s, i, other)->Ok_0).cluster >= 2 ==> stands_apart(s, i, dirs, path, chain)
            && chain[0] == (find_file(s, i, other)->Ok_0).cluster,
    ensures
        read_file(write_file(s, path, data).0, other, room) == read_file(s, other, room),
{
    let ch = steps(s, i, dirs, path, data);
    let t = write_file(s, path, data).0;
    written_file_reads_back(s, i, dirs, path, data, data.len() as int);
    directories_stay(s, i, dirs, path, data, ch);
    found_beside(s, t, i, dirs, path, data, other);
    let e = find_file(s, i, other)->Ok_0;
    let left = min_int(e.size as int, room);
    if e.cluster >= 2 {
        chain_beside(s, i, dirs, path, data, ch, chain);
        data_kept(s, t, i, chain, 0, left, i.cluster_count as nat);
    }
}

/// Another file is found as it was.
proof fn found_beside(
    s: FsView,
    t: FsView,
    i: FatInfo,
    dirs: Map<u32, Seq<int>>,
    path: Seq<char>,
    data: Seq<u8>,
    other: Seq<char>,
)
    requires
        tree_ok(s, i, dirs),
        t.cwd == s.cwd,
        listed_after(s, t, i, dirs, path, data),
        find_file(s, i, path) != Err::<Entry, FsErr>(FsErr::IsDir),
        find_file(s, i, other) is Ok,
        target(s, i, other) != target(s, i, path),
    ensures
        find_file(t, i, other) == find_file(s, i, other),
{
    ways_after(s, t, i, dirs, path, data);
    target_kept(s, t, i, dirs, other);
    let (c, m) = target(s, i, other)->Ok_0;
    names_beside(s, t, i, dirs, path, data, c, m);
}

proof fn clus_head(s: FsView, i: FatInfo, c: int, off: int, n: int, less: int)
    requires
        s.disk.wf(),
        off <= less <= n,
        !clus_data(s, i, c, off, n).1,
    ensures
        clus_data(s, i, c, off, n).0.len() == n - off,
        clus_data(s, i, c, off, less) == (clus_data(s, i, c, off, n).0.take(less - off), false),
    decreases n - off,
{
    if off < n {
        let m = min_int(n - off, 512);
        let k = min_int(less - off, 512);
        let b = read_clus(s, i, c, off / 512)->0;
        assert(b.len() == 512);
        let rest = clus_data(s, i, c, off + m, n).0;
        if off < less {
            if k == 512 {
                clus_head(s, i, c, off + m, n, less);
                assert((b.subrange(0, m) + rest).take(less - off) =~= b.subrange(0, k) + rest.take(
                    less - off - m,
                ));
            } else {
                clus_head(s, i, c, off + m, n, off + m);
                assert(clus_data(s, i, c, off + k, less) == (Seq::<u8>::empty(), false));
                assert((b.subrange(0, m) + rest).take(less - off) =~= b.subrange(0, k) + Seq::<
                    u8,
                >::empty());
            }
        } else {
            clus_head(s, i, c, off + m, n, off + m);
            assert((b.subrange(0, m) + rest).take(0) =~= Seq::<u8>::empty());
        }
    } else {
        assert(Seq::<u8>::empty().take(0) =~= Seq::<u8>::empty());
    }
}

/// A shorter read gives the first bytes of a longer one.
proof fn data_head(s: FsView, i: FatInfo, c: int, left: int, less: int, fuel: nat)
    requires
        s.disk.wf(),
        i.sec_per_clus >= 1,
        0 <= less <= left,
        !chain_data(s, i, c, left, fuel).1,
        chain_data(s, i, c, left, fuel).0.len() == left,
    ensures
        chain_data(s, i, c, less, fuel) == (chain_data(s, i, c, left, fuel).0.take(less), false),
    decreases fuel,
{
    let all = chain_data(s, i, c, left, fuel).0;
    if less <= 0 || fuel == 0 {
        assert(all.take(less) =~= Seq::<u8>::empty());
    } else {
        let size = i.sec_per_clus * 512;
        let n = min_int(left, size);
        let m = min_int(less, size);
        clus_head(s, i, c, 0, n, m);
        let d = clus_data(s, i, c, 0, n).0;
        let next = read_fat(s, i, c);
        if goes_on(next) {
            let rest = chain_data(s, i, next as int, left - n, (fuel - 1) as nat);
            assert(all == d + rest.0);
            data_head(s, i, next as int, left - n, less - m, (fuel - 1) as nat);
            assert(all.take(less) =~= d.take(m) + rest.0.take(less - m));
        } else {
            assert(all == d);
            assert(all.take(less) =~= d.take(m));
        }
    }
}

proof fn clus_data_kept(s: FsView, t: FsView, i: FatInfo, c: int, off: int, n: int)
    requires
        same_clus(s, t, i, c, 0),
        0 <= off,
        n <= 512 * i.sec_per_clus,
    ensures
        clus_data(t, i, c, off, n) == clus_data(s, i, c, off, n),
    decreases n - off,
{
    if off < n {
        assert(0 <= off / 512 < i.sec_per_clus);
        assert(read_clus(t, i, c, off / 512) == read_clus(s, i, c, off / 512));
        clus_data_kept(s, t, i, c, off + min_int(n - off, 512), n);
    }
}

/// A chain whose links and clusters are as they were gives what it gave.
pub(crate) proof fn data_kept(s: FsView, t: FsView, i: FatInfo, h: Seq<int>, k: int, left: int, fuel: nat)
    requires
        volume_ok(s, i),
        chain_ok(s, i, h),
        same_links(s, t, i, h),
        same_contents(s, t, i, h, 0),
        0 <= k < h.len(),
    ensures
        chain_data(t, i, h[k], left, fuel) == chain_data(s, i, h[k], left, fuel),
    decreases fuel,
{
    if left > 0 && fuel > 0 {
        let n = min_int(left, i.sec_per_clus * 512);
        assert(same_clus(s, t, i, h[k], 0));
        clus_data_kept(s, t, i, h[k], 0, n);
        let next = read_fat(s, i, h[k]);
        assert(chain_entry(s, i, h, k, next));
        if k + 1 < h.len() {
            data_kept(s, t, i, h, k + 1, left - n, (fuel - 1) as nat);
        }
    }
}

/// The chain of the file that was there before.
pub open spec fn prior_chain(
    s: FsView,
    i: FatInfo,
    dirs: Map<u32, Seq<int>>,
    d: u32,
    existing: Option<Entry>,
) -> Seq<int> {
    choose|ch: Seq<int>| #[trigger]
        chain_ok(s, i, ch) && existing is Some && ch[0] == existing->0.cluster && apart(dirs, ch)
}

pub(crate) proof fn tables_stay(s: FsView, t: FsView, i: FatInfo)
    requires
        volume_ok(s, i),
        same_but_disk(s, t),
        t.disk.wf(),
        forall|l: int| l < i.data_start ==> #[trigger] t.raw_read(l) == s.raw_read(l),
    ensures
        volume_ok(t, i),
        forall|x: int| in_range(i, x) ==> #[trigger] read_fat(t, i, x) == read_fat(s, i, x),
{
    assert(i.fat_size <= i.num_fats * i.fat_size) by (nonlinear_arith)
        requires
            1 <= i.num_fats,
            0 <= i.fat_size,
    ;
    assert forall|l: int| i.rsvc <= l < i.rsvc + i.num_fats * i.fat_size implies (
    #[trigger] t.raw_read(l)) is Some by {
        assert(s.raw_read(l) is Some);
    }
}

} // verus!
