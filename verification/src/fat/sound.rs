//! A sound FAT volume, and the steps that keep it sound: changes beside its
//! directories, a directory that grows, and a slot that is set.

use vstd::prelude::*;
use crate::bytes::zero_bytes;
use crate::fat::data::{sectors_apart, sectors_behind};
use crate::fat::laws::{
    apart, blanked, data_keeps_tables, dir_kept, file_apart, files_apart, grown_dotdot, links_ok,
    longer, no_dotdot, one_sector, tree_ok,
};
use crate::fat::model::{
    alloc_cluster, blank_clus, chain_list, clus_list, dir_list, dotdot_in_clus, entry_at,
    fat_sector, grow_dir, parent_of, read_clus, read_fat, sector_of, write_fat, Entry,
};
use crate::fat::slots::{file_name, passed, takes};
use crate::fat::table::{
    at_most_all, chain_entry, chain_in_use, chain_ok, entry_reads_back, first_free_is_taken,
    in_range, range_goes_on, roomy, volume_ok,
};
use crate::fat::tidy::{
    chain_split, chain_tidy, clus_tidy, ended_at, ends_at, full_at, full_clus_goes_on, no_name, one,
    reached, sector_blank, sector_tidy, set_at, slot_set, tidy_at, tidy_same, tidy_stays,
    void_adds_nothing, void_at,
};
use crate::fat::tree::{
    all_clean, chain_dotdot_kept, clus_clean, clus_same, entered_in, same_clus, same_contents,
    same_links, sector_clean, spot,
};
use crate::fs::{same_but_disk, FatInfo, FsErr, FsView};

verus! {

pub type Chains = Map<u32, Seq<int>>;

/// No two chains of the map share a cluster.
pub open spec fn chains_apart(m: Chains) -> bool {
    forall|c: u32, d: u32, a: int, b: int|
        m.contains_key(c) && m.contains_key(d) && c != d && 0 <= a < m[c].len() && 0 <= b
            < m[d].len() ==> #[trigger] m[c][a] != #[trigger] m[d][b]
}

/// The chains of the directories and of the files: each is whole, no two share
/// a cluster, no directory has remains behind its end, and each leads up to a
/// directory.
pub open spec fn chains_ok(s: FsView, i: FatInfo, dirs: Chains, files: Chains) -> bool {
    &&& volume_ok(s, i)
    &&& dirs.contains_key(i.root_clus)
    &&& forall|c: u32| #[trigger]
        dirs.contains_key(c) ==> chain_ok(s, i, dirs[c]) && dirs[c][0] == c && chain_tidy(
            s,
            i,
            dirs[c],
        ) && dirs.contains_key(parent_of(s, i, c))
    &&& forall|f: u32| #[trigger]
        files.contains_key(f) ==> chain_ok(s, i, files[f]) && files[f][0] == f && apart(
            dirs,
            files[f],
        )
    &&& chains_apart(dirs)
    &&& chains_apart(files)
}

/// An entry names a directory, not the root, or a file, or a file without
/// clusters.
pub open spec fn entry_known(i: FatInfo, dirs: Chains, files: Chains, e: Entry) -> bool {
    &&& e.is_dir() ==> dirs.contains_key(e.cluster) && e.cluster != i.root_clus
    &&& !e.is_dir() && e.cluster >= 2 ==> files.contains_key(e.cluster)
}

/// What the directories name is known, and no chain is named twice.
pub open spec fn names_ok(s: FsView, i: FatInfo, dirs: Chains, files: Chains) -> bool {
    &&& forall|c: u32, k: int|
        dirs.contains_key(c) && 0 <= k < dir_list(s, i, c as int).len() ==> entry_known(
            i,
            dirs,
            files,
            #[trigger] dir_list(s, i, c as int)[k],
        )
    &&& forall|c: u32, k: int, d: u32, l: int|
        dirs.contains_key(c) && 0 <= k < dir_list(s, i, c as int).len() && dirs.contains_key(d) && 0
            <= l < dir_list(s, i, d as int).len() && (#[trigger] dir_list(s, i, c as int)[k]).cluster
            >= 2 && dir_list(s, i, c as int)[k].cluster == (#[trigger] dir_list(
            s,
            i,
            d as int,
        )[l]).cluster ==> c == d && k == l
}

/// A sound volume: the chains of the directories `dirs` and of the files
/// `files`, by their first clusters, lie apart, and the directories name them
/// once each.
pub open spec fn sound(s: FsView, i: FatInfo, dirs: Chains, files: Chains) -> bool {
    &&& s.fat == Some(i)
    &&& chains_ok(s, i, dirs, files)
    &&& names_ok(s, i, dirs, files)
}

/// The tree of a sound volume.
pub proof fn sound_tree(s: FsView, i: FatInfo, dirs: Chains, files: Chains)
    requires
        sound(s, i, dirs, files),
    ensures
        tree_ok(s, i, dirs),
        files_apart(s, i, dirs),
{
    assert forall|c: u32, k: int| dirs.contains_key(c) && 0 <= k < dir_list(s, i, c as int).len() implies file_apart(
        s,
        i,
        dirs,
        #[trigger] dir_list(s, i, c as int)[k],
    ) by {
        let e = dir_list(s, i, c as int)[k];
        assert(entry_known(i, dirs, files, e));
        if !e.is_dir() && e.cluster >= 2 {
            let ch = files[e.cluster];
            assert(chain_ok(s, i, ch) && ch[0] == e.cluster && apart(dirs, ch));
        }
    }
}

// ---------- changes beside the directories ----------

/// The directories hold and lead up to what they did.
pub open spec fn lists_same(s: FsView, t: FsView, i: FatInfo, dirs: Chains) -> bool {
    forall|c: u32| #[trigger]
        dirs.contains_key(c) ==> dir_list(t, i, c as int) == dir_list(s, i, c as int) && parent_of(
            t,
            i,
            c,
        ) == parent_of(s, i, c)
}

/// The links of all chains and the clusters of the directories are as they
/// were.
pub open spec fn quiet(s: FsView, t: FsView, i: FatInfo, dirs: Chains, files: Chains) -> bool {
    &&& same_but_disk(s, t)
    &&& volume_ok(t, i)
    &&& forall|c: u32| #[trigger]
        dirs.contains_key(c) ==> same_links(s, t, i, dirs[c]) && same_contents(s, t, i, dirs[c], 0)
    &&& forall|f: u32| #[trigger] files.contains_key(f) ==> same_links(s, t, i, files[f])
}

pub proof fn quiet_step(s: FsView, t: FsView, i: FatInfo, dirs: Chains, files: Chains)
    requires
        chains_ok(s, i, dirs, files),
        quiet(s, t, i, dirs, files),
    ensures
        chains_ok(t, i, dirs, files),
        lists_same(s, t, i, dirs),
{
    assert forall|c: u32| #[trigger] dirs.contains_key(c) implies chain_ok(t, i, dirs[c]) && chain_tidy(
        t,
        i,
        dirs[c],
    ) && dir_list(t, i, c as int) == dir_list(s, i, c as int) && parent_of(t, i, c) == parent_of(
        s,
        i,
        c,
    ) by {
        links_ok(s, t, i, dirs[c]);
        tidy_same(s, t, i, dirs[c]);
        dir_kept(s, t, i, c, dirs[c]);
    }
    assert forall|f: u32| #[trigger] files.contains_key(f) implies chain_ok(t, i, files[f]) by {
        links_ok(s, t, i, files[f]);
    }
}

pub proof fn names_same(s: FsView, t: FsView, i: FatInfo, dirs: Chains, files: Chains)
    requires
        names_ok(s, i, dirs, files),
        lists_same(s, t, i, dirs),
    ensures
        names_ok(t, i, dirs, files),
{
    assert forall|c: u32, k: int| dirs.contains_key(c) && 0 <= k < dir_list(t, i, c as int).len() implies entry_known(
        i,
        dirs,
        files,
        #[trigger] dir_list(t, i, c as int)[k],
    ) by {
        assert(dir_list(t, i, c as int)[k] == dir_list(s, i, c as int)[k]);
    }
    assert forall|c: u32, k: int, d: u32, l: int|
        dirs.contains_key(c) && 0 <= k < dir_list(t, i, c as int).len() && dirs.contains_key(d) && 0
            <= l < dir_list(t, i, d as int).len() && (#[trigger] dir_list(t, i, c as int)[k]).cluster
            >= 2 && dir_list(t, i, c as int)[k].cluster == (#[trigger] dir_list(
            t,
            i,
            d as int,
        )[l]).cluster implies c == d && k == l by {
        assert(dir_list(t, i, c as int)[k] == dir_list(s, i, c as int)[k]);
        assert(dir_list(t, i, d as int)[l] == dir_list(s, i, d as int)[l]);
    }
}

// ---------- a slot is set ----------

/// What setting a slot of directory `d` does: its list differs in what the
/// slot adds, between `before` and `after`, and nothing else does.
pub open spec fn list_set(
    s: FsView,
    t: FsView,
    i: FatInfo,
    dirs: Chains,
    d: u32,
    before: Seq<Entry>,
    was: Seq<Entry>,
    is: Seq<Entry>,
    after: Seq<Entry>,
) -> bool {
    &&& dir_list(s, i, d as int) == before + was + after
    &&& dir_list(t, i, d as int) == before + is + after
    &&& forall|c: u32| #[trigger]
        dirs.contains_key(c) ==> parent_of(t, i, c) == parent_of(s, i, c) && (c != d ==> dir_list(
            t,
            i,
            c as int,
        ) == dir_list(s, i, c as int))
}

/// A slot of a directory is set in one sector write.
#[verifier::spinoff_prover]
pub proof fn slot_step(
    s: FsView,
    t: FsView,
    i: FatInfo,
    dirs: Chains,
    files: Chains,
    d: u32,
    n: Seq<u8>,
    a: int,
    j: int,
    slot: int,
) -> (r: (Seq<Entry>, Seq<Entry>))
    requires
        chains_ok(s, i, dirs, files),
        dirs.contains_key(d),
        reached(s, i, dirs[d], a, j, slot),
        one_sector(s, t, sector_of(i, dirs[d][a], j)),
        t.raw_read(sector_of(i, dirs[d][a], j)) is Some,
        ({
            let b = s.raw_read(sector_of(i, dirs[d][a], j))->0;
            let c = t.raw_read(sector_of(i, dirs[d][a], j))->0;
            &&& slot_set(b, c, slot)
            &&& takes(b, slot, n)
            &&& c[32 * slot] != 46
        }),
        file_name(n),
    ensures
        ({
            let b = s.raw_read(sector_of(i, dirs[d][a], j))->0;
            let c = t.raw_read(sector_of(i, dirs[d][a], j))->0;
            &&& chains_ok(t, i, dirs, files)
            &&& list_set(s, t, i, dirs, d, r.0, one(b, slot), one(c, slot), r.1)
            &&& spot(s, i, dirs[d], 0, n, a, j, slot) ==> no_name(r.0, n)
        }),
{
    let ch = dirs[d];
    let lba = sector_of(i, ch[a], j);
    assert(in_range(i, ch[a]));
    sectors_behind(i, ch[a], j);
    data_keeps_tables(s, t, i, lba);
    assert forall|x: int| in_range(i, x) && x != ch[a] implies #[trigger] same_clus(s, t, i, x, 0) by {
        assert forall|q: int| 0 <= q < i.sec_per_clus implies #[trigger] read_clus(t, i, x, q)
            == read_clus(s, i, x, q) by {
            if sector_of(i, x, q) == lba {
                sectors_apart(i, x, q, ch[a], j);
            }
        }
    }
    assert(set_at(s, t, i, ch, a, j, slot)) by {
        assert forall|q: int| 0 <= q < i.sec_per_clus && q != j implies #[trigger] read_clus(
            t,
            i,
            ch[a],
            q,
        ) == read_clus(s, i, ch[a], q) by {
            if sector_of(i, ch[a], q) == lba {
                sectors_apart(i, ch[a], q, ch[a], j);
            }
        }
        assert forall|p: int| 0 <= p < ch.len() && p != a implies same_clus(
            s,
            t,
            i,
            #[trigger] ch[p],
            0,
        ) by {
            assert(in_range(i, ch[p]));
        }
    }
    assert forall|c: u32| #[trigger] dirs.contains_key(c) implies same_links(s, t, i, dirs[c]) by {
        let h = dirs[c];
        assert forall|q: int| 0 <= q < h.len() implies read_fat(t, i, #[trigger] h[q]) == read_fat(
            s,
            i,
            h[q],
        ) by {
            assert(in_range(i, h[q]));
        }
    }
    assert forall|f: u32| #[trigger] files.contains_key(f) implies chain_ok(t, i, files[f]) by {
        let h = files[f];
        assert forall|q: int| 0 <= q < h.len() implies read_fat(t, i, #[trigger] h[q]) == read_fat(
            s,
            i,
            h[q],
        ) by {
            assert(in_range(i, h[q]));
        }
        links_ok(s, t, i, h);
    }
    tidy_stays(s, t, i, ch, a, j, slot);
    assert forall|c: u32| #[trigger] dirs.contains_key(c) implies chain_ok(t, i, dirs[c]) && chain_tidy(
        t,
        i,
        dirs[c],
    ) && parent_of(t, i, c) == parent_of(s, i, c) && (c != d ==> dir_list(t, i, c as int) == dir_list(
        s,
        i,
        c as int,
    )) by {
        let h = dirs[c];
        links_ok(s, t, i, h);
        if c != d {
            assert forall|q: int| 0 <= q < h.len() implies same_clus(s, t, i, #[trigger] h[q], 0) by {
                assert(in_range(i, h[q]));
                assert(dirs[c][q] != dirs[d][a]);
            }
            tidy_same(s, t, i, h);
            dir_kept(s, t, i, c, h);
        } else {
            reveal(parent_of);
            let cc = t.raw_read(lba)->0;
            let e = entry_at(cc, 32 * slot);
            assert(e.name[0] == cc[32 * slot]);
            assert(entered_in(s, t, i, ch[a], j, slot, e));
            chain_dotdot_kept(s, t, i, ch, 0, n, a, j, slot, e, i.cluster_count as nat);
        }
    }
    reveal(dir_list);
    at_most_all(i, ch);
    chain_split(s, t, i, ch, 0, a, j, slot, n, i.cluster_count as nat)
}

/// A spot that a search found is reached by the list.
pub proof fn spot_reached(
    s: FsView,
    i: FatInfo,
    ch: Seq<int>,
    n: Seq<u8>,
    a: int,
    j: int,
    slot: int,
)
    requires
        spot(s, i, ch, 0, n, a, j, slot),
    ensures
        reached(s, i, ch, a, j, slot),
{
    assert forall|p: int, q: int| 0 <= p < a && 0 <= q < i.sec_per_clus implies #[trigger] full_at(
        s,
        i,
        ch[p],
        q,
    ) by {
        assert(clus_clean(s, i, ch[p], n, 0, i.sec_per_clus as int));
        clean_full(s, i, ch[p], n, q);
    }
    assert forall|q: int| 0 <= q < j implies #[trigger] full_at(s, i, ch[a], q) by {
        clean_full(s, i, ch[a], n, q);
    }
    let b = read_clus(s, i, ch[a], j)->0;
    assert forall|r: int| 0 <= r < slot implies !#[trigger] ends_at(b, r) by {
        assert(passed(b, n, r));
    }
}

proof fn clean_full(s: FsView, i: FatInfo, c: int, n: Seq<u8>, q: int)
    requires
        sector_clean(s, i, c, n, q),
    ensures
        full_at(s, i, c, q),
{
    let b = read_clus(s, i, c, q)->0;
    assert forall|r: int| 0 <= r < 16 implies !#[trigger] ends_at(b, r) by {
        assert(passed(b, n, r));
    }
}

// ---------- a directory grows ----------

/// A list that goes on into a blank cluster is as it was.
proof fn grown_blank(s: FsView, t: FsView, i: FatInfo, ch: Seq<int>, nc: int, n: Seq<u8>, k: int, fuel: nat)
    requires
        volume_ok(s, i),
        chain_ok(s, i, ch),
        longer(s, t, i, ch, nc),
        0 <= k < ch.len(),
        all_clean(s, i, ch, n, 0),
        clus_list(t, i, nc, 0) == (Seq::<Entry>::empty(), true),
        fuel > ch.len() - k,
    ensures
        chain_list(t, i, ch[k], fuel) == chain_list(s, i, ch[k], fuel),
    decreases ch.len() - k,
{
    let c = ch[k];
    assert(same_clus(s, t, i, ch[k], 0));
    clus_same(s, t, i, c, 0);
    assert(chain_entry(s, i, ch, k, read_fat(s, i, c)));
    let x = clus_list(s, i, c, 0).0;
    assert(!clus_list(s, i, c, 0).1) by {
        assert forall|q: int| 0 <= q < i.sec_per_clus implies #[trigger] full_at(s, i, c, q) by {
            assert(clus_clean(s, i, ch[k], n, 0, i.sec_per_clus as int));
            clean_full(s, i, c, n, q);
        }
        full_clus_goes_on(s, i, c, 0);
    }
    if k + 1 < ch.len() {
        assert(in_range(i, ch[k + 1]));
        range_goes_on(s, i, ch[k + 1]);
        grown_blank(s, t, i, ch, nc, n, k + 1, (fuel - 1) as nat);
    } else {
        assert(ch.last() == c);
        range_goes_on(s, i, nc);
        assert(chain_list(t, i, nc, (fuel - 1) as nat) == Seq::<Entry>::empty());
        assert(x + Seq::<Entry>::empty() =~= x);
    }
}

/// A cluster whose sectors are zero, as far as they can be read.
pub open spec fn blank(t: FsView, i: FatInfo, c: int) -> bool {
    forall|q: int|
        0 <= q < i.sec_per_clus && (#[trigger] read_clus(t, i, c, q)) is Some ==> read_clus(t, i, c, q)
            == Some(zero_bytes(512))
}

proof fn zero_is_blank()
    ensures
        sector_blank(zero_bytes(512)),
        sector_tidy(zero_bytes(512)),
{
}

proof fn blank_no_dotdot(t: FsView, i: FatInfo, c: int, k: int)
    requires
        blank(t, i, c),
        0 <= k,
    ensures
        dotdot_in_clus(t, i, c, k) is None,
    decreases i.sec_per_clus - k,
{
    if k < i.sec_per_clus {
        if let Some(b) = read_clus(t, i, c, k) {
            assert(forall|r: int| 0 <= r < 16 ==> #[trigger] b[32 * r] != 46);
            no_dotdot(b, 0);
            blank_no_dotdot(t, i, c, k + 1);
        }
    }
}

/// The chain of a directory that has grown by a blank cluster.
proof fn grown_tidy(s: FsView, t: FsView, i: FatInfo, ch: Seq<int>, nc: int, n: Seq<u8>)
    requires
        chain_tidy(s, i, ch),
        same_contents(s, t, i, ch, 0),
        all_clean(s, i, ch, n, 0),
        blank(t, i, nc),
    ensures
        chain_tidy(t, i, ch.push(nc)),
{
    let h = ch.push(nc);
    tidy_same(s, t, i, ch);
    zero_is_blank();
    assert forall|r: int| 0 <= r < i.sec_per_clus implies #[trigger] void_at(t, i, nc, r) && tidy_at(
        t,
        i,
        nc,
        r,
    ) by {
        if read_clus(t, i, nc, r) is Some {
            assert(read_clus(t, i, nc, r) == Some(zero_bytes(512)));
        }
    }
    assert(clus_tidy(t, i, nc)) by {
        assert forall|q: int| 0 <= q < i.sec_per_clus implies #[trigger] tidy_at(t, i, nc, q) by {
            assert(void_at(t, i, nc, q));
        }
    }
    assert forall|p: int| 0 <= p < h.len() implies clus_tidy(t, i, #[trigger] h[p]) by {
        if p < ch.len() {
            assert(h[p] == ch[p]);
            assert(clus_tidy(t, i, ch[p]));
        }
    }
    assert forall|p: int, v: int, q: int, r: int|
        0 <= p < v < h.len() && 0 <= q < i.sec_per_clus && 0 <= r < i.sec_per_clus
            && #[trigger] ended_at(t, i, h[p], q) implies #[trigger] void_at(t, i, h[v], r) by {
        assert(h[p] == ch[p]);
        if v < ch.len() {
            assert(h[v] == ch[v]);
            assert(ended_at(t, i, ch[p], q));
        }
    }
}

/// The cluster that a directory grows by.
pub open spec fn grown_by(s: FsView, i: FatInfo) -> int {
    alloc_cluster(s, i).1->0 as int
}

/// A directory without a free slot grows by a blank cluster.
#[verifier::spinoff_prover]
#[verifier::rlimit(80)]
pub proof fn grow_step(s: FsView, i: FatInfo, dirs: Chains, files: Chains, d: u32, n: Seq<u8>)
    requires
        roomy(s, i, 1),
        chains_ok(s, i, dirs, files),
        dirs.contains_key(d),
        all_clean(s, i, dirs[d], n, 0),
        grow_dir(s, i, dirs[d].last()).1 is Ok,
    ensures
        ({
            let (t, r) = grow_dir(s, i, dirs[d].last());
            let nc = grown_by(s, i);
            let more = dirs.insert(d, dirs[d].push(nc));
            &&& r == Ok::<(int, int), FsErr>((sector_of(i, nc, 0), 0))
            &&& chains_ok(t, i, more, files)
            &&& same_but_disk(s, t)
            &&& lists_same(s, t, i, dirs)
            &&& t.raw_read(sector_of(i, nc, 0)) is Some ==> {
                &&& reached(t, i, more[d], dirs[d].len() as int, 0, 0)
                &&& t.raw_read(sector_of(i, nc, 0)) == Some(zero_bytes(512))
            }
            &&& in_range(i, nc)
            &&& read_fat(s, i, nc) == 0
            &&& forall|x: int| in_range(i, x) && x != nc ==> #[trigger] same_clus(s, t, i, x, 0)
            &&& forall|x: int|
                in_range(i, x) && x != nc && x != dirs[d].last() ==> #[trigger] read_fat(t, i, x)
                    == read_fat(s, i, x)
            &&& read_fat(t, i, nc) != 0
        }),
{
    reveal(grow_dir);
    let old = dirs[d];
    let last = old.last();
    assert(last == old[old.len() - 1]);
    assert(in_range(i, old[old.len() - 1]));
    first_free_is_taken(s, i);
    let s1 = alloc_cluster(s, i).0;
    let nc = alloc_cluster(s, i).1->0;
    let c = nc as int;
    entry_reads_back(s1, i, last, nc);
    let s2 = write_fat(s1, i, last, nc).0;
    let t = blank_clus(s2, i, c, 0);
    blanked(s2, i, c, 0);
    sectors_behind(i, c, 0);
    let more = dirs.insert(d, old.push(c));
    // no chain used the new cluster
    assert forall|x: u32, q: int| dirs.contains_key(x) && 0 <= q < dirs[x].len() implies #[trigger] dirs[x][q]
        != c by {
        chain_in_use(s, i, dirs[x], q);
    }
    assert forall|x: u32, q: int| files.contains_key(x) && 0 <= q < files[x].len() implies #[trigger] files[x][q]
        != c by {
        chain_in_use(s, i, files[x], q);
    }
    // the tables
    assert(i.fat_size <= i.num_fats * i.fat_size) by (nonlinear_arith)
        requires
            1 <= i.num_fats,
            0 <= i.fat_size,
    ;
    assert forall|l: int| l < i.data_start implies #[trigger] t.raw_read(l) == s2.raw_read(l) by {
        assert forall|q: int| 0 <= q < i.sec_per_clus implies l != #[trigger] sector_of(i, c, q) by {
            sectors_behind(i, c, q);
        }
    }
    assert(volume_ok(t, i)) by {
        assert forall|l: int| i.rsvc <= l < i.rsvc + i.num_fats * i.fat_size implies (
        #[trigger] t.raw_read(l)) is Some by {
            assert(s2.raw_read(l) is Some);
        }
    }
    assert forall|x: int| in_range(i, x) implies #[trigger] read_fat(t, i, x) == read_fat(s2, i, x) by {
        assert(t.raw_read(fat_sector(i, x)) == s2.raw_read(fat_sector(i, x)));
    }
    assert(read_fat(t, i, last) == nc);
    assert(read_fat(t, i, c) == 0x0FFF_FFF8);
    assert forall|x: int| in_range(i, x) && x != last && x != c implies #[trigger] read_fat(t, i, x)
        == read_fat(s, i, x) by {
        assert(read_fat(s2, i, x) == read_fat(s1, i, x));
        assert(read_fat(s1, i, x) == read_fat(s, i, x));
    }
    // the contents of the other clusters
    assert forall|x: int| in_range(i, x) && x != c implies #[trigger] same_clus(s, t, i, x, 0) by {
        assert forall|q: int| 0 <= q < i.sec_per_clus implies #[trigger] read_clus(t, i, x, q)
            == read_clus(s, i, x, q) by {
            let l = sector_of(i, x, q);
            sectors_behind(i, x, q);
            assert forall|r: int| 0 <= r < i.sec_per_clus implies l != #[trigger] sector_of(i, c, r) by {
                if l == sector_of(i, c, r) {
                    sectors_apart(i, x, q, c, r);
                }
            }
            assert(t.raw_read(l) == s2.raw_read(l));
            assert(s2.raw_read(l) == s1.raw_read(l));
        }
    }
    assert(blank(t, i, c));
    grown_dir(s, t, i, dirs, d, n, c);
    assert forall|f: u32| #[trigger] files.contains_key(f) implies chain_ok(t, i, files[f]) && apart(
        more,
        files[f],
    ) by {
        let h = files[f];
        assert forall|q: int| 0 <= q < h.len() implies read_fat(t, i, #[trigger] h[q]) == read_fat(
            s,
            i,
            h[q],
        ) by {
            assert(in_range(i, h[q]));
            assert(dirs[d][old.len() - 1] != h[q]);
            assert(files[f][q] != c);
        }
        links_ok(s, t, i, h);
        assert forall|x: u32, a: int, b: int|
            more.contains_key(x) && 0 <= a < more[x].len() && 0 <= b < h.len() implies #[trigger] more[x][a]
            != #[trigger] h[b] by {
            if x == d && a == old.len() {
                assert(files[f][b] != c);
            } else {
                assert(more[x][a] == dirs[x][a]);
            }
        }
    }
    assert(chains_apart(more)) by {
        assert forall|x: u32, y: u32, a: int, b: int|
            more.contains_key(x) && more.contains_key(y) && x != y && 0 <= a < more[x].len() && 0 <= b
                < more[y].len() implies #[trigger] more[x][a] != #[trigger] more[y][b] by {
            if x == d && a == old.len() {
                assert(dirs[y][b] != c);
            } else if y == d && b == old.len() {
                assert(dirs[x][a] != c);
            } else {
                assert(dirs[x][a] != dirs[y][b]);
            }
        }
    }
}

/// The directories once `d` has grown by the blank cluster `c`.
#[verifier::spinoff_prover]
proof fn grown_dir(s: FsView, t: FsView, i: FatInfo, dirs: Chains, d: u32, n: Seq<u8>, c: int)
    requires
        volume_ok(s, i),
        volume_ok(t, i),
        forall|x: u32| #[trigger]
            dirs.contains_key(x) ==> chain_ok(s, i, dirs[x]) && dirs[x][0] == x && chain_tidy(
                s,
                i,
                dirs[x],
            ) && dirs.contains_key(parent_of(s, i, x)),
        chains_apart(dirs),
        dirs.contains_key(d),
        all_clean(s, i, dirs[d], n, 0),
        in_range(i, c),
        read_fat(t, i, dirs[d].last()) == c,
        read_fat(t, i, c) == 0x0FFF_FFF8,
        blank(t, i, c),
        forall|x: u32, q: int|
            dirs.contains_key(x) && 0 <= q < dirs[x].len() ==> #[trigger] dirs[x][q] != c,
        forall|x: int|
            in_range(i, x) && x != dirs[d].last() && x != c ==> #[trigger] read_fat(t, i, x)
                == read_fat(s, i, x),
        forall|x: int| in_range(i, x) && x != c ==> #[trigger] same_clus(s, t, i, x, 0),
    ensures
        ({
            let more = dirs.insert(d, dirs[d].push(c));
            &&& forall|x: u32| #[trigger]
                more.contains_key(x) ==> chain_ok(t, i, more[x]) && more[x][0] == x && chain_tidy(
                    t,
                    i,
                    more[x],
                ) && more.contains_key(parent_of(t, i, x))
            &&& lists_same(s, t, i, dirs)
            &&& read_clus(t, i, c, 0) is Some ==> reached(
                t,
                i,
                more[d],
                dirs[d].len() as int,
                0,
                0,
            )
        }),
{
    let old = dirs[d];
    let last = old.last();
    assert(last == old[old.len() - 1]);
    let ch = old.push(c);
    let more = dirs.insert(d, ch);
    assert(longer(s, t, i, old, c)) by {
        assert forall|q: int| 0 <= q < old.len() implies same_clus(s, t, i, #[trigger] old[q], 0) by {
            assert(in_range(i, old[q]));
            assert(dirs[d][q] != c);
        }
        assert forall|q: int| 0 <= q < old.len() - 1 implies read_fat(t, i, #[trigger] old[q])
            == read_fat(s, i, old[q]) by {
            assert(in_range(i, old[q]));
            assert(old[q] != old[old.len() - 1]);
            assert(dirs[d][q] != c);
        }
        if old.contains(c) {
            let q = choose|q: int| 0 <= q < old.len() && old[q] == c;
            assert(dirs[d][q] != c);
        }
    }
    assert(chain_ok(t, i, ch)) by {
        assert forall|k: int| 0 <= k < ch.len() implies in_range(i, #[trigger] ch[k]) && chain_entry(
            t,
            i,
            ch,
            k,
            read_fat(t, i, ch[k]),
        ) by {
            if k < old.len() {
                assert(ch[k] == old[k]);
                assert(in_range(i, old[k]));
                assert(chain_entry(s, i, old, k, read_fat(s, i, old[k])));
                if k + 1 < old.len() {
                    assert(ch[k + 1] == old[k + 1]);
                }
            }
        }
        assert forall|a: int, b: int| 0 <= a < b < ch.len() implies #[trigger] ch[a] != #[trigger] ch[b] by {
            assert(ch[a] == old[a]);
            if b < old.len() {
                assert(ch[b] == old[b]);
            } else {
                assert(dirs[d][a] != c);
            }
        }
    }
    grown_tidy(s, t, i, old, c, n);
    zero_is_blank();
    assert forall|q: int| 0 <= q < i.sec_per_clus implies #[trigger] void_at(t, i, c, q) by {
        if read_clus(t, i, c, q) is Some {
            assert(read_clus(t, i, c, q) == Some(zero_bytes(512)));
        }
    }
    void_adds_nothing(t, i, c, 0);
    blank_no_dotdot(t, i, c, 0);
    assert forall|x: u32| #[trigger] dirs.contains_key(x) implies dir_list(t, i, x as int) == dir_list(
        s,
        i,
        x as int,
    ) && parent_of(t, i, x) == parent_of(s, i, x) && (x != d ==> chain_ok(t, i, dirs[x]) && chain_tidy(
        t,
        i,
        dirs[x],
    )) by {
        let h = dirs[x];
        if x != d {
            assert forall|q: int| 0 <= q < h.len() implies read_fat(t, i, #[trigger] h[q])
                == read_fat(s, i, h[q]) && same_clus(s, t, i, h[q], 0) by {
                assert(in_range(i, h[q]));
                assert(dirs[x][q] != c);
                assert(dirs[x][q] != dirs[d][old.len() - 1]);
            }
            assert(same_links(s, t, i, h));
            assert(same_contents(s, t, i, h, 0));
            links_ok(s, t, i, h);
            tidy_same(s, t, i, h);
            dir_kept(s, t, i, x, h);
        } else {
            reveal(dir_list);
            reveal(parent_of);
            at_most_all(i, ch);
            grown_blank(s, t, i, old, c, n, 0, i.cluster_count as nat);
            grown_dotdot(s, t, i, old, c, 0, i.cluster_count as nat);
        }
    }
    if read_clus(t, i, c, 0) is Some {
        assert forall|p: int, q: int|
            0 <= p < old.len() && 0 <= q < i.sec_per_clus implies #[trigger] full_at(t, i, ch[p], q) by {
            assert(ch[p] == old[p]);
            assert(clus_clean(s, i, old[p], n, 0, i.sec_per_clus as int));
            clean_full(s, i, old[p], n, q);
            assert(in_range(i, old[p]));
            assert(dirs[d][p] != c);
            assert(same_clus(s, t, i, old[p], 0));
            assert(read_clus(t, i, old[p], q) == read_clus(s, i, old[p], q));
        }
        assert(ch[old.len() as int] == c);
        assert(i.sec_per_clus >= 1);
        assert(reached(t, i, ch, old.len() as int, 0, 0));
    }
    assert forall|x: u32| #[trigger] more.contains_key(x) implies chain_ok(t, i, more[x]) && more[x][0]
        == x && chain_tidy(t, i, more[x]) && more.contains_key(parent_of(t, i, x)) by {
        assert(dirs.contains_key(x));
        if x == d {
            assert(ch[0] == old[0]);
        }
    }
}

} // verus!
