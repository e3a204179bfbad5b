//! What removing a file from a FAT volume promises: its entry is gone, its
//! clusters are free, and the rest is as it was.

use vstd::prelude::*;
use crate::fat::data::{sectors_apart, sectors_behind};
use crate::fat::laws::{
    apart, data_keeps_tables, dir_kept, links_ok, one_sector, target_kept, tree_ok, ways_kept,
};
use crate::fat::model::{
    chain_list, clus_list, dir_list, entry_at, find_file, find_pos, first_match, free_chain,
    goes_on, look_up_dir, parent_of, pos_in_chain, pos_in_clus, pos_in_sector, read_clus, read_fat,
    remove, rm, sector_list, sector_of, target, unused, wipe_entry, Entry, Scan,
};
use crate::fat::slots::{
    clean, clean_list, entered, file_name, list_behind, listed, name_at, passed, same_slot,
};
use crate::fat::table::{
    at_most_all, chain_entry, chain_is_freed, chain_ok, in_range, only_tables, range_goes_on,
    volume_ok,
};
use crate::fat::tree::{
    chain_dotdot_kept, chain_same, clean_clus, clus_clean, clus_same, entered_in, pos_spot,
    same_clus, same_contents, same_links, sector_clean, spot,
};
use crate::fs::{same_but_disk, FatInfo, FsErr, FsView};

verus! {

// ---------- lists ----------

/// The `p`-th entry, the first with the name, was cut out.
pub open spec fn cut(before: Seq<Entry>, after: Seq<Entry>, p: int, n: Seq<u8>) -> bool {
    &&& 0 <= p < before.len()
    &&& before[p].name == n
    &&& forall|q: int| 0 <= q < p ==> (#[trigger] before[q]).name != n
    &&& after == before.remove(p)
}

/// Entries without the name stand before.
proof fn cut_later(x: Seq<Entry>, before: Seq<Entry>, after: Seq<Entry>, p: int, n: Seq<u8>)
    requires
        forall|q: int| 0 <= q < x.len() ==> (#[trigger] x[q]).name != n,
        cut(before, after, p, n),
    ensures
        cut(x + before, x + after, x.len() + p, n),
{
    assert(x + after =~= (x + before).remove(x.len() + p));
}

/// Entries stand behind.
proof fn cut_before(before: Seq<Entry>, after: Seq<Entry>, y: Seq<Entry>, p: int, n: Seq<u8>)
    requires
        cut(before, after, p, n),
    ensures
        cut(before + y, after + y, p, n),
{
    assert(after + y =~= (before + y).remove(p));
}

/// A name that is not found does not stand there.
pub(crate) proof fn none_named(es: Seq<Entry>, n: Seq<u8>)
    requires
        first_match(es, Some(n)) is None,
    ensures
        forall|q: int| 0 <= q < es.len() ==> (#[trigger] es[q]).name != n,
    decreases es.len(),
{
    if es.len() > 0 {
        none_named(es.skip(1), n);
        assert forall|q: int| 0 <= q < es.len() implies (#[trigger] es[q]).name != n by {
            if q > 0 {
                assert(es.skip(1)[q - 1] == es[q]);
            }
        }
    }
}

pub(crate) proof fn none_found(es: Seq<Entry>, n: Seq<u8>)
    requires
        forall|q: int| 0 <= q < es.len() ==> (#[trigger] es[q]).name != n,
    ensures
        first_match(es, Some(n)) is None,
    decreases es.len(),
{
    if es.len() > 0 {
        assert(es[0].name != n);
        assert forall|q: int| 0 <= q < es.skip(1).len() implies (#[trigger] es.skip(1)[q]).name != n by {
            assert(es.skip(1)[q] == es[q + 1]);
        }
        none_found(es.skip(1), n);
    }
}

/// Other names are found as they were.
pub(crate) proof fn others_found(es: Seq<Entry>, p: int, m: Seq<u8>)
    requires
        0 <= p < es.len(),
        es[p].name != m,
    ensures
        first_match(es.remove(p), Some(m)) == first_match(es, Some(m)),
    decreases es.len(),
{
    let fs = es.remove(p);
    if p == 0 {
        assert(fs =~= es.skip(1));
    } else {
        assert(fs[0] == es[0]);
        assert(fs.skip(1) =~= es.skip(1).remove(p - 1));
        others_found(es.skip(1), p - 1, m);
    }
}

// ---------- where the entry stands ----------

/// The slot holds a used entry with the name.
pub open spec fn holds_name(b: Seq<u8>, slot: int, n: Seq<u8>) -> bool {
    &&& b[32 * slot] != 0
    &&& !unused(b, 32 * slot)
    &&& name_at(b, slot) == n
}

proof fn sector_pos(b: Seq<u8>, k: int, n: Seq<u8>)
    ensures
        pos_in_sector(b, k, n) matches Scan::At(slot) ==> holds_name(b, slot, n),
    decreases 16 - k,
{
    if k < 16 {
        sector_pos(b, k + 1, n);
    }
}

proof fn clus_pos(s: FsView, i: FatInfo, c: int, k: int, n: Seq<u8>)
    requires
        c >= 2,
    ensures
        pos_in_clus(s, i, c, k, n) matches Ok(Some((lba, slot))) ==> s.raw_read(lba) is Some
            && holds_name(s.raw_read(lba)->0, slot, n),
    decreases i.sec_per_clus - k,
{
    if k < i.sec_per_clus {
        if let Some(b) = read_clus(s, i, c, k) {
            sector_pos(b, 0, n);
            clus_pos(s, i, c, k + 1, n);
        }
    }
}

pub(crate) proof fn chain_pos(s: FsView, i: FatInfo, c: int, n: Seq<u8>, fuel: nat)
    requires
        c >= 2,
    ensures
        pos_in_chain(s, i, c, n, fuel) matches Ok((lba, slot)) ==> s.raw_read(lba) is Some
            && holds_name(s.raw_read(lba)->0, slot, n),
    decreases fuel,
{
    if fuel > 0 {
        clus_pos(s, i, c, 0, n);
        let next = read_fat(s, i, c);
        if next >= 2 {
            chain_pos(s, i, next as int, n, (fuel - 1) as nat);
        }
    }
}

// ---------- the entry is wiped ----------

proof fn sector_cut(b: Seq<u8>, c: Seq<u8>, k: int, slot: int, n: Seq<u8>) -> (p: int)
    requires
        b.len() == 512,
        0 <= k <= slot < 16,
        clean(b, n, k, slot),
        holds_name(b, slot, n),
        file_name(n),
        c == b.update(32 * slot, 0xE5),
    ensures
        cut(sector_list(b, k).0, sector_list(c, k).0, p, n),
        sector_list(c, k).1 == sector_list(b, k).1,
    decreases slot - k,
{
    let e = entry_at(c, 32 * slot);
    assert(entered(b, c, slot, e));
    if k < slot {
        same_slot(b, c, slot, e, k);
        let p = sector_cut(b, c, k + 1, slot, n);
        assert(passed(b, n, k));
        if listed(b, k) {
            let x = seq![entry_at(b, 32 * k)];
            cut_later(x, sector_list(b, k + 1).0, sector_list(c, k + 1).0, p, n);
            p + 1
        } else {
            p
        }
    } else {
        let o = 32 * k;
        list_behind(b, c, slot, e, k + 1);
        assert(name_at(b, k)[0] == b[o]);
        assert(listed(b, k));
        let rest = sector_list(b, k + 1);
        let x = entry_at(b, o);
        assert(sector_list(b, k) == (seq![x] + rest.0, rest.1));
        assert(unused(c, o));
        assert(sector_list(c, k) == rest);
        assert(rest.0 =~= (seq![x] + rest.0).remove(0));
        assert((seq![x] + rest.0)[0] == x);
        0
    }
}

proof fn clus_cut(
    s: FsView,
    t: FsView,
    i: FatInfo,
    clu: int,
    k: int,
    j: int,
    slot: int,
    n: Seq<u8>,
) -> (p: int)
    requires
        0 <= k <= j < i.sec_per_clus,
        0 <= slot < 16,
        clus_clean(s, i, clu, n, k, j),
        read_clus(s, i, clu, j) is Some,
        read_clus(s, i, clu, j)->0.len() == 512,
        clean(read_clus(s, i, clu, j)->0, n, 0, slot),
        holds_name(read_clus(s, i, clu, j)->0, slot, n),
        read_clus(t, i, clu, j) == Some(read_clus(s, i, clu, j)->0.update(32 * slot, 0xE5)),
        forall|q: int|
            0 <= q < i.sec_per_clus && q != j ==> #[trigger] read_clus(t, i, clu, q) == read_clus(
                s,
                i,
                clu,
                q,
            ),
        file_name(n),
    ensures
        cut(clus_list(s, i, clu, k).0, clus_list(t, i, clu, k).0, p, n),
        clus_list(t, i, clu, k).1 == clus_list(s, i, clu, k).1,
    decreases j - k,
{
    if k < j {
        assert(sector_clean(s, i, clu, n, k));
        assert(read_clus(t, i, clu, k) == read_clus(s, i, clu, k));
        let b = read_clus(s, i, clu, k)->0;
        clean_list(b, n, 0);
        none_named(sector_list(b, 0).0, n);
        let p = clus_cut(s, t, i, clu, k + 1, j, slot, n);
        cut_later(
            sector_list(b, 0).0,
            clus_list(s, i, clu, k + 1).0,
            clus_list(t, i, clu, k + 1).0,
            p,
            n,
        );
        sector_list(b, 0).0.len() + p
    } else {
        let b = read_clus(s, i, clu, j)->0;
        let c = read_clus(t, i, clu, j)->0;
        let p = sector_cut(b, c, 0, slot, n);
        clus_same(s, t, i, clu, k + 1);
        let rest = clus_list(s, i, clu, k + 1).0;
        if !sector_list(b, 0).1 {
            cut_before(sector_list(b, 0).0, sector_list(c, 0).0, rest, p, n);
        }
        p
    }
}

/// The entry at the spot is wiped, and nothing else in the chain changes.
spec fn wiped_at(
    s: FsView,
    t: FsView,
    i: FatInfo,
    ch: Seq<int>,
    n: Seq<u8>,
    a: int,
    j: int,
    slot: int,
) -> bool {
    &&& 0 <= a < ch.len()
    &&& 0 <= j < i.sec_per_clus
    &&& 0 <= slot < 16
    &&& read_clus(s, i, ch[a], j) is Some
    &&& read_clus(s, i, ch[a], j)->0.len() == 512
    &&& holds_name(read_clus(s, i, ch[a], j)->0, slot, n)
    &&& read_clus(t, i, ch[a], j) == Some(read_clus(s, i, ch[a], j)->0.update(32 * slot, 0xE5))
    &&& forall|q: int|
        0 <= q < i.sec_per_clus && q != j ==> #[trigger] read_clus(t, i, ch[a], q) == read_clus(
            s,
            i,
            ch[a],
            q,
        )
    &&& forall|q: int| 0 <= q < ch.len() && q != a ==> same_clus(s, t, i, #[trigger] ch[q], 0)
}

proof fn chain_cut(
    s: FsView,
    t: FsView,
    i: FatInfo,
    ch: Seq<int>,
    k: int,
    n: Seq<u8>,
    a: int,
    j: int,
    slot: int,
    fuel: nat,
) -> (p: int)
    requires
        volume_ok(s, i),
        chain_ok(s, i, ch),
        same_links(s, t, i, ch),
        0 <= k,
        spot(s, i, ch, k, n, a, j, slot),
        wiped_at(s, t, i, ch, n, a, j, slot),
        file_name(n),
        fuel > a - k,
    ensures
        cut(chain_list(s, i, ch[k], fuel), chain_list(t, i, ch[k], fuel), p, n),
    decreases a - k,
{
    let c = ch[k];
    let next = read_fat(s, i, c);
    assert(read_fat(t, i, c) == next);
    assert(chain_entry(s, i, ch, k, next));
    if k + 1 < ch.len() {
        assert(in_range(i, ch[k + 1]));
        range_goes_on(s, i, ch[k + 1]);
    }
    if k < a {
        assert(clus_clean(s, i, ch[k], n, 0, i.sec_per_clus as int));
        clean_clus(s, i, c, n, 0);
        assert(same_clus(s, t, i, ch[k], 0));
        clus_same(s, t, i, c, 0);
        let p = chain_cut(s, t, i, ch, k + 1, n, a, j, slot, (fuel - 1) as nat);
        let x = clus_list(s, i, c, 0).0;
        none_named(x, n);
        cut_later(
            x,
            chain_list(s, i, ch[k + 1], (fuel - 1) as nat),
            chain_list(t, i, ch[k + 1], (fuel - 1) as nat),
            p,
            n,
        );
        x.len() + p
    } else {
        let p = clus_cut(s, t, i, c, 0, j, slot, n);
        if k + 1 < ch.len() {
            assert(same_contents(s, t, i, ch, k + 1));
            chain_same(s, t, i, ch, k + 1, (fuel - 1) as nat);
            let rest = chain_list(s, i, ch[k + 1], (fuel - 1) as nat);
            if !clus_list(s, i, c, 0).1 {
                cut_before(clus_list(s, i, c, 0).0, clus_list(t, i, c, 0).0, rest, p, n);
            }
        } else {
            assert(!goes_on(next));
        }
        p
    }
}

// ---------- the whole ----------

/// The first entry that the path names.
pub open spec fn removed_entry(s: FsView, i: FatInfo, path: Seq<char>) -> Entry {
    find_file(s, i, path)->Ok_0
}

/// `chain` is the chain of the file that is removed, if it has clusters.
pub open spec fn is_chain_of(
    s: FsView,
    i: FatInfo,
    dirs: Map<u32, Seq<int>>,
    e: Entry,
    chain: Seq<int>,
) -> bool {
    if e.cluster >= 2 {
        chain_ok(s, i, chain) && chain[0] == e.cluster && apart(dirs, chain)
    } else {
        chain.len() == 0
    }
}

/// The clusters are freed; the directories and the data stay.
pub(crate) proof fn freed(s: FsView, i: FatInfo, dirs: Map<u32, Seq<int>>, e: Entry, chain: Seq<int>)
    requires
        tree_ok(s, i, dirs),
        is_chain_of(s, i, dirs, e, chain),
    ensures
        ({
            let t = free_chain(s, i, e.cluster);
            &&& only_tables(s, t, i)
            &&& forall|x: int|
                in_range(i, x) && !chain.contains(x) ==> #[trigger] read_fat(t, i, x) == read_fat(
                    s,
                    i,
                    x,
                )
            &&& chain.len() <= 2_000_000 ==> forall|q: int|
                0 <= q < chain.len() ==> read_fat(t, i, #[trigger] chain[q]) == 0
            &&& forall|c: u32| #[trigger] dirs.contains_key(c) ==> same_links(s, t, i, dirs[c])
        }),
{
    let t = free_chain(s, i, e.cluster);
    if e.cluster >= 2 {
        chain_is_freed(s, i, chain);
    } else {
        reveal(free_chain);
        assert(t == s);
    }
    assert forall|c: u32| #[trigger] dirs.contains_key(c) implies same_links(s, t, i, dirs[c]) by {
        let h = dirs[c];
        assert forall|q: int| 0 <= q < h.len() implies read_fat(t, i, #[trigger] h[q]) == read_fat(
            s,
            i,
            h[q],
        ) by {
            assert(in_range(i, h[q]));
            if chain.contains(h[q]) {
                let b = choose|b: int| 0 <= b < chain.len() && chain[b] == h[q];
                assert(dirs[c][q] != chain[b]);
            }
        }
    }
}

/// The entry is wiped.
pub(crate) proof fn wiped(s: FsView, lba: int, slot: int)
    requires
        s.disk.wf(),
        0 <= slot < 16,
        wipe_entry(s, lba, slot).1 is Ok,
    ensures
        ({
            let t = wipe_entry(s, lba, slot).0;
            &&& one_sector(s, t, lba)
            &&& s.raw_read(lba) is Some
            &&& s.raw_read(lba)->0.len() == 512
            &&& t.raw_read(lba) == Some(s.raw_read(lba)->0.update(32 * slot, 0xE5))
        }),
{
    reveal(wipe_entry);
    let t = wipe_entry(s, lba, slot).0;
    assert(t.disk.sec.dom() =~= s.disk.sec.dom());
}

/// What is known once the entry at a spot of directory `d` is wiped and the
/// clusters in `chain` are free.
spec fn gone(
    s: FsView,
    t: FsView,
    i: FatInfo,
    dirs: Map<u32, Seq<int>>,
    d: u32,
    n: Seq<u8>,
    chain: Seq<int>,
    a: int,
    j: int,
    slot: int,
) -> bool {
    &&& tree_ok(s, i, dirs)
    &&& dirs.contains_key(d)
    &&& file_name(n)
    &&& same_but_disk(s, t)
    &&& volume_ok(t, i)
    &&& spot(s, i, dirs[d], 0, n, a, j, slot)
    &&& wiped_at(s, t, i, dirs[d], n, a, j, slot)
    &&& forall|c: u32| #[trigger] dirs.contains_key(c) ==> same_links(s, t, i, dirs[c])
    &&& forall|x: int| in_range(i, x) && x != dirs[d][a] ==> #[trigger] same_clus(s, t, i, x, 0)
    &&& forall|x: int|
        in_range(i, x) && !chain.contains(x) ==> #[trigger] read_fat(t, i, x) == read_fat(s, i, x)
}

/// The steps of a removal.
proof fn removal_done(
    s: FsView,
    i: FatInfo,
    dirs: Map<u32, Seq<int>>,
    d: u32,
    n: Seq<u8>,
    e: Entry,
    chain: Seq<int>,
) -> (r: (int, int))
    requires
        tree_ok(s, i, dirs),
        dirs.contains_key(d),
        file_name(n),
        is_chain_of(s, i, dirs, e, chain),
        find_pos(s, i, d as int, n) is Ok,
        ({
            let (lba, slot) = find_pos(s, i, d as int, n)->Ok_0;
            remove(s, i, e.cluster, lba, slot).1 is Ok
        }),
    ensures
        ({
            let (lba, slot) = find_pos(s, i, d as int, n)->Ok_0;
            let t = remove(s, i, e.cluster, lba, slot).0;
            &&& gone(s, t, i, dirs, d, n, chain, r.0, r.1, slot)
            &&& chain.len() <= 2_000_000 ==> forall|q: int|
                0 <= q < chain.len() ==> read_fat(t, i, #[trigger] chain[q]) == 0
        }),
{
    reveal(find_pos);
    reveal(remove);
    let ch = dirs[d];
    let (lba, slot) = find_pos(s, i, d as int, n)->Ok_0;
    let (a, j) = pos_spot(s, i, ch, 0, n, (i.cluster_count + 2) as nat);
    assert(in_range(i, ch[0]));
    chain_pos(s, i, d as int, n, (i.cluster_count + 2) as nat);
    freed(s, i, dirs, e, chain);
    let s1 = free_chain(s, i, e.cluster);
    assert(in_range(i, ch[a]));
    sectors_behind(i, ch[a], j);
    assert(lba >= i.data_start);
    wiped(s1, lba, slot);
    let t = wipe_entry(s1, lba, slot).0;
    data_keeps_tables(s1, t, i, lba);
    assert forall|x: int| in_range(i, x) && x != ch[a] implies #[trigger] same_clus(s, t, i, x, 0) by {
        assert forall|q: int| 0 <= q < i.sec_per_clus implies #[trigger] read_clus(t, i, x, q)
            == read_clus(s, i, x, q) by {
            sectors_behind(i, x, q);
            if sector_of(i, x, q) == lba {
                sectors_apart(i, x, q, ch[a], j);
            }
        }
    }
    assert(wiped_at(s, t, i, ch, n, a, j, slot)) by {
        assert forall|q: int| 0 <= q < i.sec_per_clus && q != j implies #[trigger] read_clus(
            t,
            i,
            ch[a],
            q,
        ) == read_clus(s, i, ch[a], q) by {
            sectors_behind(i, ch[a], q);
            if sector_of(i, ch[a], q) == lba {
                sectors_apart(i, ch[a], q, ch[a], j);
            }
        }
        assert forall|q: int| 0 <= q < ch.len() && q != a implies same_clus(
            s,
            t,
            i,
            #[trigger] ch[q],
            0,
        ) by {
            assert(in_range(i, ch[q]));
            if q < a {
                assert(ch[q] != ch[a]);
            } else {
                assert(ch[a] != ch[q]);
            }
        }
    }
    assert forall|c: u32| #[trigger] dirs.contains_key(c) implies same_links(s, t, i, dirs[c]) by {
        let h = dirs[c];
        assert(same_links(s, s1, i, h));
        assert forall|q: int| 0 <= q < h.len() implies read_fat(t, i, #[trigger] h[q]) == read_fat(
            s,
            i,
            h[q],
        ) by {
            assert(in_range(i, h[q]));
        }
    }
    assert forall|q: int| 0 <= q < chain.len() && chain.len() <= 2_000_000 implies read_fat(
        t,
        i,
        #[trigger] chain[q],
    ) == 0 by {
        assert(in_range(i, chain[q]));
    }
    (a, j)
}

/// What the directories hold afterwards.
proof fn listed_then(
    s: FsView,
    t: FsView,
    i: FatInfo,
    dirs: Map<u32, Seq<int>>,
    d: u32,
    n: Seq<u8>,
    chain: Seq<int>,
    a: int,
    j: int,
    slot: int,
) -> (p: int)
    requires
        gone(s, t, i, dirs, d, n, chain, a, j, slot),
    ensures
        cut(dir_list(s, i, d as int), dir_list(t, i, d as int), p, n),
        forall|c: u32| #[trigger]
            dirs.contains_key(c) ==> {
                &&& parent_of(t, i, c) == parent_of(s, i, c)
                &&& chain_ok(t, i, dirs[c])
                &&& c != d ==> dir_list(t, i, c as int) == dir_list(s, i, c as int)
            },
{
    let ch = dirs[d];
    assert forall|c: u32| #[trigger] dirs.contains_key(c) implies {
        &&& parent_of(t, i, c) == parent_of(s, i, c)
        &&& chain_ok(t, i, dirs[c])
        &&& c != d ==> dir_list(t, i, c as int) == dir_list(s, i, c as int)
    } by {
        let h = dirs[c];
        links_ok(s, t, i, h);
        if c != d {
            assert forall|q: int| 0 <= q < h.len() implies same_clus(s, t, i, #[trigger] h[q], 0) by {
                assert(in_range(i, h[q]));
                assert(dirs[c][q] != dirs[d][a]);
            }
            dir_kept(s, t, i, c, h);
        } else {
            reveal(parent_of);
            let b = read_clus(s, i, ch[a], j)->0;
            let w = b.update(32 * slot, 0xE5);
            let e = entry_at(w, 32 * slot);
            assert(e.name[0] == w[32 * slot]);
            assert(entered_in(s, t, i, ch[a], j, slot, e));
            chain_dotdot_kept(s, t, i, ch, 0, n, a, j, slot, e, i.cluster_count as nat);
        }
    }
    reveal(dir_list);
    at_most_all(i, ch);
    chain_cut(s, t, i, ch, 0, n, a, j, slot, i.cluster_count as nat)
}

/// The tree is as sound as it was.
proof fn tree_then(
    s: FsView,
    t: FsView,
    i: FatInfo,
    dirs: Map<u32, Seq<int>>,
    d: u32,
    n: Seq<u8>,
    p: int,
)
    requires
        tree_ok(s, i, dirs),
        volume_ok(t, i),
        dirs.contains_key(d),
        cut(dir_list(s, i, d as int), dir_list(t, i, d as int), p, n),
        forall|c: u32| #[trigger]
            dirs.contains_key(c) ==> {
                &&& parent_of(t, i, c) == parent_of(s, i, c)
                &&& chain_ok(t, i, dirs[c])
                &&& c != d ==> dir_list(t, i, c as int) == dir_list(s, i, c as int)
            },
    ensures
        tree_ok(t, i, dirs),
{
    assert forall|c: u32, k: int|
        dirs.contains_key(c) && 0 <= k < dir_list(t, i, c as int).len() && (#[trigger] dir_list(
            t,
            i,
            c as int,
        )[k]).is_dir() implies dirs.contains_key(dir_list(t, i, c as int)[k].cluster) by {
        let f = dir_list(t, i, c as int)[k];
        if c == d {
            let l = if k < p {
                k
            } else {
                k + 1
            };
            assert(dir_list(s, i, c as int)[l] == f);
        } else {
            assert(dir_list(s, i, c as int)[k] == f);
        }
    }
}

/// A file that was removed is gone: its entry is cut out of its directory, its
/// clusters are free (where it has no more than two million), all other
/// directories and table entries are as they were, and, where its name stood
/// once, its path leads nowhere.
pub proof fn removed_file_is_gone(
    s: FsView,
    i: FatInfo,
    dirs: Map<u32, Seq<int>>,
    path: Seq<char>,
    chain: Seq<int>,
) -> (p: int)
    requires
        s.fat == Some(i),
        tree_ok(s, i, dirs),
        rm(s, path).1 is Ok,
        is_chain_of(s, i, dirs, removed_entry(s, i, path), chain),
    ensures
        ({
            let t = rm(s, path).0;
            let (d, n) = target(s, i, path)->Ok_0;
            let before = dir_list(s, i, d as int);
            &&& find_file(s, i, path) is Ok
            &&& same_but_disk(s, t)
            &&& tree_ok(t, i, dirs)
            &&& cut(before, dir_list(t, i, d as int), p, n)
            &&& before[p] == removed_entry(s, i, path)
            &&& forall|c: u32|
                #![trigger dirs.contains_key(c)]
                dirs.contains_key(c) && c != d ==> dir_list(t, i, c as int) == dir_list(
                    s,
                    i,
                    c as int,
                )
            &&& forall|x: int|
                in_range(i, x) && !chain.contains(x) ==> #[trigger] read_fat(t, i, x) == read_fat(
                    s,
                    i,
                    x,
                )
            &&& chain.len() <= 2_000_000 ==> forall|q: int|
                0 <= q < chain.len() ==> read_fat(t, i, #[trigger] chain[q]) == 0
            &&& (forall|q: int|
                0 <= q < before.len() && q != p ==> (#[trigger] before[q]).name != n) ==> find_file(
                t,
                i,
                path,
            ) == Err::<Entry, FsErr>(FsErr::NotFound)
        }),
{
    reveal(rm);
    let t = rm(s, path).0;
    let (d, n) = target(s, i, path)->Ok_0;
    assert(ways_kept(s, s, i, dirs));
    target_kept(s, s, i, dirs, path);
    let e = removed_entry(s, i, path);
    let (lba, slot) = find_pos(s, i, d as int, n)->Ok_0;
    let (a, j) = removal_done(s, i, dirs, d, n, e, chain);
    let p = listed_then(s, t, i, dirs, d, n, chain, a, j, slot);
    tree_then(s, t, i, dirs, d, n, p);
    let before = dir_list(s, i, d as int);
    first_is(before, p, n);
    removed_path(s, t, i, dirs, path, p);
    p
}

/// The first entry with the name is what is found.
pub(crate) proof fn first_is(es: Seq<Entry>, p: int, n: Seq<u8>)
    requires
        0 <= p < es.len(),
        es[p].name == n,
        forall|q: int| 0 <= q < p ==> (#[trigger] es[q]).name != n,
    ensures
        first_match(es, Some(n)) == Some(es[p]),
    decreases es.len(),
{
    if p > 0 {
        assert(es[0].name != n);
        assert forall|q: int| 0 <= q < p - 1 implies (#[trigger] es.skip(1)[q]).name != n by {
            assert(es.skip(1)[q] == es[q + 1]);
        }
        first_is(es.skip(1), p - 1, n);
    }
}

/// The path leads to its directory, and to nothing in it.
proof fn removed_path(
    s: FsView,
    t: FsView,
    i: FatInfo,
    dirs: Map<u32, Seq<int>>,
    path: Seq<char>,
    p: int,
)
    requires
        tree_ok(s, i, dirs),
        t.cwd == s.cwd,
        find_file(s, i, path) is Ok,
        dirs.contains_key((target(s, i, path)->Ok_0).0),
        ({
            let (d, n) = target(s, i, path)->Ok_0;
            &&& cut(dir_list(s, i, d as int), dir_list(t, i, d as int), p, n)
            &&& first_match(dir_list(s, i, d as int), Some(n)) == Some(dir_list(s, i, d as int)[p])
            &&& forall|c: u32| #[trigger]
                dirs.contains_key(c) ==> {
                    &&& parent_of(t, i, c) == parent_of(s, i, c)
                    &&& c != d ==> dir_list(t, i, c as int) == dir_list(s, i, c as int)
                }
        }),
    ensures
        ({
            let (d, n) = target(s, i, path)->Ok_0;
            let before = dir_list(s, i, d as int);
            (forall|q: int| 0 <= q < before.len() && q != p ==> (#[trigger] before[q]).name != n)
                ==> find_file(t, i, path) == Err::<Entry, FsErr>(FsErr::NotFound)
        }),
{
    let (d, n) = target(s, i, path)->Ok_0;
    let before = dir_list(s, i, d as int);
    let after = dir_list(t, i, d as int);
    assert(ways_kept(s, t, i, dirs)) by {
        assert forall|c: u32, m: Seq<u8>|
            dirs.contains_key(c) && look_up_dir(s, i, c as int, m) is Ok implies #[trigger] look_up_dir(
            t,
            i,
            c as int,
            m,
        ) == look_up_dir(s, i, c as int, m) by {
            if c == d {
                assert(m != n);
                others_found(before, p, m);
            }
        }
    }
    target_kept(s, t, i, dirs, path);
    if forall|q: int| 0 <= q < before.len() && q != p ==> (#[trigger] before[q]).name != n {
        assert forall|q: int| 0 <= q < after.len() implies (#[trigger] after[q]).name != n by {
            let l = if q < p {
                q
            } else {
                q + 1
            };
            assert(after[q] == before[l]);
        }
        none_found(after, n);
    }
}

} // verus!
