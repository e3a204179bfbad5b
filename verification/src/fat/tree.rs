//! Directories as chains of clusters.

use vstd::prelude::*;
use crate::fat::model::{
    chain_list, clus_list, dotdot_in_chain, dotdot_in_clus, first_match, free_in_chain,
    free_in_clus, free_in_sector, goes_on, grow_dir, pos_in_chain, pos_in_clus, pos_in_sector,
    read_clus, read_fat, sector_list, sector_of, Entry, Scan,
};
use crate::fat::slots::{
    before_more, before_rest, behind_clean, clean, clean_list, dotdot_kept, entered, file_name,
    free_clean, match_in_both, pos_clean, replaced, replaced_in, sector_replaced, takes,
};
use crate::fat::table::{
    chain_entry, chain_ok, in_range, range_goes_on, volume_ok,
};
use crate::fs::{FatInfo, FsView};

verus! {

// ---------- one cluster ----------

/// The sector of the cluster is passed in a search for the name.
pub open spec fn sector_clean(s: FsView, i: FatInfo, clu: int, n: Seq<u8>, r: int) -> bool {
    read_clus(s, i, clu, r) is Some && clean(read_clus(s, i, clu, r)->0, n, 0, 16)
}

/// So are the sectors `k .. upto`.
pub open spec fn clus_clean(s: FsView, i: FatInfo, clu: int, n: Seq<u8>, k: int, upto: int) -> bool {
    forall|r: int| k <= r < upto ==> #[trigger] sector_clean(s, i, clu, n, r)
}

/// The cluster holds the same in both volumes, from its `k`-th sector on.
pub open spec fn same_clus(s: FsView, t: FsView, i: FatInfo, clu: int, k: int) -> bool {
    forall|q: int|
        k <= q < i.sec_per_clus ==> #[trigger] read_clus(t, i, clu, q) == read_clus(s, i, clu, q)
}

/// The volumes differ in one sector of the cluster, in which `e` was entered.
pub open spec fn entered_in(
    s: FsView,
    t: FsView,
    i: FatInfo,
    clu: int,
    j: int,
    slot: int,
    e: Entry,
) -> bool {
    &&& read_clus(s, i, clu, j) is Some
    &&& read_clus(t, i, clu, j) is Some
    &&& read_clus(s, i, clu, j)->0.len() == 512
    &&& entered(read_clus(s, i, clu, j)->0, read_clus(t, i, clu, j)->0, slot, e)
    &&& forall|q: int|
        0 <= q < i.sec_per_clus && q != j ==> #[trigger] read_clus(t, i, clu, q) == read_clus(
            s,
            i,
            clu,
            q,
        )
}

pub(crate) proof fn clus_same(s: FsView, t: FsView, i: FatInfo, clu: int, k: int)
    requires
        0 <= k,
        same_clus(s, t, i, clu, k),
    ensures
        clus_list(t, i, clu, k) == clus_list(s, i, clu, k),
        dotdot_in_clus(t, i, clu, k) == dotdot_in_clus(s, i, clu, k),
    decreases i.sec_per_clus - k,
{
    if k < i.sec_per_clus {
        assert(read_clus(t, i, clu, k) == read_clus(s, i, clu, k));
        clus_same(s, t, i, clu, k + 1);
    }
}

pub(crate) proof fn clean_clus(s: FsView, i: FatInfo, clu: int, n: Seq<u8>, k: int)
    requires
        0 <= k,
        clus_clean(s, i, clu, n, k, i.sec_per_clus as int),
    ensures
        !clus_list(s, i, clu, k).1,
        first_match(clus_list(s, i, clu, k).0, Some(n)) is None,
    decreases i.sec_per_clus - k,
{
    if k < i.sec_per_clus {
        assert(sector_clean(s, i, clu, n, k));
        let b = read_clus(s, i, clu, k)->0;
        clean_list(b, n, 0);
        clean_clus(s, i, clu, n, k + 1);
        match_in_both(sector_list(b, 0).0, clus_list(s, i, clu, k + 1).0, Some(n));
    }
}

proof fn clus_replaced(
    s: FsView,
    t: FsView,
    i: FatInfo,
    clu: int,
    k: int,
    j: int,
    slot: int,
    n: Seq<u8>,
    e: Entry,
)
    requires
        0 <= k <= j < i.sec_per_clus,
        0 <= slot < 16,
        clus_clean(s, i, clu, n, k, j),
        entered_in(s, t, i, clu, j, slot, e),
        clean(read_clus(s, i, clu, j)->0, n, 0, slot),
        takes(read_clus(s, i, clu, j)->0, slot, n),
        file_name(n),
        e.name == n,
        e.attr != 0x0F,
    ensures
        replaced_in(clus_list(s, i, clu, k), clus_list(t, i, clu, k), n, e),
    decreases j - k,
{
    if k < j {
        assert(sector_clean(s, i, clu, n, k));
        assert(read_clus(t, i, clu, k) == read_clus(s, i, clu, k));
        let b = read_clus(s, i, clu, k)->0;
        clean_list(b, n, 0);
        clus_replaced(s, t, i, clu, k + 1, j, slot, n, e);
        behind_clean(
            sector_list(b, 0).0,
            clus_list(s, i, clu, k + 1),
            clus_list(t, i, clu, k + 1),
            n,
            e,
        );
    } else {
        let b = read_clus(s, i, clu, j)->0;
        let c = read_clus(t, i, clu, j)->0;
        sector_replaced(b, c, 0, slot, n, e);
        let (es, ends) = sector_list(b, 0);
        let (es1, ends1) = sector_list(c, 0);
        clus_same(s, t, i, clu, k + 1);
        let (rest, end2) = clus_list(s, i, clu, k + 1);
        if ends {
            if !ends1 {
                before_more(es, (es1, ends1), rest, end2, n, e);
            }
        } else {
            before_rest((es, ends), (es1, ends1), rest, end2, n, e);
        }
    }
}

proof fn clus_dotdot_kept(
    s: FsView,
    t: FsView,
    i: FatInfo,
    clu: int,
    k: int,
    j: int,
    slot: int,
    n: Seq<u8>,
    e: Entry,
)
    requires
        0 <= k,
        0 <= j < i.sec_per_clus,
        0 <= slot < 16,
        entered_in(s, t, i, clu, j, slot, e),
        takes(read_clus(s, i, clu, j)->0, slot, n),
        file_name(n),
        e.name.len() == 11,
        e.name[0] != 46,
    ensures
        dotdot_in_clus(t, i, clu, k) == dotdot_in_clus(s, i, clu, k),
    decreases i.sec_per_clus - k,
{
    if k < i.sec_per_clus {
        clus_dotdot_kept(s, t, i, clu, k + 1, j, slot, n, e);
        if k == j {
            dotdot_kept(read_clus(s, i, clu, j)->0, read_clus(t, i, clu, j)->0, 0, slot, n, e);
        } else {
            assert(read_clus(t, i, clu, k) == read_clus(s, i, clu, k));
        }
    }
}

// ---------- the chain of a directory ----------

/// The entries of the chain's clusters are the same in both volumes.
pub open spec fn same_links(s: FsView, t: FsView, i: FatInfo, ch: Seq<int>) -> bool {
    forall|q: int| 0 <= q < ch.len() ==> read_fat(t, i, #[trigger] ch[q]) == read_fat(s, i, ch[q])
}

/// So are their contents, from the `k`-th cluster on.
pub open spec fn same_contents(s: FsView, t: FsView, i: FatInfo, ch: Seq<int>, k: int) -> bool {
    forall|q: int| k <= q < ch.len() ==> same_clus(s, t, i, #[trigger] ch[q], 0)
}

/// A directory whose clusters did not change lists the same.
pub proof fn chain_same(s: FsView, t: FsView, i: FatInfo, ch: Seq<int>, k: int, fuel: nat)
    requires
        volume_ok(s, i),
        chain_ok(s, i, ch),
        same_links(s, t, i, ch),
        same_contents(s, t, i, ch, k),
        0 <= k < ch.len(),
    ensures
        chain_list(t, i, ch[k], fuel) == chain_list(s, i, ch[k], fuel),
        dotdot_in_chain(t, i, ch[k], fuel) == dotdot_in_chain(s, i, ch[k], fuel),
    decreases fuel,
{
    if fuel > 0 {
        assert(same_clus(s, t, i, ch[k], 0));
        clus_same(s, t, i, ch[k], 0);
        assert(read_fat(t, i, ch[k]) == read_fat(s, i, ch[k]));
        assert(chain_entry(s, i, ch, k, read_fat(s, i, ch[k])));
        if k + 1 < ch.len() {
            chain_same(s, t, i, ch, k + 1, (fuel - 1) as nat);
        }
    }
}

/// The slot where the name of a directory stands or where it goes: every slot
/// before it is passed.
pub open spec fn spot(
    s: FsView,
    i: FatInfo,
    ch: Seq<int>,
    k: int,
    n: Seq<u8>,
    a: int,
    j: int,
    slot: int,
) -> bool {
    &&& k <= a < ch.len()
    &&& 0 <= j < i.sec_per_clus
    &&& 0 <= slot < 16
    &&& forall|p: int|
        k <= p < a ==> clus_clean(s, i, #[trigger] ch[p], n, 0, i.sec_per_clus as int)
    &&& clus_clean(s, i, ch[a], n, 0, j)
    &&& read_clus(s, i, ch[a], j) is Some
    &&& clean(read_clus(s, i, ch[a], j)->0, n, 0, slot)
    &&& takes(read_clus(s, i, ch[a], j)->0, slot, n)
}

/// An entry is written to the spot of its name.
pub proof fn chain_replaced(
    s: FsView,
    t: FsView,
    i: FatInfo,
    ch: Seq<int>,
    k: int,
    n: Seq<u8>,
    a: int,
    j: int,
    slot: int,
    e: Entry,
    fuel: nat,
)
    requires
        volume_ok(s, i),
        chain_ok(s, i, ch),
        same_links(s, t, i, ch),
        0 <= k,
        spot(s, i, ch, k, n, a, j, slot),
        entered_in(s, t, i, ch[a], j, slot, e),
        forall|q: int| 0 <= q < ch.len() && q != a ==> same_clus(s, t, i, #[trigger] ch[q], 0),
        file_name(n),
        e.name == n,
        e.attr != 0x0F,
        fuel > a - k,
    ensures
        replaced(chain_list(s, i, ch[k], fuel), chain_list(t, i, ch[k], fuel), n, e),
    decreases a - k,
{
    let c = ch[k];
    let next = read_fat(s, i, c);
    assert(read_fat(t, i, c) == next);
    assert(chain_entry(s, i, ch, k, next));
    if k + 1 < ch.len() {
        assert(in_range(i, ch[k + 1]));
        range_goes_on(s, i, ch[k + 1]);
    }
    if k < a {
        assert(clus_clean(s, i, ch[k], n, 0, i.sec_per_clus as int));
        clean_clus(s, i, c, n, 0);
        assert(same_clus(s, t, i, ch[k], 0));
        clus_same(s, t, i, c, 0);
        chain_replaced(s, t, i, ch, k + 1, n, a, j, slot, e, (fuel - 1) as nat);
        let x = clus_list(s, i, c, 0).0;
        let l1 = chain_list(s, i, ch[k + 1], (fuel - 1) as nat);
        let l2 = chain_list(t, i, ch[k + 1], (fuel - 1) as nat);
        behind_clean(x, (l1, true), (l2, true), n, e);
    } else {
        clus_replaced(s, t, i, c, 0, j, slot, n, e);
        let (es, ends) = clus_list(s, i, c, 0);
        let (es1, ends1) = clus_list(t, i, c, 0);
        if k + 1 < ch.len() {
            chain_same(s, t, i, ch, k + 1, (fuel - 1) as nat);
            let rest = chain_list(s, i, ch[k + 1], (fuel - 1) as nat);
            if ends {
                if !ends1 {
                    before_more(es, (es1, ends1), rest, true, n, e);
                }
            } else {
                before_rest((es, ends), (es1, ends1), rest, true, n, e);
            }
        } else {
            assert(!goes_on(next));
        }
    }
}

/// The entry of a file does not touch the search for `..`.
pub proof fn chain_dotdot_kept(
    s: FsView,
    t: FsView,
    i: FatInfo,
    ch: Seq<int>,
    k: int,
    n: Seq<u8>,
    a: int,
    j: int,
    slot: int,
    e: Entry,
    fuel: nat,
)
    requires
        volume_ok(s, i),
        chain_ok(s, i, ch),
        same_links(s, t, i, ch),
        0 <= k < ch.len(),
        0 <= a < ch.len(),
        0 <= j < i.sec_per_clus,
        0 <= slot < 16,
        takes(read_clus(s, i, ch[a], j)->0, slot, n),
        entered_in(s, t, i, ch[a], j, slot, e),
        forall|q: int| 0 <= q < ch.len() && q != a ==> same_clus(s, t, i, #[trigger] ch[q], 0),
        file_name(n),
        e.name.len() == 11,
        e.name[0] != 46,
    ensures
        dotdot_in_chain(t, i, ch[k], fuel) == dotdot_in_chain(s, i, ch[k], fuel),
    decreases fuel,
{
    if fuel > 0 {
        let next = read_fat(s, i, ch[k]);
        assert(read_fat(t, i, ch[k]) == next);
        assert(chain_entry(s, i, ch, k, next));
        if k == a {
            clus_dotdot_kept(s, t, i, ch[k], 0, j, slot, n, e);
        } else {
            assert(same_clus(s, t, i, ch[k], 0));
            clus_same(s, t, i, ch[k], 0);
        }
        if k + 1 < ch.len() {
            chain_dotdot_kept(s, t, i, ch, k + 1, n, a, j, slot, e, (fuel - 1) as nat);
        }
    }
}

// ---------- finding the spot ----------

proof fn pos_clus_spot(s: FsView, i: FatInfo, clu: int, k: int, n: Seq<u8>)
    requires
        0 <= k <= i.sec_per_clus,
    ensures
        match pos_in_clus(s, i, clu, k, n) {
            Ok(Some((lba, slot))) => exists|j: int|
                #![trigger sector_of(i, clu, j)]
                k <= j < i.sec_per_clus && lba == sector_of(i, clu, j) && 0 <= slot < 16
                    && clus_clean(s, i, clu, n, k, j) && read_clus(s, i, clu, j) is Some && clean(
                    read_clus(s, i, clu, j)->0,
                    n,
                    0,
                    slot,
                ) && takes(read_clus(s, i, clu, j)->0, slot, n),
            Ok(None) => clus_clean(s, i, clu, n, k, i.sec_per_clus as int),
            Err(_) => true,
        },
    decreases i.sec_per_clus - k,
{
    if k < i.sec_per_clus {
        match read_clus(s, i, clu, k) {
            None => {},
            Some(b) => {
                pos_clean(b, 0, n);
                match pos_in_sector(b, 0, n) {
                    Scan::At(slot) => {
                        assert(sector_of(i, clu, k) == sector_of(i, clu, k));
                        assert(clus_clean(s, i, clu, n, k, k));
                    },
                    Scan::End => {},
                    Scan::On => {
                        assert(sector_clean(s, i, clu, n, k));
                        pos_clus_spot(s, i, clu, k + 1, n);
                        match pos_in_clus(s, i, clu, k + 1, n) {
                            Ok(Some((lba, slot))) => {
                                let j = choose|j: int|
                                    #![trigger sector_of(i, clu, j)]
                                    k + 1 <= j < i.sec_per_clus && lba == sector_of(i, clu, j) && 0
                                        <= slot < 16 && clus_clean(s, i, clu, n, k + 1, j)
                                        && read_clus(s, i, clu, j) is Some && clean(
                                        read_clus(s, i, clu, j)->0,
                                        n,
                                        0,
                                        slot,
                                    ) && takes(read_clus(s, i, clu, j)->0, slot, n);
                                assert(clus_clean(s, i, clu, n, k, j));
                                assert(lba == sector_of(i, clu, j));
                            },
                            _ => {},
                        }
                    },
                }
            },
        }
    }
}

/// The search for a name ends at its spot.
pub proof fn pos_spot(s: FsView, i: FatInfo, ch: Seq<int>, k: int, n: Seq<u8>, fuel: nat) -> (r: (
    int,
    int,
))
    requires
        volume_ok(s, i),
        chain_ok(s, i, ch),
        0 <= k < ch.len(),
        pos_in_chain(s, i, ch[k], n, fuel) is Ok,
    ensures
        ({
            let (lba, slot) = pos_in_chain(s, i, ch[k], n, fuel)->Ok_0;
            spot(s, i, ch, k, n, r.0, r.1, slot) && lba == sector_of(i, ch[r.0], r.1)
        }),
    decreases fuel,
{
    let c = ch[k];
    pos_clus_spot(s, i, c, 0, n);
    let (lba, slot) = pos_in_chain(s, i, c, n, fuel)->Ok_0;
    match pos_in_clus(s, i, c, 0, n) {
        Ok(Some(p)) => {
            let j = choose|j: int|
                #![trigger sector_of(i, c, j)]
                0 <= j < i.sec_per_clus && lba == sector_of(i, c, j) && 0 <= slot < 16
                    && clus_clean(s, i, c, n, 0, j) && read_clus(s, i, c, j) is Some && clean(
                    read_clus(s, i, c, j)->0,
                    n,
                    0,
                    slot,
                ) && takes(read_clus(s, i, c, j)->0, slot, n);
            (k, j)
        },
        _ => {
            let next = read_fat(s, i, c);
            assert(chain_entry(s, i, ch, k, next));
            assert(k + 1 < ch.len());
            pos_spot(s, i, ch, k + 1, n, (fuel - 1) as nat)
        },
    }
}

proof fn free_clus_spot(s: FsView, i: FatInfo, clu: int, k: int, n: Seq<u8>)
    requires
        0 <= k <= i.sec_per_clus,
        first_match(clus_list(s, i, clu, k).0, Some(n)) is None,
    ensures
        match free_in_clus(s, i, clu, k) {
            Ok(Some((lba, slot))) => exists|j: int|
                #![trigger sector_of(i, clu, j)]
                k <= j < i.sec_per_clus && lba == sector_of(i, clu, j) && 0 <= slot < 16
                    && clus_clean(s, i, clu, n, k, j) && read_clus(s, i, clu, j) is Some && clean(
                    read_clus(s, i, clu, j)->0,
                    n,
                    0,
                    slot,
                ) && takes(read_clus(s, i, clu, j)->0, slot, n),
            Ok(None) => clus_clean(s, i, clu, n, k, i.sec_per_clus as int),
            Err(_) => true,
        },
    decreases i.sec_per_clus - k,
{
    if k < i.sec_per_clus {
        match read_clus(s, i, clu, k) {
            None => {},
            Some(b) => {
                let (es, ends) = sector_list(b, 0);
                if !ends {
                    match_in_both(es, clus_list(s, i, clu, k + 1).0, Some(n));
                }
                free_clean(b, 0, n);
                match free_in_sector(b, 0) {
                    Some(slot) => {
                        assert(sector_of(i, clu, k) == sector_of(i, clu, k));
                        assert(clus_clean(s, i, clu, n, k, k));
                    },
                    None => {
                        assert(sector_clean(s, i, clu, n, k));
                        clean_list(b, n, 0);
                        free_clus_spot(s, i, clu, k + 1, n);
                        match free_in_clus(s, i, clu, k + 1) {
                            Ok(Some((lba, slot))) => {
                                let j = choose|j: int|
                                    #![trigger sector_of(i, clu, j)]
                                    k + 1 <= j < i.sec_per_clus && lba == sector_of(i, clu, j) && 0
                                        <= slot < 16 && clus_clean(s, i, clu, n, k + 1, j)
                                        && read_clus(s, i, clu, j) is Some && clean(
                                        read_clus(s, i, clu, j)->0,
                                        n,
                                        0,
                                        slot,
                                    ) && takes(read_clus(s, i, clu, j)->0, slot, n);
                                assert(clus_clean(s, i, clu, n, k, j));
                                assert(lba == sector_of(i, clu, j));
                            },
                            _ => {},
                        }
                    },
                }
            },
        }
    }
}

/// All clusters from the `k`-th on are passed in a search for the name.
pub open spec fn all_clean(s: FsView, i: FatInfo, ch: Seq<int>, n: Seq<u8>, k: int) -> bool {
    forall|p: int|
        k <= p < ch.len() ==> clus_clean(s, i, #[trigger] ch[p], n, 0, i.sec_per_clus as int)
}

/// The search for a free slot ends at the spot of a name that is not there;
/// or the directory has no such slot and grows.
pub proof fn free_spot(
    s: FsView,
    i: FatInfo,
    ch: Seq<int>,
    k: int,
    n: Seq<u8>,
    fuel: nat,
    list_fuel: nat,
) -> (r: Option<(int, int)>)
    requires
        volume_ok(s, i),
        chain_ok(s, i, ch),
        0 <= k < ch.len(),
        list_fuel >= ch.len() - k,
        first_match(chain_list(s, i, ch[k], list_fuel), Some(n)) is None,
        free_in_chain(s, i, ch[k], fuel).1 is Ok,
    ensures
        match r {
            Some((a, j)) => {
                let (lba, slot) = free_in_chain(s, i, ch[k], fuel).1->Ok_0;
                &&& free_in_chain(s, i, ch[k], fuel).0 == s
                &&& spot(s, i, ch, k, n, a, j, slot)
                &&& lba == sector_of(i, ch[a], j)
            },
            None => {
                &&& all_clean(s, i, ch, n, k)
                &&& free_in_chain(s, i, ch[k], fuel) == grow_dir(s, i, ch.last())
            },
        },
    decreases fuel,
{
    let c = ch[k];
    let (es, ends) = clus_list(s, i, c, 0);
    let next = read_fat(s, i, c);
    assert(chain_entry(s, i, ch, k, next));
    if k + 1 < ch.len() {
        assert(in_range(i, ch[k + 1]));
        range_goes_on(s, i, ch[k + 1]);
        if !ends {
            match_in_both(es, chain_list(s, i, ch[k + 1], (list_fuel - 1) as nat), Some(n));
        }
    }
    free_clus_spot(s, i, c, 0, n);
    match free_in_clus(s, i, c, 0) {
        Ok(Some((lba, slot))) => {
            let j = choose|j: int|
                #![trigger sector_of(i, c, j)]
                0 <= j < i.sec_per_clus && lba == sector_of(i, c, j) && 0 <= slot < 16
                    && clus_clean(s, i, c, n, 0, j) && read_clus(s, i, c, j) is Some && clean(
                    read_clus(s, i, c, j)->0,
                    n,
                    0,
                    slot,
                ) && takes(read_clus(s, i, c, j)->0, slot, n);
            Some((k, j))
        },
        _ => {
            assert(clus_clean(s, i, c, n, 0, i.sec_per_clus as int));
            clean_clus(s, i, c, n, 0);
            if k + 1 < ch.len() {
                free_spot(s, i, ch, k + 1, n, (fuel - 1) as nat, (list_fuel - 1) as nat)
            } else {
                assert(ch.last() == c);
                None
            }
        },
    }
}

} // verus!
