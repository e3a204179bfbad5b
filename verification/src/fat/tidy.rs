//! Directories without remains: behind the slot that ends a directory there is
//! nothing, so that a slot that is filled adds its entry to the list and none
//! besides.

use vstd::prelude::*;
use crate::fat::erasing::none_named;
use crate::fat::model::{
    chain_list, clus_list, entry_at, goes_on, read_clus, read_fat, sector_list, Entry,
};
use crate::fat::slots::{clean, clean_list, listed, passed};
use crate::fat::table::{chain_entry, chain_ok, in_range, range_goes_on, volume_ok};
use crate::fat::tree::{
    chain_same, clean_clus, clus_clean, clus_same, same_clus, same_contents, same_links,
    sector_clean, spot,
};
use crate::fs::{FatInfo, FsView};

verus! {

/// The slot ends the directory.
pub open spec fn ends_at(b: Seq<u8>, k: int) -> bool {
    b[32 * k] == 0
}

/// Behind a slot that ends the directory every slot does.
pub open spec fn sector_tidy(b: Seq<u8>) -> bool {
    forall|k: int, r: int|
        0 <= k <= r < 16 && #[trigger] ends_at(b, k) ==> #[trigger] ends_at(b, r)
}

/// No slot of the sector is used.
pub open spec fn sector_blank(b: Seq<u8>) -> bool {
    forall|r: int| 0 <= r < 16 ==> #[trigger] ends_at(b, r)
}

pub open spec fn tidy_at(s: FsView, i: FatInfo, c: int, q: int) -> bool {
    read_clus(s, i, c, q) is Some ==> sector_tidy(read_clus(s, i, c, q)->0)
}

pub open spec fn void_at(s: FsView, i: FatInfo, c: int, q: int) -> bool {
    read_clus(s, i, c, q) is Some ==> sector_blank(read_clus(s, i, c, q)->0)
}

/// The directory ends in this sector.
pub open spec fn ended_at(s: FsView, i: FatInfo, c: int, q: int) -> bool {
    read_clus(s, i, c, q) is Some && ends_at(read_clus(s, i, c, q)->0, 15)
}

pub open spec fn clus_tidy(s: FsView, i: FatInfo, c: int) -> bool {
    &&& forall|q: int| 0 <= q < i.sec_per_clus ==> #[trigger] tidy_at(s, i, c, q)
    &&& forall|q: int, r: int|
        0 <= q < r < i.sec_per_clus && #[trigger] ended_at(s, i, c, q) ==> #[trigger] void_at(s, i, c, r)
}

/// A directory without remains.
pub open spec fn chain_tidy(s: FsView, i: FatInfo, ch: Seq<int>) -> bool {
    &&& forall|p: int| 0 <= p < ch.len() ==> clus_tidy(s, i, #[trigger] ch[p])
    &&& forall|p: int, v: int, q: int, r: int|
        0 <= p < v < ch.len() && 0 <= q < i.sec_per_clus && 0 <= r < i.sec_per_clus
            && #[trigger] ended_at(s, i, ch[p], q) ==> #[trigger] void_at(s, i, ch[v], r)
}

/// Every slot of the sector is or was used.
pub open spec fn full_at(s: FsView, i: FatInfo, c: int, q: int) -> bool {
    read_clus(s, i, c, q) is Some && forall|r: int|
        0 <= r < 16 ==> !#[trigger] ends_at(read_clus(s, i, c, q)->0, r)
}

/// The list goes up to the slot at least.
pub open spec fn reached(s: FsView, i: FatInfo, ch: Seq<int>, a: int, j: int, slot: int) -> bool {
    &&& 0 <= a < ch.len()
    &&& 0 <= j < i.sec_per_clus
    &&& 0 <= slot < 16
    &&& forall|p: int, q: int|
        0 <= p < a && 0 <= q < i.sec_per_clus ==> #[trigger] full_at(s, i, ch[p], q)
    &&& forall|q: int| 0 <= q < j ==> #[trigger] full_at(s, i, ch[a], q)
    &&& read_clus(s, i, ch[a], j) is Some
    &&& forall|r: int| 0 <= r < slot ==> !#[trigger] ends_at(read_clus(s, i, ch[a], j)->0, r)
}

/// The two sectors differ in one slot, which the second one uses.
pub open spec fn slot_set(b: Seq<u8>, c: Seq<u8>, slot: int) -> bool {
    &&& b.len() == 512
    &&& c.len() == 512
    &&& !ends_at(c, slot)
    &&& forall|k: int|
        0 <= k < 512 && !(32 * slot <= k < 32 * slot + 32) ==> #[trigger] c[k] == b[k]
}

/// One slot of the chain was set; the clusters are otherwise as they were.
pub open spec fn set_at(
    s: FsView,
    t: FsView,
    i: FatInfo,
    ch: Seq<int>,
    a: int,
    j: int,
    slot: int,
) -> bool {
    &&& read_clus(s, i, ch[a], j) is Some
    &&& read_clus(t, i, ch[a], j) is Some
    &&& slot_set(read_clus(s, i, ch[a], j)->0, read_clus(t, i, ch[a], j)->0, slot)
    &&& forall|q: int|
        0 <= q < i.sec_per_clus && q != j ==> #[trigger] read_clus(t, i, ch[a], q) == read_clus(
            s,
            i,
            ch[a],
            q,
        )
    &&& forall|p: int| 0 <= p < ch.len() && p != a ==> same_clus(s, t, i, #[trigger] ch[p], 0)
}

/// No entry has the name.
pub open spec fn no_name(es: Seq<Entry>, n: Seq<u8>) -> bool {
    forall|q: int| 0 <= q < es.len() ==> (#[trigger] es[q]).name != n
}

/// What a slot adds to the list.
pub open spec fn one(b: Seq<u8>, slot: int) -> Seq<Entry> {
    if !ends_at(b, slot) && listed(b, slot) {
        seq![entry_at(b, 32 * slot)]
    } else {
        Seq::empty()
    }
}

proof fn slot_beside(b: Seq<u8>, c: Seq<u8>, slot: int, r: int)
    requires
        slot_set(b, c, slot),
        0 <= slot < 16,
        0 <= r < 16,
        r != slot,
    ensures
        ends_at(c, r) == ends_at(b, r),
        listed(c, r) == listed(b, r),
        entry_at(c, 32 * r) == entry_at(b, 32 * r),
{
    assert(c[32 * r] == b[32 * r]);
    assert(c[32 * r + 1] == b[32 * r + 1]);
    assert(c[32 * r + 11] == b[32 * r + 11]);
    assert(entry_at(c, 32 * r) =~= entry_at(b, 32 * r)) by {
        assert(c.subrange(32 * r, 32 * r + 11) =~= b.subrange(32 * r, 32 * r + 11));
    }
}

proof fn sector_behind(b: Seq<u8>, c: Seq<u8>, slot: int, k: int)
    requires
        slot_set(b, c, slot),
        0 <= slot < k <= 16,
    ensures
        sector_list(c, k) == sector_list(b, k),
    decreases 16 - k,
{
    if k < 16 {
        slot_beside(b, c, slot, k);
        sector_behind(b, c, slot, k + 1);
    }
}

/// What the list of a sector is before and behind the slot.
proof fn sector_split(b: Seq<u8>, c: Seq<u8>, k: int, slot: int, n: Seq<u8>) -> (r: (
    Seq<Entry>,
    Seq<Entry>,
))
    requires
        slot_set(b, c, slot),
        sector_tidy(b),
        0 <= k <= slot < 16,
        forall|r: int| 0 <= r < slot ==> !#[trigger] ends_at(b, r),
    ensures
        sector_list(b, k).0 == r.0 + one(b, slot) + r.1,
        sector_list(c, k).0 == r.0 + one(c, slot) + r.1,
        !ends_at(b, slot) ==> sector_list(c, k).1 == sector_list(b, k).1,
        ends_at(b, slot) ==> r.1.len() == 0 && sector_list(b, k).1,
        clean(b, n, 0, slot) ==> no_name(r.0, n),
    decreases slot - k,
{
    let none = Seq::<Entry>::empty();
    if k < slot {
        slot_beside(b, c, slot, k);
        let (p, q) = sector_split(b, c, k + 1, slot, n);
        assert(!ends_at(b, k));
        if listed(b, k) {
            let x = seq![entry_at(b, 32 * k)];
            assert(clean(b, n, 0, slot) ==> passed(b, n, k));
            assert(x + (p + one(b, slot) + q) =~= (x + p) + one(b, slot) + q);
            assert(x + (p + one(c, slot) + q) =~= (x + p) + one(c, slot) + q);
            (x + p, q)
        } else {
            (p, q)
        }
    } else if ends_at(b, slot) {
        assert(none + one(b, slot) + none =~= none);
        if slot + 1 < 16 {
            slot_beside(b, c, slot, slot + 1);
            assert(ends_at(b, slot + 1));
        }
        assert(sector_list(c, slot + 1).0 =~= none);
        assert(sector_list(c, slot).0 =~= none + one(c, slot) + none);
        (none, none)
    } else {
        sector_behind(b, c, slot, slot + 1);
        let rest = sector_list(b, slot + 1).0;
        assert(sector_list(b, slot).0 =~= none + one(b, slot) + rest);
        assert(sector_list(c, slot).0 =~= none + one(c, slot) + rest);
        (none, rest)
    }
}

/// A full sector does not end the list.
proof fn full_goes_on(b: Seq<u8>, k: int)
    requires
        0 <= k <= 16,
        forall|r: int| 0 <= r < 16 ==> !#[trigger] ends_at(b, r),
    ensures
        !sector_list(b, k).1,
    decreases 16 - k,
{
    if k < 16 {
        assert(!ends_at(b, k));
        full_goes_on(b, k + 1);
    }
}

/// Blank sectors add nothing to the list.
pub proof fn void_adds_nothing(s: FsView, i: FatInfo, c: int, k: int)
    requires
        0 <= k,
        forall|q: int| k <= q < i.sec_per_clus ==> #[trigger] void_at(s, i, c, q),
    ensures
        clus_list(s, i, c, k).0 == Seq::<Entry>::empty(),
        k < i.sec_per_clus ==> clus_list(s, i, c, k).1,
{
    if k < i.sec_per_clus {
        assert(void_at(s, i, c, k));
        if let Some(b) = read_clus(s, i, c, k) {
            assert(ends_at(b, 0));
        }
    }
}

proof fn clus_split(
    s: FsView,
    t: FsView,
    i: FatInfo,
    ch: Seq<int>,
    a: int,
    k: int,
    j: int,
    slot: int,
    n: Seq<u8>,
) -> (r: (Seq<Entry>, Seq<Entry>))
    requires
        chain_tidy(s, i, ch),
        reached(s, i, ch, a, j, slot),
        set_at(s, t, i, ch, a, j, slot),
        0 <= k <= j,
    ensures
        ({
            let b = read_clus(s, i, ch[a], j)->0;
            let c = read_clus(t, i, ch[a], j)->0;
            &&& clus_list(s, i, ch[a], k).0 == r.0 + one(b, slot) + r.1
            &&& clus_list(t, i, ch[a], k).0 == r.0 + one(c, slot) + r.1
            &&& !ends_at(b, slot) ==> clus_list(t, i, ch[a], k).1 == clus_list(s, i, ch[a], k).1
            &&& ends_at(b, slot) ==> r.1.len() == 0 && clus_list(s, i, ch[a], k).1
            &&& clus_clean(s, i, ch[a], n, 0, j) && clean(b, n, 0, slot) ==> no_name(r.0, n)
        }),
    decreases j - k,
{
    let x = ch[a];
    let b = read_clus(s, i, x, j)->0;
    let c = read_clus(t, i, x, j)->0;
    if k < j {
        assert(full_at(s, i, ch[a], k));
        assert(read_clus(t, i, x, k) == read_clus(s, i, x, k));
        let d = read_clus(s, i, x, k)->0;
        full_goes_on(d, 0);
        let (p, q) = clus_split(s, t, i, ch, a, k + 1, j, slot, n);
        let l = sector_list(d, 0).0;
        if clus_clean(s, i, ch[a], n, 0, j) {
            assert(sector_clean(s, i, ch[a], n, k));
            clean_list(d, n, 0);
            none_named(l, n);
        }
        assert(l + (p + one(b, slot) + q) =~= (l + p) + one(b, slot) + q);
        assert(l + (p + one(c, slot) + q) =~= (l + p) + one(c, slot) + q);
        (l + p, q)
    } else {
        assert(clus_tidy(s, i, ch[a]));
        assert(tidy_at(s, i, x, j));
        let (p, q) = sector_split(b, c, 0, slot, n);
        clus_same(s, t, i, x, j + 1);
        let rest = clus_list(s, i, x, j + 1).0;
        if ends_at(b, slot) {
            assert(ends_at(b, 15));
            assert(ended_at(s, i, x, j));
            void_adds_nothing(s, i, x, j + 1);
            assert(clus_list(t, i, x, j).0 =~= p + one(c, slot) + q);
            (p, q)
        } else if sector_list(b, 0).1 {
            (p, q)
        } else {
            assert((p + one(b, slot) + q) + rest =~= p + one(b, slot) + (q + rest));
            assert((p + one(c, slot) + q) + rest =~= p + one(c, slot) + (q + rest));
            (p, q + rest)
        }
    }
}

/// A full cluster does not end the list.
pub proof fn full_clus_goes_on(s: FsView, i: FatInfo, c: int, k: int)
    requires
        0 <= k,
        forall|q: int| k <= q < i.sec_per_clus ==> #[trigger] full_at(s, i, c, q),
    ensures
        !clus_list(s, i, c, k).1,
    decreases i.sec_per_clus - k,
{
    if k < i.sec_per_clus {
        assert(full_at(s, i, c, k));
        full_goes_on(read_clus(s, i, c, k)->0, 0);
        full_clus_goes_on(s, i, c, k + 1);
    }
}

/// The link from one cluster of a chain to the next.
proof fn link_of(s: FsView, i: FatInfo, ch: Seq<int>, k: int)
    requires
        volume_ok(s, i),
        chain_ok(s, i, ch),
        0 <= k < ch.len(),
    ensures
        k + 1 < ch.len() ==> read_fat(s, i, ch[k]) == ch[k + 1] && goes_on(read_fat(s, i, ch[k])),
        k + 1 >= ch.len() ==> !goes_on(read_fat(s, i, ch[k])),
{
    assert(chain_entry(s, i, ch, k, read_fat(s, i, ch[k])));
    if k + 1 < ch.len() {
        assert(in_range(i, ch[k + 1]));
        range_goes_on(s, i, ch[k + 1]);
    }
}

/// Nothing stands behind the cluster in which the directory ends.
proof fn void_behind(s: FsView, i: FatInfo, ch: Seq<int>, a: int, j: int, fuel: nat)
    requires
        chain_tidy(s, i, ch),
        0 <= a,
        a + 1 < ch.len(),
        0 <= j < i.sec_per_clus,
        ended_at(s, i, ch[a], j),
    ensures
        chain_list(s, i, ch[a + 1], fuel) == Seq::<Entry>::empty(),
{
    assert forall|r: int| 0 <= r < i.sec_per_clus implies #[trigger] void_at(s, i, ch[a + 1], r) by {}
    void_adds_nothing(s, i, ch[a + 1], 0);
}

/// The split of the list from the cluster of the slot on.
proof fn split_here(
    s: FsView,
    t: FsView,
    i: FatInfo,
    ch: Seq<int>,
    a: int,
    j: int,
    slot: int,
    n: Seq<u8>,
    fuel: nat,
) -> (r: (Seq<Entry>, Seq<Entry>))
    requires
        volume_ok(s, i),
        chain_ok(s, i, ch),
        same_links(s, t, i, ch),
        chain_tidy(s, i, ch),
        reached(s, i, ch, a, j, slot),
        set_at(s, t, i, ch, a, j, slot),
        fuel >= ch.len() - a,
    ensures
        ({
            let b = read_clus(s, i, ch[a], j)->0;
            let c = read_clus(t, i, ch[a], j)->0;
            &&& chain_list(s, i, ch[a], fuel) == r.0 + one(b, slot) + r.1
            &&& chain_list(t, i, ch[a], fuel) == r.0 + one(c, slot) + r.1
            &&& spot(s, i, ch, 0, n, a, j, slot) ==> no_name(r.0, n)
        }),
{
    let x = ch[a];
    let b = read_clus(s, i, x, j)->0;
    let c = read_clus(t, i, x, j)->0;
    let next = read_fat(s, i, x);
    assert(read_fat(t, i, x) == next);
    link_of(s, i, ch, a);
    let (p, q) = clus_split(s, t, i, ch, a, 0, j, slot, n);
    let (ls, es) = clus_list(s, i, x, 0);
    let (lt, et) = clus_list(t, i, x, 0);
    if a + 1 < ch.len() {
        assert(same_contents(s, t, i, ch, a + 1));
        chain_same(s, t, i, ch, a + 1, (fuel - 1) as nat);
        let rest = chain_list(s, i, next as int, (fuel - 1) as nat);
        assert(chain_list(t, i, next as int, (fuel - 1) as nat) == rest);
        if ends_at(b, slot) {
            assert(tidy_at(s, i, ch[a], j)) by {
                assert(clus_tidy(s, i, ch[a]));
            }
            assert(ends_at(b, 15));
            assert(ended_at(s, i, ch[a], j));
            void_behind(s, i, ch, a, j, (fuel - 1) as nat);
            assert(lt + rest =~= lt);
            (p, q)
        } else if es {
            (p, q)
        } else {
            assert(ls + rest =~= p + one(b, slot) + (q + rest));
            assert(lt + rest =~= p + one(c, slot) + (q + rest));
            (p, q + rest)
        }
    } else {
        (p, q)
    }
}

/// What the list of a directory is before and behind a slot that is set: the
/// two lists differ in what the slot adds, and in nothing else.
pub proof fn chain_split(
    s: FsView,
    t: FsView,
    i: FatInfo,
    ch: Seq<int>,
    k: int,
    a: int,
    j: int,
    slot: int,
    n: Seq<u8>,
    fuel: nat,
) -> (r: (Seq<Entry>, Seq<Entry>))
    requires
        volume_ok(s, i),
        chain_ok(s, i, ch),
        same_links(s, t, i, ch),
        chain_tidy(s, i, ch),
        reached(s, i, ch, a, j, slot),
        set_at(s, t, i, ch, a, j, slot),
        0 <= k <= a,
        fuel >= ch.len() - k,
    ensures
        ({
            let b = read_clus(s, i, ch[a], j)->0;
            let c = read_clus(t, i, ch[a], j)->0;
            &&& chain_list(s, i, ch[k], fuel) == r.0 + one(b, slot) + r.1
            &&& chain_list(t, i, ch[k], fuel) == r.0 + one(c, slot) + r.1
            &&& spot(s, i, ch, 0, n, a, j, slot) ==> no_name(r.0, n)
        }),
    decreases a - k,
{
    if k < a {
        let x = ch[k];
        let b = read_clus(s, i, ch[a], j)->0;
        let c = read_clus(t, i, ch[a], j)->0;
        assert(read_fat(t, i, x) == read_fat(s, i, x));
        link_of(s, i, ch, k);
        assert forall|q: int| 0 <= q < i.sec_per_clus implies #[trigger] full_at(s, i, x, q) by {
            assert(full_at(s, i, ch[k], q));
        }
        full_clus_goes_on(s, i, x, 0);
        assert(same_clus(s, t, i, ch[k], 0));
        clus_same(s, t, i, x, 0);
        let (p, q) = chain_split(s, t, i, ch, k + 1, a, j, slot, n, (fuel - 1) as nat);
        let l = clus_list(s, i, x, 0).0;
        if spot(s, i, ch, 0, n, a, j, slot) {
            assert(clus_clean(s, i, ch[k], n, 0, i.sec_per_clus as int));
            clean_clus(s, i, x, n, 0);
            none_named(l, n);
        }
        assert(l + (p + one(b, slot) + q) =~= (l + p) + one(b, slot) + q);
        assert(l + (p + one(c, slot) + q) =~= (l + p) + one(c, slot) + q);
        (l + p, q)
    } else {
        split_here(s, t, i, ch, a, j, slot, n, fuel)
    }
}

/// A directory stays without remains when a slot is set.
pub proof fn tidy_stays(s: FsView, t: FsView, i: FatInfo, ch: Seq<int>, a: int, j: int, slot: int)
    requires
        chain_tidy(s, i, ch),
        reached(s, i, ch, a, j, slot),
        set_at(s, t, i, ch, a, j, slot),
    ensures
        chain_tidy(t, i, ch),
{
    let b = read_clus(s, i, ch[a], j)->0;
    let c = read_clus(t, i, ch[a], j)->0;
    assert forall|r: int| 0 <= r < 16 && r != slot implies #[trigger] ends_at(c, r) == ends_at(b, r) by {
        slot_beside(b, c, slot, r);
    }
    assert(clus_tidy(s, i, ch[a]));
    assert(tidy_at(s, i, ch[a], j));
    assert(sector_tidy(c)) by {
        assert forall|k: int, r: int| 0 <= k <= r < 16 && #[trigger] ends_at(c, k) implies #[trigger] ends_at(
            c,
            r,
        ) by {
            assert(ends_at(b, k));
            assert(k > slot) by {
                if k < slot {
                    assert(!ends_at(b, k));
                }
            }
            assert(ends_at(b, r));
        }
    }
    assert forall|p: int, q: int|
        0 <= p < ch.len() && 0 <= q < i.sec_per_clus && !(p == a && q == j) implies #[trigger] read_clus(
        t,
        i,
        ch[p],
        q,
    ) == read_clus(s, i, ch[p], q) by {
        if p != a {
            assert(same_clus(s, t, i, ch[p], 0));
        }
    }
    assert forall|p: int, q: int|
        0 <= p < ch.len() && 0 <= q < i.sec_per_clus && #[trigger] ended_at(t, i, ch[p], q) implies ended_at(
        s,
        i,
        ch[p],
        q,
    ) && (p < a || (p == a && q < j) ==> false) by {
        if p == a && q == j {
            assert(ends_at(c, 15));
            assert(ends_at(b, 15));
        } else {
            assert(read_clus(t, i, ch[p], q) == read_clus(s, i, ch[p], q));
            if p < a || (p == a && q < j) {
                assert(full_at(s, i, ch[p], q));
                assert(!ends_at(read_clus(s, i, ch[p], q)->0, 15));
            }
        }
    }
    assert forall|p: int| 0 <= p < ch.len() implies clus_tidy(t, i, #[trigger] ch[p]) by {
        assert(clus_tidy(s, i, ch[p]));
        assert forall|q: int| 0 <= q < i.sec_per_clus implies #[trigger] tidy_at(t, i, ch[p], q) by {
            assert(tidy_at(s, i, ch[p], q));
            assert(!(p == a && q == j) ==> read_clus(t, i, ch[p], q) == read_clus(s, i, ch[p], q));
        }
        assert forall|q: int, r: int|
            0 <= q < r < i.sec_per_clus && #[trigger] ended_at(t, i, ch[p], q) implies #[trigger] void_at(
            t,
            i,
            ch[p],
            r,
        ) by {
            assert(ended_at(s, i, ch[p], q));
            assert(void_at(s, i, ch[p], r));
            assert(read_clus(t, i, ch[p], r) == read_clus(s, i, ch[p], r));
        }
    }
    assert forall|p: int, v: int, q: int, r: int|
        0 <= p < v < ch.len() && 0 <= q < i.sec_per_clus && 0 <= r < i.sec_per_clus
            && #[trigger] ended_at(t, i, ch[p], q) implies #[trigger] void_at(t, i, ch[v], r) by {
        assert(ended_at(s, i, ch[p], q));
        assert(void_at(s, i, ch[v], r));
        assert(read_clus(t, i, ch[v], r) == read_clus(s, i, ch[v], r));
    }
}

/// A directory whose clusters are as they were has no more remains than
/// before.
pub proof fn tidy_same(s: FsView, t: FsView, i: FatInfo, ch: Seq<int>)
    requires
        chain_tidy(s, i, ch),
        same_contents(s, t, i, ch, 0),
    ensures
        chain_tidy(t, i, ch),
{
    assert forall|p: int, q: int| 0 <= p < ch.len() && 0 <= q < i.sec_per_clus implies #[trigger] read_clus(
        t,
        i,
        ch[p],
        q,
    ) == read_clus(s, i, ch[p], q) by {
        assert(same_clus(s, t, i, ch[p], 0));
    }
    assert forall|p: int| 0 <= p < ch.len() implies clus_tidy(t, i, #[trigger] ch[p]) by {
        assert(clus_tidy(s, i, ch[p]));
        assert forall|q: int| 0 <= q < i.sec_per_clus implies #[trigger] tidy_at(t, i, ch[p], q) by {
            assert(tidy_at(s, i, ch[p], q));
            assert(read_clus(t, i, ch[p], q) == read_clus(s, i, ch[p], q));
        }
        assert forall|q: int, r: int|
            0 <= q < r < i.sec_per_clus && #[trigger] ended_at(t, i, ch[p], q) implies #[trigger] void_at(
            t,
            i,
            ch[p],
            r,
        ) by {
            assert(read_clus(t, i, ch[p], q) == read_clus(s, i, ch[p], q));
            assert(ended_at(s, i, ch[p], q));
            assert(void_at(s, i, ch[p], r));
            assert(read_clus(t, i, ch[p], r) == read_clus(s, i, ch[p], r));
        }
    }
    assert forall|p: int, v: int, q: int, r: int|
        0 <= p < v < ch.len() && 0 <= q < i.sec_per_clus && 0 <= r < i.sec_per_clus
            && #[trigger] ended_at(t, i, ch[p], q) implies #[trigger] void_at(t, i, ch[v], r) by {
        assert(read_clus(t, i, ch[p], q) == read_clus(s, i, ch[p], q));
        assert(ended_at(s, i, ch[p], q));
        assert(void_at(s, i, ch[v], r));
        assert(read_clus(t, i, ch[v], r) == read_clus(s, i, ch[v], r));
    }
}

} // verus!
