//! What the allocation table promises: an entry reads back as it was written,
//! clusters are taken in order, each of them free before, and chains that are
//! taken can be followed.

use vstd::prelude::*;
use crate::bytes::{le32, put32, put32_then_read, splice_keeps_fields};
use crate::fat::model::{
    alloc_chain, alloc_cluster, alloc_from, extend_chain, fat_off, fat_sector, free_chain,
    free_from, goes_on, info_wf, is_eoc, read_fat, write_fat, write_tables,
};
use crate::fs::{same_but_disk, FatInfo, FsView};

verus! {

/// A volume whose tables lie before the data and can be read, on a disk whose
/// sectors can all be written.
pub open spec fn volume_ok(s: FsView, i: FatInfo) -> bool {
    &&& info_wf(i)
    &&& 65525 <= i.cluster_count <= 0x0FFF_FFF0
    &&& i.rsvc + i.num_fats * i.fat_size <= i.data_start
    &&& s.disk.wf()
    &&& s.disk.fixed == Set::<int>::empty()
    &&& forall|l: int|
        i.rsvc <= l < i.rsvc + i.num_fats * i.fat_size ==> (#[trigger] s.raw_read(l)) is Some
}

/// The number of a cluster of the volume that has an entry in the table.
pub open spec fn in_range(i: FatInfo, c: int) -> bool {
    2 <= c < i.cluster_count + 2 && c < 128 * i.fat_size
}

/// The table has an entry for every cluster.
pub open spec fn covers(i: FatInfo) -> bool {
    i.cluster_count + 2 <= 128 * i.fat_size
}

/// The number of free clusters below `n` that have an entry.
pub open spec fn spare_below(s: FsView, i: FatInfo, n: int) -> int
    decreases n,
{
    if n <= 2 {
        0
    } else {
        spare_below(s, i, n - 1) + (if in_range(i, n - 1) && read_fat(s, i, n - 1) == 0 {
            1int
        } else {
            0
        })
    }
}

/// The number of free clusters that have an entry in the table.
pub open spec fn spare(s: FsView, i: FatInfo) -> int {
    spare_below(s, i, i.cluster_count + 2)
}

/// So many clusters can be taken without going beyond the end of the table.
pub open spec fn roomy(s: FsView, i: FatInfo, n: int) -> bool {
    covers(i) || spare(s, i) >= n
}

proof fn spare_alike(s: FsView, t: FsView, i: FatInfo, n: int)
    requires
        forall|c: int|
            in_range(i, c) ==> (#[trigger] read_fat(t, i, c) == 0) == (read_fat(s, i, c) == 0),
    ensures
        spare_below(t, i, n) == spare_below(s, i, n),
    decreases n,
{
    if n > 2 {
        spare_alike(s, t, i, n - 1);
        assert(in_range(i, n - 1) ==> (read_fat(t, i, n - 1) == 0) == (read_fat(s, i, n - 1) == 0));
    }
}

/// The entries that are free are as they were.
pub proof fn spare_same(s: FsView, t: FsView, i: FatInfo)
    requires
        forall|c: int|
            in_range(i, c) ==> (#[trigger] read_fat(t, i, c) == 0) == (read_fat(s, i, c) == 0),
    ensures
        spare(t, i) == spare(s, i),
{
    spare_alike(s, t, i, i.cluster_count + 2);
}

proof fn spare_less(s: FsView, t: FsView, i: FatInfo, c: int, n: int)
    requires
        in_range(i, c),
        read_fat(s, i, c) == 0,
        read_fat(t, i, c) != 0,
        forall|d: int|
            in_range(i, d) && d != c ==> (#[trigger] read_fat(t, i, d) == 0) == (read_fat(s, i, d)
                == 0),
    ensures
        spare_below(t, i, n) == spare_below(s, i, n) - (if c < n {
            1int
        } else {
            0
        }),
    decreases n,
{
    if n > 2 {
        spare_less(s, t, i, c, n - 1);
        if in_range(i, n - 1) && n - 1 != c {
            assert((read_fat(t, i, n - 1) == 0) == (read_fat(s, i, n - 1) == 0));
        }
    }
}

/// One free entry is taken.
pub proof fn spare_taken(s: FsView, t: FsView, i: FatInfo, c: int)
    requires
        in_range(i, c),
        read_fat(s, i, c) == 0,
        read_fat(t, i, c) != 0,
        forall|d: int|
            in_range(i, d) && d != c ==> (#[trigger] read_fat(t, i, d) == 0) == (read_fat(s, i, d)
                == 0),
    ensures
        spare(t, i) == spare(s, i) - 1,
{
    spare_less(s, t, i, c, i.cluster_count + 2);
}

/// A free cluster that has an entry counts.
pub proof fn spare_counts(s: FsView, i: FatInfo, c: int, n: int)
    requires
        in_range(i, c),
        read_fat(s, i, c) == 0,
        c < n,
    ensures
        spare_below(s, i, n) >= 1,
    decreases n,
{
    spare_positive(s, i, n - 1);
    if c < n - 1 {
        spare_counts(s, i, c, n - 1);
    }
}

pub(crate) proof fn spare_positive(s: FsView, i: FatInfo, n: int)
    ensures
        spare_below(s, i, n) >= 0,
    decreases n,
{
    if n > 2 {
        spare_positive(s, i, n - 1);
    }
}

pub(crate) proof fn spare_grows(s: FsView, i: FatInfo, m: int, n: int)
    requires
        m <= n,
    ensures
        spare_below(s, i, m) <= spare_below(s, i, n),
    decreases n,
{
    if m < n && n > 2 {
        spare_grows(s, i, m, n - 1);
    }
}

proof fn spare_there(s: FsView, i: FatInfo, n: int) -> (c: int)
    requires
        spare_below(s, i, n) >= 1,
    ensures
        in_range(i, c),
        read_fat(s, i, c) == 0,
    decreases n,
{
    if n <= 2 {
        0
    } else if in_range(i, n - 1) && read_fat(s, i, n - 1) == 0 {
        n - 1
    } else {
        spare_there(s, i, n - 1)
    }
}

/// `t` is `s` with other table entries: the sectors outside the tables are
/// the same.
pub open spec fn only_tables(s: FsView, t: FsView, i: FatInfo) -> bool {
    &&& same_but_disk(s, t)
    &&& volume_ok(t, i)
    &&& forall|l: int|
        l < i.rsvc || l >= i.data_start ==> #[trigger] t.raw_read(l) == s.raw_read(l)
}

proof fn tables_written(s: FsView, i: FatInfo, sec: int, b: Seq<u8>, f: int)
    requires
        volume_ok(s, i),
        i.rsvc <= sec < i.rsvc + i.fat_size,
        b.len() == 512,
        0 <= f <= i.num_fats,
    ensures
        ({
            let (t, ok) = write_tables(s, i, sec, b, f);
            &&& ok
            &&& same_but_disk(s, t)
            &&& t.disk.wf()
            &&& forall|l: int|
                l < i.rsvc || l >= i.data_start ==> #[trigger] t.raw_read(l) == s.raw_read(l)
            &&& forall|l: int|
                i.rsvc <= l < i.rsvc + i.fat_size && l != sec ==> #[trigger] t.raw_read(l)
                    == s.raw_read(l)
            &&& f >= 1 ==> t.raw_read(sec) == s.raw_read(sec)
            &&& f == 0 ==> t.raw_read(sec) == Some(b)
        }),
    decreases i.num_fats - f,
{
    if f < i.num_fats {
        let l = sec + f * i.fat_size;
        assert(i.rsvc <= l < i.rsvc + i.num_fats * i.fat_size && (f >= 1 ==> l >= i.rsvc
            + i.fat_size) && (f == 0 ==> l == sec)) by (nonlinear_arith)
            requires
                0 <= f < i.num_fats,
                l == sec + f * i.fat_size,
                i.rsvc <= sec < i.rsvc + i.fat_size,
        ;
        assert(s.raw_read(l) is Some);
        let s1 = s.raw_write(l, b)->0;
        assert(s1.disk.sec.dom() =~= s.disk.sec.dom());
        assert forall|k: int| i.rsvc <= k < i.rsvc + i.num_fats * i.fat_size implies (
        #[trigger] s1.raw_read(k)) is Some by {
            assert(s.raw_read(k) is Some);
        }
        assert(volume_ok(s1, i));
        tables_written(s1, i, sec, b, f + 1);
    }
}

/// The entry of a cluster reads back as it was written; the other entries and
/// the data stay as they were.
pub proof fn entry_reads_back(s: FsView, i: FatInfo, c: int, v: u32)
    requires
        volume_ok(s, i),
        in_range(i, c),
    ensures
        write_fat(s, i, c, v).1,
        only_tables(s, write_fat(s, i, c, v).0, i),
        read_fat(write_fat(s, i, c, v).0, i, c) == v,
        forall|d: int|
            in_range(i, d) && d != c ==> #[trigger] read_fat(write_fat(s, i, c, v).0, i, d)
                == read_fat(s, i, d),
{
    reveal(write_fat);
    let sec = fat_sector(i, c);
    assert(i.rsvc <= sec < i.rsvc + i.fat_size);
    assert(i.fat_size <= i.num_fats * i.fat_size) by (nonlinear_arith)
        requires
            1 <= i.num_fats,
            0 <= i.fat_size,
    ;
    assert(s.raw_read(sec) is Some);
    let b = s.raw_read(sec)->0;
    assert(b.len() == 512);
    let b1 = put32(b, fat_off(c), v);
    tables_written(s, i, sec, b1, 0);
    let t = write_fat(s, i, c, v).0;
    put32_then_read(b, fat_off(c), v);
    assert forall|l: int| i.rsvc <= l < i.rsvc + i.num_fats * i.fat_size implies (
    #[trigger] t.raw_read(l)) is Some by {
        assert(s.raw_read(l) is Some);
    }
    assert forall|d: int| in_range(i, d) && d != c implies #[trigger] read_fat(t, i, d) == read_fat(
        s,
        i,
        d,
    ) by {
        if fat_sector(i, d) == sec {
            splice_keeps_fields(b, fat_off(c), le32(v), fat_off(d));
        } else {
            assert(i.rsvc <= fat_sector(i, d) < i.rsvc + i.fat_size);
        }
    }
}

/// What taking a cluster does.
proof fn taken_from(s: FsView, i: FatInfo, c: int, x: int)
    requires
        volume_ok(s, i),
        2 <= c <= i.cluster_count + 2,
        covers(i) || (c <= x && in_range(i, x) && read_fat(s, i, x) == 0),
    ensures
        match alloc_from(s, i, c) {
            (t, Some(n)) => {
                &&& in_range(i, n as int)
                &&& n >= c
                &&& read_fat(s, i, n as int) == 0
                &&& forall|d: int| c <= d < n ==> #[trigger] read_fat(s, i, d) != 0
                &&& only_tables(s, t, i)
                &&& read_fat(t, i, n as int) == 0x0FFF_FFF8
                &&& forall|d: int|
                    in_range(i, d) && d != n ==> #[trigger] read_fat(t, i, d) == read_fat(s, i, d)
            },
            (t, None) => {
                &&& t == s
                &&& forall|d: int|
                    c <= d < i.cluster_count + 2 ==> #[trigger] read_fat(s, i, d) != 0
            },
        },
    decreases i.cluster_count + 2 - c,
{
    if c < i.cluster_count + 2 {
        if read_fat(s, i, c) == 0 {
            entry_reads_back(s, i, c, 0x0FFF_FFF8);
        } else {
            taken_from(s, i, c + 1, x);
        }
    }
}

/// A cluster is taken exactly where one is free. It is the first free one of
/// the volume; its entry ends a chain from then on, and nothing else changes.
pub proof fn first_free_is_taken(s: FsView, i: FatInfo)
    requires
        volume_ok(s, i),
        roomy(s, i, 1),
    ensures
        match alloc_cluster(s, i) {
            (t, Some(n)) => {
                &&& in_range(i, n as int)
                &&& spare(t, i) == spare(s, i) - 1
                &&& read_fat(s, i, n as int) == 0
                &&& forall|d: int| 2 <= d < n ==> #[trigger] read_fat(s, i, d) != 0
                &&& only_tables(s, t, i)
                &&& read_fat(t, i, n as int) == 0x0FFF_FFF8
                &&& forall|d: int|
                    in_range(i, d) && d != n ==> #[trigger] read_fat(t, i, d) == read_fat(s, i, d)
            },
            (t, None) => {
                &&& t == s
                &&& forall|d: int| in_range(i, d) ==> #[trigger] read_fat(s, i, d) != 0
            },
        },
{
    reveal(alloc_cluster);
    let x = if covers(i) {
        2
    } else {
        spare_there(s, i, i.cluster_count + 2)
    };
    taken_from(s, i, 2, x);
    if let (t, Some(n)) = alloc_cluster(s, i) {
        spare_less(s, t, i, n as int, i.cluster_count + 2);
    }
}

/// The clusters are distinct clusters of the volume, each entry names the
/// next, and the last one ends the chain.
pub open spec fn chain_ok(s: FsView, i: FatInfo, ch: Seq<int>) -> bool {
    &&& ch.len() >= 1
    &&& forall|k: int| 0 <= k < ch.len() ==> in_range(i, #[trigger] ch[k])
    &&& forall|a: int, b: int| 0 <= a < b < ch.len() ==> #[trigger] ch[a] != #[trigger] ch[b]
    &&& forall|k: int|
        0 <= k < ch.len() ==> chain_entry(s, i, ch, k, read_fat(s, i, #[trigger] ch[k]))
}

/// The entry `v` of the `k`-th cluster of a chain.
pub open spec fn chain_entry(s: FsView, i: FatInfo, ch: Seq<int>, k: int, v: u32) -> bool {
    if k + 1 < ch.len() {
        v == ch[k + 1]
    } else {
        is_eoc(v)
    }
}

/// The numbers of a chain as `int`s.
pub open spec fn ints(ch: Seq<u32>) -> Seq<int> {
    Seq::new(ch.len(), |k: int| ch[k] as int)
}

/// `ch` was free in `s` and is a chain in `t`; nothing else changed.
pub open spec fn new_chain(s: FsView, t: FsView, i: FatInfo, ch: Seq<u32>) -> bool {
    &&& only_tables(s, t, i)
    &&& ch.len() > 0 ==> chain_ok(t, i, ints(ch))
    &&& forall|k: int| 0 <= k < ch.len() ==> read_fat(s, i, (#[trigger] ch[k]) as int) == 0
    &&& forall|d: int|
        in_range(i, d) && !ints(ch).contains(d) ==> #[trigger] read_fat(t, i, d) == read_fat(
            s,
            i,
            d,
        )
}

/// The entries of a chain are not zero.
pub proof fn chain_in_use(s: FsView, i: FatInfo, ch: Seq<int>, k: int)
    requires
        chain_ok(s, i, ch),
        0 <= k < ch.len(),
    ensures
        read_fat(s, i, ch[k]) != 0,
{
    let v = read_fat(s, i, ch[k]);
    assert(chain_entry(s, i, ch, k, v));
    if k + 1 < ch.len() {
        assert(in_range(i, ch[k + 1]));
    }
}

proof fn extended(s0: FsView, s: FsView, i: FatInfo, ch: Seq<u32>, need: int)
    requires
        volume_ok(s0, i),
        volume_ok(s, i),
        new_chain(s0, s, i, ch),
        ch.len() > 0 ==> read_fat(s, i, ch.last() as int) == 0x0FFF_FFF8,
        ch.len() <= need,
        roomy(s, i, need - ch.len()),
    ensures
        match extend_chain(s, i, ch, need) {
            (t, Some(c)) => {
                &&& spare(t, i) == spare(s, i) - (need - ch.len())
                &&& new_chain(s0, t, i, c)
                &&& c.len() == need
                &&& c.len() > 0 ==> read_fat(t, i, c.last() as int) == 0x0FFF_FFF8
            },
            (t, None) => only_tables(s0, t, i),
        },
    decreases need - ch.len(),
{
    if ch.len() < need {
        first_free_is_taken(s, i);
        match alloc_cluster(s, i) {
            (s1, None) => {},
            (s1, Some(nc)) => {
                let s2 = if ch.len() > 0 {
                    write_fat(s1, i, ch.last() as int, nc).0
                } else {
                    s1
                };
                let c1 = ch.push(nc);
                let old_ints = ints(ch);
                let new_ints = ints(c1);
                if ch.len() > 0 {
                    assert(in_range(i, old_ints[ch.len() - 1]));
                    entry_reads_back(s1, i, ch.last() as int, nc);
                }
                assert forall|k: int| 0 <= k < ch.len() implies ch[k] != nc by {
                    chain_in_use(s, i, old_ints, k);
                    assert(old_ints[k] == ch[k]);
                }
                assert(!old_ints.contains(nc as int));
                assert(read_fat(s0, i, nc as int) == 0);
                assert(new_chain(s0, s2, i, c1)) by {
                    assert forall|k: int| 0 <= k < c1.len() implies read_fat(
                        s0,
                        i,
                        (#[trigger] c1[k]) as int,
                    ) == 0 by {
                        if k < ch.len() {
                            assert(c1[k] == ch[k]);
                        }
                    }
                    assert forall|k: int| 0 <= k < new_ints.len() implies in_range(
                        i,
                        #[trigger] new_ints[k],
                    ) && chain_entry(s2, i, new_ints, k, read_fat(s2, i, new_ints[k])) by {
                        if k < ch.len() {
                            assert(new_ints[k] == old_ints[k]);
                            assert(in_range(i, old_ints[k]));
                            assert(chain_entry(s, i, old_ints, k, read_fat(s, i, old_ints[k])));
                            if k + 1 < ch.len() {
                                assert(old_ints[k] != old_ints[ch.len() - 1]);
                                assert(new_ints[k + 1] == old_ints[k + 1]);
                            }
                        }
                    }
                    assert forall|a: int, b: int| 0 <= a < b < new_ints.len() implies #[trigger] new_ints[a]
                        != #[trigger] new_ints[b] by {
                        assert(new_ints[a] == old_ints[a]);
                        if b < ch.len() {
                            assert(new_ints[b] == old_ints[b]);
                        } else {
                            assert(ch[a] != nc);
                        }
                    }
                    assert forall|d: int| in_range(i, d) && !new_ints.contains(d) implies #[trigger] read_fat(
                        s2,
                        i,
                        d,
                    ) == read_fat(s0, i, d) by {
                        assert(new_ints[ch.len() as int] == nc);
                        assert(d != nc);
                        assert(!old_ints.contains(d)) by {
                            if old_ints.contains(d) {
                                let k = choose|k: int| 0 <= k < old_ints.len() && old_ints[k] == d;
                                assert(new_ints[k] == d);
                            }
                        }
                        if ch.len() > 0 {
                            assert(old_ints[ch.len() - 1] == ch.last());
                        }
                    }
                }
                if ch.len() > 0 {
                    chain_in_use(s, i, old_ints, ch.len() - 1);
                    assert(read_fat(s1, i, ch.last() as int) == read_fat(s, i, ch.last() as int));
                    spare_same(s1, s2, i);
                }
                extended(s0, s2, i, c1, need);
            },
        }
    }
}

/// A chain that is taken has the length asked for. Its clusters were free
/// before and can be followed afterwards, and nothing else changes.
pub proof fn chain_is_taken(s: FsView, i: FatInfo, need: int)
    requires
        volume_ok(s, i),
        0 <= need,
        roomy(s, i, need),
    ensures
        match alloc_chain(s, i, need) {
            (t, Some(c)) => new_chain(s, t, i, c) && c.len() == need && spare(t, i) == spare(s, i)
                - need,
            (t, None) => only_tables(s, t, i),
        },
{
    reveal(alloc_chain);
    assert(new_chain(s, s, i, Seq::empty()));
    extended(s, s, i, Seq::empty(), need);
    match extend_chain(s, i, Seq::empty(), need) {
        (t, Some(c)) => {
            if c.len() > 0 {
                let t1 = write_fat(t, i, c.last() as int, 0x0FFF_FFF8).0;
                let ci = ints(c);
                assert(ci[c.len() - 1] == c.last());
                assert(in_range(i, ci[c.len() - 1]));
                entry_reads_back(t, i, c.last() as int, 0x0FFF_FFF8);
                assert forall|k: int| 0 <= k < ci.len() implies chain_entry(
                    t1,
                    i,
                    ci,
                    k,
                    read_fat(t1, i, #[trigger] ci[k]),
                ) by {
                    assert(in_range(i, ci[k]));
                    assert(chain_entry(t, i, ci, k, read_fat(t, i, ci[k])));
                }
                assert forall|d: int| in_range(i, d) && !ci.contains(d) implies #[trigger] read_fat(
                    t1,
                    i,
                    d,
                ) == read_fat(s, i, d) by {
                    assert(d != ci[c.len() - 1]);
                }
                spare_same(t, t1, i);
            }
        },
        (t, None) => {},
    }
}

/// The distinct clusters from the `k`-th on are linked to the end.
pub open spec fn tail_ok(s: FsView, i: FatInfo, ch: Seq<int>, k: int) -> bool {
    &&& forall|q: int| 0 <= q < ch.len() ==> in_range(i, #[trigger] ch[q])
    &&& forall|a: int, b: int| 0 <= a < b < ch.len() ==> #[trigger] ch[a] != #[trigger] ch[b]
    &&& forall|q: int|
        k <= q < ch.len() ==> chain_entry(s, i, ch, q, read_fat(s, i, #[trigger] ch[q]))
}

/// A number of a cluster goes on with a chain.
pub proof fn range_goes_on(s: FsView, i: FatInfo, c: int)
    requires
        volume_ok(s, i),
        in_range(i, c),
    ensures
        goes_on(c as u32),
        !is_eoc(c as u32),
{
}

proof fn freed_from(s: FsView, i: FatInfo, ch: Seq<int>, k: int, fuel: nat)
    requires
        volume_ok(s, i),
        tail_ok(s, i, ch, k),
        0 <= k < ch.len(),
    ensures
        ({
            let t = free_from(s, i, ch[k], fuel);
            &&& only_tables(s, t, i)
            &&& forall|d: int|
                in_range(i, d) && !ch.contains(d) ==> #[trigger] read_fat(t, i, d) == read_fat(
                    s,
                    i,
                    d,
                )
            &&& forall|q: int|
                0 <= q < k ==> read_fat(t, i, #[trigger] ch[q]) == read_fat(s, i, ch[q])
            &&& ch.len() - k <= fuel ==> forall|q: int|
                k <= q < ch.len() ==> read_fat(t, i, #[trigger] ch[q]) == 0
        }),
    decreases fuel,
{
    if fuel > 0 {
        let next = read_fat(s, i, ch[k]);
        assert(in_range(i, ch[k]));
        entry_reads_back(s, i, ch[k], 0);
        let s1 = write_fat(s, i, ch[k], 0).0;
        assert(chain_entry(s, i, ch, k, next));
        if k + 1 < ch.len() {
            assert(in_range(i, ch[k + 1]));
            range_goes_on(s, i, ch[k + 1]);
            assert forall|q: int| k + 1 <= q < ch.len() implies chain_entry(
                s1,
                i,
                ch,
                q,
                read_fat(s1, i, #[trigger] ch[q]),
            ) by {
                assert(ch[k] != ch[q]);
                assert(in_range(i, ch[q]));
                assert(chain_entry(s, i, ch, q, read_fat(s, i, ch[q])));
            }
            freed_from(s1, i, ch, k + 1, (fuel - 1) as nat);
            let t = free_from(s, i, ch[k], fuel);
            assert forall|q: int| 0 <= q < k implies read_fat(t, i, #[trigger] ch[q]) == read_fat(
                s,
                i,
                ch[q],
            ) by {
                assert(ch[q] != ch[k]);
                assert(in_range(i, ch[q]));
            }
            assert forall|q: int| k <= q < ch.len() && ch.len() - k <= fuel implies read_fat(
                t,
                i,
                #[trigger] ch[q],
            ) == 0 by {
                if q == k {
                    assert(read_fat(t, i, ch[k]) == read_fat(s1, i, ch[k]));
                }
            }
        } else {
            assert(!goes_on(next));
        }
    }
}

/// Freeing a chain frees its clusters, and changes no other entry. (Of a
/// chain of more than two million clusters the rest stays.)
pub proof fn chain_is_freed(s: FsView, i: FatInfo, ch: Seq<int>)
    requires
        volume_ok(s, i),
        chain_ok(s, i, ch),
    ensures
        ({
            let t = free_chain(s, i, ch[0] as u32);
            &&& only_tables(s, t, i)
            &&& forall|d: int|
                in_range(i, d) && !ch.contains(d) ==> #[trigger] read_fat(t, i, d) == read_fat(
                    s,
                    i,
                    d,
                )
            &&& ch.len() <= 2_000_000 ==> forall|q: int|
                0 <= q < ch.len() ==> read_fat(t, i, #[trigger] ch[q]) == 0
        }),
{
    reveal(free_chain);
    assert(in_range(i, ch[0]));
    freed_from(s, i, ch, 0, 2_000_000);
}

/// Freeing a chain that was just taken gives back every cluster: the table
/// says of each what it said before.
pub proof fn freeing_undoes_taking(s: FsView, i: FatInfo, need: int, d: int)
    requires
        volume_ok(s, i),
        1 <= need <= 2_000_000,
        roomy(s, i, need),
        alloc_chain(s, i, need).1 is Some,
        in_range(i, d),
    ensures
        ({
            let (t, c) = alloc_chain(s, i, need);
            read_fat(free_chain(t, i, c->0[0]), i, d) == read_fat(s, i, d)
        }),
{
    chain_is_taken(s, i, need);
    let (t, c) = alloc_chain(s, i, need);
    let ch = ints(c->0);
    assert(ch[0] == c->0[0]);
    chain_is_freed(t, i, ch);
    if ch.contains(d) {
        let k = choose|k: int| 0 <= k < ch.len() && ch[k] == d;
        assert(read_fat(s, i, c->0[k] as int) == 0);
        assert(read_fat(free_chain(t, i, c->0[0]), i, ch[k]) == 0);
    }
}

proof fn range_set(n: nat) -> (r: Set<int>)
    ensures
        r.finite(),
        r.len() == n,
        forall|c: int| #[trigger] r.contains(c) <==> 2 <= c < n + 2,
    decreases n,
{
    if n == 0 {
        Set::empty()
    } else {
        let r = range_set((n - 1) as nat);
        r.insert(n as int + 1)
    }
}

/// Distinct clusters are no more than the volume has.
pub proof fn at_most_all(i: FatInfo, ch: Seq<int>)
    requires
        forall|k: int| 0 <= k < ch.len() ==> in_range(i, #[trigger] ch[k]),
        forall|a: int, b: int| 0 <= a < b < ch.len() ==> #[trigger] ch[a] != #[trigger] ch[b],
    ensures
        ch.len() <= i.cluster_count,
{
    let r = range_set(i.cluster_count as nat);
    ch.unique_seq_to_set();
    assert(ch.to_set().subset_of(r)) by {
        assert forall|c: int| ch.to_set().contains(c) implies r.contains(c) by {
            let k = choose|k: int| 0 <= k < ch.len() && ch[k] == c;
            assert(in_range(i, ch[k]));
        }
    }
    vstd::set_lib::lemma_len_subset(ch.to_set(), r);
}

} // verus!
