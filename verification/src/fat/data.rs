//! File data: what is written to a chain of clusters is read from it.

use vstd::prelude::*;
use crate::bytes::{splice, zero_bytes};
use crate::fat::model::{
    chain_data, clus_data, clusters_for, fill_chain, fill_clus, goes_on, min_int, read_clus,
    read_fat, sector_of, write_clus,
};
use crate::fat::table::{chain_entry, chain_ok, in_range, ints, range_goes_on, volume_ok};
use crate::fs::{same_but_disk, FatInfo, FsView};

verus! {

/// Two sectors of clusters are the same only where cluster and place are.
pub proof fn sectors_apart(i: FatInfo, c: int, j: int, d: int, k: int)
    requires
        0 <= j < i.sec_per_clus,
        0 <= k < i.sec_per_clus,
        sector_of(i, c, j) == sector_of(i, d, k),
    ensures
        c == d,
        j == k,
{
    let z = i.sec_per_clus as int;
    assert(c == d) by (nonlinear_arith)
        requires
            0 <= j < z,
            0 <= k < z,
            (c - 2) * z + j == (d - 2) * z + k,
    ;
}

/// The sectors of clusters lie behind the tables.
pub proof fn sectors_behind(i: FatInfo, c: int, j: int)
    requires
        2 <= c,
        0 <= j,
    ensures
        sector_of(i, c, j) >= i.data_start,
{
    assert((c - 2) * i.sec_per_clus >= 0) by (nonlinear_arith)
        requires
            2 <= c,
            0 <= i.sec_per_clus,
    ;
}

/// A sector that holds `m` bytes of the data from `a` on.
pub open spec fn piece(data: Seq<u8>, a: int, m: int) -> Seq<u8> {
    splice(zero_bytes(512), 0, data.subrange(a, a + m))
}

/// The cluster holds the bytes `at .. at + n` of the data, from its sector
/// `from` on.
pub open spec fn holds(
    s: FsView,
    i: FatInfo,
    clu: int,
    data: Seq<u8>,
    at: int,
    n: int,
    from: int,
) -> bool {
    forall|q: int|
        from <= q && 512 * q < n ==> #[trigger] read_clus(s, i, clu, q) == Some(
            piece(data, at + 512 * q, min_int(n - 512 * q, 512)),
        )
}

proof fn cluster_filled(
    s: FsView,
    i: FatInfo,
    clu: int,
    data: Seq<u8>,
    at: int,
    from: int,
    n: int,
)
    requires
        0 <= from,
        n <= 512 * i.sec_per_clus,
        0 <= at,
        at + n <= data.len(),
        fill_clus(s, i, clu, data, at, 512 * from, n).1,
    ensures
        ({
            let t = fill_clus(s, i, clu, data, at, 512 * from, n).0;
            &&& same_but_disk(s, t)
            &&& s.disk.wf() ==> t.disk.wf()
            &&& holds(t, i, clu, data, at, n, from)
            &&& forall|l: int|
                (forall|q: int| from <= q < i.sec_per_clus ==> l != #[trigger] sector_of(i, clu, q))
                    ==> #[trigger] t.raw_read(l) == s.raw_read(l)
        }),
    decreases n - 512 * from,
{
    if 512 * from < n {
        let m = min_int(n - 512 * from, 512);
        let b = piece(data, at + 512 * from, m);
        assert(b == splice(
            zero_bytes(512),
            0,
            data.subrange(at + 512 * from, at + 512 * from + m),
        ));
        assert(512 * from / 512 == from);
        let s1 = write_clus(s, i, clu, from, b).0;
        assert(s1.disk.sec.dom() =~= s.disk.sec.dom());
        assert(b.len() == 512);
        if m == 512 {
            assert(512 * from + m == 512 * (from + 1));
            cluster_filled(s1, i, clu, data, at, from + 1, n);
        } else {
            assert(fill_clus(s1, i, clu, data, at, 512 * from + m, n) == (s1, true));
        }
        let t = fill_clus(s, i, clu, data, at, 512 * from, n).0;
        assert(t.raw_read(sector_of(i, clu, from)) == s1.raw_read(sector_of(i, clu, from))) by {
            if m == 512 {
                assert forall|q: int| from + 1 <= q < i.sec_per_clus implies sector_of(i, clu, from)
                    != #[trigger] sector_of(i, clu, q) by {}
            }
        }
        assert(holds(t, i, clu, data, at, n, from)) by {
            assert forall|q: int| from <= q && 512 * q < n implies #[trigger] read_clus(
                t,
                i,
                clu,
                q,
            ) == Some(piece(data, at + 512 * q, min_int(n - 512 * q, 512))) by {
                if q > from {
                    assert(m == 512);
                }
            }
        }
        assert forall|l: int|
            (forall|q: int| from <= q < i.sec_per_clus ==> l != #[trigger] sector_of(i, clu, q)) implies #[trigger] t.raw_read(
            l,
        ) == s.raw_read(l) by {
            assert(l != sector_of(i, clu, from));
            assert(s1.raw_read(l) == s.raw_read(l));
        }
    }
}

proof fn cluster_read(
    s: FsView,
    i: FatInfo,
    clu: int,
    data: Seq<u8>,
    at: int,
    from: int,
    n: int,
)
    requires
        0 <= from,
        0 <= at,
        at + n <= data.len(),
        holds(s, i, clu, data, at, n, 0),
    ensures
        512 * from <= n ==> clus_data(s, i, clu, 512 * from, n) == (
            data.subrange(at + 512 * from, at + n),
            false,
        ),
    decreases n - 512 * from,
{
    if 512 * from < n {
        let m = min_int(n - 512 * from, 512);
        assert(512 * from / 512 == from);
        let b = read_clus(s, i, clu, from)->0;
        assert(read_clus(s, i, clu, from) == Some(piece(data, at + 512 * from, m)));
        assert(b.subrange(0, m) =~= data.subrange(at + 512 * from, at + 512 * from + m));
        if m == 512 {
            assert(512 * from + m == 512 * (from + 1));
            cluster_read(s, i, clu, data, at, from + 1, n);
        } else {
            assert(clus_data(s, i, clu, 512 * from + m, n) == (Seq::<u8>::empty(), false));
        }
        assert(data.subrange(at + 512 * from, at + 512 * from + m) + data.subrange(
            at + 512 * from + m,
            at + n,
        ) =~= data.subrange(at + 512 * from, at + n));
        assert(data.subrange(at + n, at + n) =~= Seq::empty());
    } else if 512 * from == n {
        assert(data.subrange(at + 512 * from, at + n) =~= Seq::empty());
    }
}

/// How many bytes the `k`-th cluster takes.
pub open spec fn share(i: FatInfo, len: int, k: int) -> int {
    min_int(len - k * (i.sec_per_clus * 512), i.sec_per_clus * 512)
}

/// The clusters for `len` bytes are just enough.
pub proof fn enough(i: FatInfo, len: int)
    requires
        1 <= i.sec_per_clus,
        0 <= len,
    ensures
        ({
            let need = clusters_for(i, len);
            let size = i.sec_per_clus * 512;
            &&& 0 <= need <= len
            &&& len <= need * size
            &&& forall|k: int| 0 <= k < need ==> #[trigger] (k * size) < len
            &&& len > 0 ==> need >= 1
            &&& len == 0 ==> need == 0
        }),
{
    let size = i.sec_per_clus * 512;
    let need = clusters_for(i, len);
    let x = len + size - 1;
    assert(need == x / size);
    vstd::arithmetic::div_mod::lemma_fundamental_div_mod(x, size);
    assert(x == size * need + x % size);
    assert(0 <= x % size < size);
    assert(size * need == need * size) by (nonlinear_arith);
    assert(need >= 0 && (len > 0 ==> need >= 1) && (len == 0 ==> need == 0)) by (nonlinear_arith)
        requires
            x == size * need + x % size,
            0 <= x % size < size,
            x == len + size - 1,
            0 <= len,
            size >= 512,
    ;
    assert forall|k: int| 0 <= k < need implies #[trigger] (k * size) < len by {
        assert(k * size <= (need - 1) * size) by (nonlinear_arith)
            requires
                k <= need - 1,
                size >= 512,
        ;
        assert((need - 1) * size == need * size - size) by (nonlinear_arith);
    }
    assert(need <= len) by (nonlinear_arith)
        requires
            x == size * need + x % size,
            0 <= x % size < size,
            x == len + size - 1,
            0 <= len,
            0 <= need,
            size >= 512,
    ;
}

proof fn filled_from(s: FsView, i: FatInfo, chain: Seq<u32>, data: Seq<u8>, k: int)
    requires
        1 <= i.sec_per_clus,
        0 <= k <= chain.len(),
        chain.len() == clusters_for(i, data.len() as int),
        forall|a: int, b: int| 0 <= a < b < chain.len() ==> #[trigger] chain[a] != #[trigger] chain[b],
        fill_chain(s, i, chain, data, k).1,
    ensures
        ({
            let t = fill_chain(s, i, chain, data, k).0;
            let size = i.sec_per_clus * 512;
            &&& same_but_disk(s, t)
            &&& s.disk.wf() ==> t.disk.wf()
            &&& forall|q: int|
                k <= q < chain.len() ==> holds(
                    t,
                    i,
                    (#[trigger] chain[q]) as int,
                    data,
                    q * size,
                    share(i, data.len() as int, q),
                    0,
                )
            &&& forall|l: int|
                (forall|q: int, j: int|
                    k <= q < chain.len() && 0 <= j < i.sec_per_clus ==> l != #[trigger] sector_of(
                        i,
                        #[trigger] chain[q] as int,
                        j,
                    )) ==> #[trigger] t.raw_read(l) == s.raw_read(l)
        }),
    decreases chain.len() - k,
{
    if k < chain.len() {
        let size = i.sec_per_clus * 512;
        enough(i, data.len() as int);
        let clu = chain[k] as int;
        let n = share(i, data.len() as int, k);
        assert(k * size < data.len());
        assert(0 <= k * size) by (nonlinear_arith)
            requires
                0 <= k,
                size >= 512,
        ;
        let s1 = fill_clus(s, i, clu, data, k * size, 0, n).0;
        assert(512 * 0 == 0);
        cluster_filled(s, i, clu, data, k * size, 0, n);
        filled_from(s1, i, chain, data, k + 1);
        let t = fill_chain(s, i, chain, data, k).0;
        assert forall|q: int| k <= q < chain.len() implies holds(
            t,
            i,
            (#[trigger] chain[q]) as int,
            data,
            q * size,
            share(i, data.len() as int, q),
            0,
        ) by {
            if q == k {
                assert(holds(s1, i, clu, data, k * size, n, 0));
                assert forall|p: int| 0 <= p && 512 * p < n implies #[trigger] read_clus(
                    t,
                    i,
                    clu,
                    p,
                ) == Some(piece(data, k * size + 512 * p, min_int(n - 512 * p, 512))) by {
                    let l = sector_of(i, clu, p);
                    assert(read_clus(s1, i, clu, p) == Some(
                        piece(data, k * size + 512 * p, min_int(n - 512 * p, 512)),
                    ));
                    assert forall|r: int, j: int|
                        k + 1 <= r < chain.len() && 0 <= j < i.sec_per_clus implies l
                        != #[trigger] sector_of(i, #[trigger] chain[r] as int, j) by {
                        if l == sector_of(i, chain[r] as int, j) {
                            sectors_apart(i, clu, p, chain[r] as int, j);
                            assert(chain[k] != chain[r]);
                        }
                    }
                    assert(t.raw_read(l) == s1.raw_read(l));
                }
            }
        }
        assert forall|l: int|
            (forall|q: int, j: int|
                k <= q < chain.len() && 0 <= j < i.sec_per_clus ==> l != #[trigger] sector_of(
                    i,
                    #[trigger] chain[q] as int,
                    j,
                )) implies #[trigger] t.raw_read(l) == s.raw_read(l) by {
            assert forall|q: int| 0 <= q < i.sec_per_clus implies l != #[trigger] sector_of(
                i,
                clu,
                q,
            ) by {
                assert(chain[k] as int == clu);
            }
            assert(s1.raw_read(l) == s.raw_read(l));
        }
    }
}

/// Data written to a list of distinct clusters stands there, and no other
/// sector changes.
pub proof fn chain_filled(s: FsView, i: FatInfo, chain: Seq<u32>, data: Seq<u8>)
    requires
        1 <= i.sec_per_clus,
        chain.len() == clusters_for(i, data.len() as int),
        forall|a: int, b: int| 0 <= a < b < chain.len() ==> #[trigger] chain[a] != #[trigger] chain[b],
        fill_chain(s, i, chain, data, 0).1,
    ensures
        ({
            let t = fill_chain(s, i, chain, data, 0).0;
            &&& same_but_disk(s, t)
            &&& s.disk.wf() ==> t.disk.wf()
            &&& stands(t, i, chain, data)
            &&& forall|l: int|
                (forall|q: int, j: int|
                    0 <= q < chain.len() && 0 <= j < i.sec_per_clus ==> l != #[trigger] sector_of(
                        i,
                        #[trigger] chain[q] as int,
                        j,
                    )) ==> #[trigger] t.raw_read(l) == s.raw_read(l)
        }),
{
    filled_from(s, i, chain, data, 0);
}

/// The data stands in the clusters of the list.
pub open spec fn stands(s: FsView, i: FatInfo, chain: Seq<u32>, data: Seq<u8>) -> bool {
    forall|q: int|
        0 <= q < chain.len() ==> holds(
            s,
            i,
            (#[trigger] chain[q]) as int,
            data,
            q * (i.sec_per_clus * 512),
            share(i, data.len() as int, q),
            0,
        )
}

proof fn read_from(s: FsView, i: FatInfo, chain: Seq<u32>, data: Seq<u8>, k: int, fuel: nat)
    requires
        volume_ok(s, i),
        0 <= k < chain.len(),
        chain.len() == clusters_for(i, data.len() as int),
        chain_ok(s, i, ints(chain)),
        stands(s, i, chain, data),
        fuel >= chain.len() - k,
    ensures
        chain_data(
            s,
            i,
            chain[k] as int,
            data.len() - k * (i.sec_per_clus * 512),
            fuel,
        ) == (data.skip(k * (i.sec_per_clus * 512)), false),
    decreases chain.len() - k,
{
    let size = i.sec_per_clus * 512;
    let len = data.len() as int;
    enough(i, len);
    let at = k * size;
    assert(at < len);
    assert(0 <= at) by (nonlinear_arith)
        requires
            0 <= k,
            size >= 512,
            at == k * size,
    ;
    let n = share(i, len, k);
    let left = len - at;
    let clu = chain[k] as int;
    assert(holds(s, i, clu, data, at, n, 0));
    assert(512 * 0 == 0);
    cluster_read(s, i, clu, data, at, 0, n);
    let ch = ints(chain);
    let next = read_fat(s, i, ch[k]);
    assert(chain_entry(s, i, ch, k, next));
    assert((k + 1) * size == at + size) by (nonlinear_arith)
        requires
            at == k * size,
    ;
    if k + 1 < chain.len() {
        assert(in_range(i, ch[k + 1]));
        range_goes_on(s, i, ch[k + 1]);
        assert((k + 1) * size < len);
        assert(n == size);
        read_from(s, i, chain, data, k + 1, (fuel - 1) as nat);
        assert(data.subrange(at, at + n) + data.skip(at + n) =~= data.skip(at));
    } else {
        assert(chain.len() * size == at + size);
        assert(n == left);
        assert(!goes_on(next));
        assert(data.subrange(at, at + n) =~= data.skip(at));
    }
}

/// Data that stands in a chain is read from it.
pub proof fn chain_reads_back(s: FsView, i: FatInfo, chain: Seq<u32>, data: Seq<u8>, fuel: nat)
    requires
        volume_ok(s, i),
        data.len() > 0,
        chain.len() == clusters_for(i, data.len() as int),
        chain_ok(s, i, ints(chain)),
        stands(s, i, chain, data),
        fuel >= chain.len(),
    ensures
        chain_data(s, i, chain[0] as int, data.len() as int, fuel) == (data, false),
{
    enough(i, data.len() as int);
    read_from(s, i, chain, data, 0, fuel);
    assert(0 * (i.sec_per_clus * 512) == 0);
    assert(data.skip(0) =~= data);
}

} // verus!
