//! What making a FAT volume promises: it mounts, and its directories and table
//! agree.

use vstd::prelude::*;
use crate::bytes::{put16, put16_then_read, put32, put32_then_read, u16_at, u32_at, zero_bytes};
use crate::fat::keeping::{dots_sector, dots_slots, dots_written, hung, listed_in, names_dir};
use crate::fat::laws::{data_keeps_tables, entry_written, one_sector};
use crate::fat::model::{
    alloc_cluster, boot_info, boot_sector, clus_list, clusters_left, dir_list, dotdot_in_chain,
    dotdot_in_clus, dotted, entry_at, fat_off, fat_sector, first_table_sector, fresh_info,
    fresh_sectors, fsinfo_sector, is_eoc, make_seed, make_seeds, min_int, mkfs_at, most_sectors,
    parent_of, part_83, put_all, read_clus, read_fat, sector_list, sector_of, seeds, table_size,
    unused, upper, with_entry, write_clus, write_dots, write_entry, zero_sectors, Entry,
};
use crate::fat::slots::entry_entered;
use crate::fat::sound::{chains_ok, entry_known, names_ok, sound};
use crate::fat::table::{
    chain_entry, chain_ok, first_free_is_taken, in_range, spare, spare_below, spare_counts,
    spare_grows, spare_positive, volume_ok,
};
use crate::fat::tidy::{chain_tidy, clus_tidy, ends_at, sector_tidy, tidy_at};
use crate::fs::{same_but_disk, FatInfo, FsErr, FsKind, FsView};

verus! {

/// The volumes that are made.
pub open spec fn can_be_made(i: FatInfo) -> bool {
    &&& i.sec_per_clus == 1
    &&& i.rsvc == 32
    &&& i.num_fats == 2
    &&& i.root_clus == 2
    &&& i.data_start == 32 + 2 * i.fat_size
    &&& 65525 <= i.cluster_count <= 0x0FFF_FFF0
    &&& i.data_start + i.cluster_count >= 70000
    &&& i.fat_size >= 1
}

// ---------- sectors ----------

pub(crate) proof fn sector_put(s: FsView, l: int, data: Seq<u8>)
    requires
        s.disk.wf(),
        data.len() == 512,
        s.raw_write(l, data) is Some,
    ensures
        one_sector(s, s.raw_write(l, data)->0, l),
        s.raw_write(l, data)->0.raw_read(l) == Some(data),
{
    let t = s.raw_write(l, data)->0;
    assert(t.disk.sec.dom() =~= s.disk.sec.dom());
}

proof fn zeroed(s: FsView, k: int, n: int)
    requires
        s.disk.wf(),
        zero_sectors(s, k, n).1,
    ensures
        ({
            let t = zero_sectors(s, k, n).0;
            &&& same_but_disk(s, t)
            &&& t.disk.wf()
            &&& forall|l: int| k <= l < n ==> #[trigger] t.raw_read(l) == Some(zero_bytes(512))
            &&& forall|l: int| !(k <= l < n) ==> #[trigger] t.raw_read(l) == s.raw_read(l)
        }),
    decreases n - k,
{
    if k < n {
        sector_put(s, k, zero_bytes(512));
        let s1 = s.raw_write(k, zero_bytes(512))->0;
        zeroed(s1, k + 1, n);
    }
}

/// The four sectors that differ from zero.
#[verifier::spinoff_prover]
proof fn sectors_put(s: FsView, i: FatInfo)
    requires
        s.disk.wf(),
        can_be_made(i),
        put_all(s, fresh_sectors(i)).1,
    ensures
        ({
            let t = put_all(s, fresh_sectors(i)).0;
            &&& same_but_disk(s, t)
            &&& t.disk.wf()
            &&& t.raw_read(0) == Some(boot_sector(i))
            &&& t.raw_read(32) == Some(first_table_sector())
            &&& t.raw_read(32 + i.fat_size as int) == Some(first_table_sector())
            &&& forall|l: int|
                l != 0 && l != 1 && l != 32 && l != 32 + i.fat_size ==> #[trigger] t.raw_read(l)
                    == s.raw_read(l)
        }),
{
    let list = fresh_sectors(i);
    assert(boot_sector(i).len() == 512);
    assert(fsinfo_sector().len() == 512);
    assert(first_table_sector().len() == 512);
    let l1 = list.skip(1);
    let l2 = l1.skip(1);
    let l3 = l2.skip(1);
    let l4 = l3.skip(1);
    assert(l1[0] == list[1] && l2[0] == list[2] && l3[0] == list[3] && l4.len() == 0);
    let s1 = s.raw_write(0, boot_sector(i))->0;
    assert(put_all(s, list) == put_all(s1, l1));
    sector_put(s, 0, boot_sector(i));
    let s2 = s1.raw_write(1, fsinfo_sector())->0;
    assert(put_all(s1, l1) == put_all(s2, l2));
    sector_put(s1, 1, fsinfo_sector());
    let s3 = s2.raw_write(32, first_table_sector())->0;
    assert(put_all(s2, l2) == put_all(s3, l3));
    sector_put(s2, 32, first_table_sector());
    let s4 = s3.raw_write(32 + i.fat_size as int, first_table_sector())->0;
    assert(put_all(s3, l3) == put_all(s4, l4));
    sector_put(s3, 32 + i.fat_size as int, first_table_sector());
    assert(put_all(s4, l4) == (s4, true));
}

// ---------- the table ----------

/// The entries of the first table sector.
proof fn first_entries(c: int)
    requires
        0 <= c < 128,
    ensures
        first_table_sector().len() == 512,
        u32_at(first_table_sector(), fat_off(c)) == (if c == 0 {
            0x0FFF_FFF8u32
        } else if c <= 2 {
            0x0FFF_FFFFu32
        } else {
            0u32
        }),
{
    let z = zero_bytes(512);
    let a = put32(z, 0, 0x0FFF_FFF8);
    let b = put32(a, 4, 0x0FFF_FFFF);
    let d = put32(b, 8, 0x0FFF_FFFF);
    put32_then_read(z, 0, 0x0FFF_FFF8);
    put32_then_read(a, 4, 0x0FFF_FFFF);
    put32_then_read(b, 8, 0x0FFF_FFFF);
    assert(forall|k: int| 0 <= k < 4 ==> d[k] == a[k]);
    assert(forall|k: int| 4 <= k < 8 ==> d[k] == b[k]);
    if c > 2 {
        let o = 4 * c;
        assert(d[o] == 0 && d[o + 1] == 0 && d[o + 2] == 0 && d[o + 3] == 0);
    }
}

/// The table with the root and `k` directories behind it.
pub open spec fn table_with(s: FsView, i: FatInfo, k: int) -> bool {
    &&& is_eoc(read_fat(s, i, 2))
    &&& forall|c: int| 3 <= c < 3 + k ==> #[trigger] read_fat(s, i, c) == 0x0FFF_FFF8
    &&& forall|c: int| 3 + k <= c && in_range(i, c) ==> #[trigger] read_fat(s, i, c) == 0
}

proof fn table_written(s: FsView, i: FatInfo)
    requires
        can_be_made(i),
        s.disk.wf(),
        s.raw_read(32) == Some(first_table_sector()),
        forall|l: int|
            32 < l < 32 + i.fat_size ==> #[trigger] s.raw_read(l) == Some(zero_bytes(512)),
    ensures
        table_with(s, i, 0),
{
    assert forall|c: int| in_range(i, c) implies #[trigger] read_fat(s, i, c) == (if c
        == 2 {
        0x0FFF_FFFFu32
    } else {
        0u32
    }) by {
        let l = fat_sector(i, c);
        if c < 128 {
            assert(l == 32);
            first_entries(c);
        } else {
            assert(32 < l < 32 + i.fat_size);
            assert(s.raw_read(l) == Some(zero_bytes(512)));
        }
    }
    assert(read_fat(s, i, 2) == 0x0FFF_FFFF);
}

// ---------- the directories ----------

/// The entry of the `k`-th directory in the root.
pub open spec fn seed_entry(k: int) -> Entry {
    Entry { name: part_83(seeds()[k]), attr: 16, cluster: (3 + k) as u32, size: 0 }
}

/// The sector of the root directory with its first `k` entries.
pub open spec fn root_sector(k: int) -> Seq<u8>
    decreases k,
{
    if k <= 0 {
        zero_bytes(512)
    } else {
        with_entry(root_sector(k - 1), k - 1, seed_entry(k - 1))
    }
}

/// A fresh volume on which `k` directories have been made.
pub open spec fn seeded(s: FsView, i: FatInfo, k: int) -> bool {
    &&& can_be_made(i)
    &&& volume_ok(s, i)
    &&& table_with(s, i, k)
    &&& s.raw_read(0) == Some(boot_sector(i))
    &&& s.raw_read(i.data_start as int) == Some(root_sector(k))
    &&& forall|j: int|
        0 <= j < k ==> #[trigger] s.raw_read(i.data_start + 1 + j) == Some(dots_sector((3 + j) as u32, 0))
}

proof fn seed_names(k: int)
    requires
        0 <= k < 6,
    ensures
        seed_entry(k).name.len() == 11,
        65 <= seed_entry(k).name[0] <= 90,
{
    assert(forall|j: int| 0 <= j < 6 ==> 3 <= #[trigger] seeds()[j].len() <= 4);
    assert(forall|j: int| 0 <= j < 6 ==> 65 <= (#[trigger] seeds()[j])[0] <= 90);
    assert(seed_entry(k).name[0] == upper(seeds()[k][0]));
}

proof fn root_len(k: int)
    requires
        0 <= k <= 6,
    ensures
        root_sector(k).len() == 512,
    decreases k,
{
    if k > 0 {
        root_len(k - 1);
        seed_names(k - 1);
        entry_entered(root_sector(k - 1), k - 1, seed_entry(k - 1));
    }
}

#[verifier::spinoff_prover]
proof fn seed_made(s: FsView, i: FatInfo, k: int)
    requires
        seeded(s, i, k),
        0 <= k < 6,
        make_seed(s, i, k).1 is Ok,
    ensures
        seeded(make_seed(s, i, k).0, i, k + 1),
        same_but_disk(s, make_seed(s, i, k).0),
{
    reveal(make_seed);
    assert(in_range(i, 3 + k));
    spare_counts(s, i, 3 + k, i.cluster_count + 2);
    first_free_is_taken(s, i);
    let (s1, r1) = alloc_cluster(s, i);
    let nc = r1->0;
    assert(nc == 3 + k) by {
        if nc > 3 + k {
            assert(read_fat(s, i, 3 + k) != 0);
        }
        if nc == 2 {
            assert(is_eoc(read_fat(s, i, 2)));
        }
    }
    let lba = sector_of(i, nc as int, 0);
    assert(lba == i.data_start + 1 + k);
    sector_put(s1, lba, zero_bytes(512));
    let s2 = write_clus(s1, i, nc as int, 0, zero_bytes(512)).0;
    data_keeps_tables(s1, s2, i, lba);
    dots_written(s2, i, nc, 0);
    let s3 = write_dots(s2, i, nc, 0).0;
    data_keeps_tables(s2, s3, i, lba);
    let e = seed_entry(k);
    seed_names(k);
    let d = i.data_start as int;
    entry_written(s3, d, k, e);
    let t = make_seed(s, i, k).0;
    assert(t == write_entry(s3, d, k, e).0);
    data_keeps_tables(s3, t, i, d);
    assert(s3.raw_read(d) == s.raw_read(d));
    assert(root_sector(k + 1) == with_entry(root_sector(k), k, e));
    assert forall|c: int| in_range(i, c) implies #[trigger] read_fat(t, i, c) == read_fat(
        s1,
        i,
        c,
    ) by {
        assert(read_fat(s3, i, c) == read_fat(s2, i, c));
        assert(read_fat(s2, i, c) == read_fat(s1, i, c));
    }
    assert(table_with(t, i, k + 1)) by {
        assert(in_range(i, 2));
        assert(read_fat(t, i, 2) == read_fat(s1, i, 2));
        assert forall|c: int| 3 <= c < 3 + (k + 1) implies #[trigger] read_fat(t, i, c) == 0x0FFF_FFF8 by {
            assert(in_range(i, c));
            assert(read_fat(t, i, c) == read_fat(s1, i, c));
            if c < 3 + k {
                assert(read_fat(s1, i, c) == read_fat(s, i, c));
            }
        }
        assert forall|c: int| 3 + (k + 1) <= c && in_range(i, c) implies #[trigger] read_fat(t, i, c)
            == 0 by {
            assert(read_fat(t, i, c) == read_fat(s1, i, c));
            assert(read_fat(s1, i, c) == read_fat(s, i, c));
        }
    }
    assert forall|j: int| 0 <= j < k + 1 implies #[trigger] t.raw_read(d + 1 + j) == Some(
        dots_sector((3 + j) as u32, 0),
    ) by {
        assert(t.raw_read(d + 1 + j) == s3.raw_read(d + 1 + j));
        if j < k {
            assert(s3.raw_read(d + 1 + j) == s2.raw_read(d + 1 + j));
            assert(s2.raw_read(d + 1 + j) == s1.raw_read(d + 1 + j));
            assert(s1.raw_read(d + 1 + j) == s.raw_read(d + 1 + j));
        }
    }
}

proof fn seeds_made(s: FsView, i: FatInfo, k: int)
    requires
        seeded(s, i, k),
        0 <= k <= 6,
        make_seeds(s, i, k).1 is Ok,
    ensures
        seeded(make_seeds(s, i, k).0, i, 6),
        same_but_disk(s, make_seeds(s, i, k).0),
    decreases 6 - k,
{
    if k < 6 {
        seed_made(s, i, k);
        seeds_made(make_seed(s, i, k).0, i, k + 1);
    }
}

// ---------- what is found in them ----------

/// What stands in slot `k` of the root directory with `m` entries.
proof fn root_slot(m: int, k: int)
    requires
        0 <= m <= 6,
        0 <= k < 16,
    ensures
        root_sector(m).len() == 512,
        k < m ==> entry_at(root_sector(m), 32 * k) == seed_entry(k) && root_sector(m)[32 * k]
            == seed_entry(k).name[0] && root_sector(m)[32 * k + 11] == 16,
        k >= m ==> root_sector(m)[32 * k] == 0,
    decreases m,
{
    if m > 0 {
        root_slot(m - 1, k);
        seed_names(m - 1);
        let b = root_sector(m - 1);
        let c = root_sector(m);
        entry_entered(b, m - 1, seed_entry(m - 1));
        if k < m - 1 {
            assert(forall|j: int| 32 * k <= j < 32 * k + 32 ==> c[j] == b[j]);
            assert(c.subrange(32 * k, 32 * k + 11) =~= b.subrange(32 * k, 32 * k + 11));
            assert(entry_at(c, 32 * k) =~= entry_at(b, 32 * k));
        }
    }
}

/// The list of the root directory from its `k`-th entry on.
proof fn root_list(k: int)
    requires
        0 <= k <= 6,
    ensures
        sector_list(root_sector(6), k) == (
            Seq::new((6 - k) as nat, |j: int| seed_entry(k + j)),
            true,
        ),
    decreases 6 - k,
{
    let b = root_sector(6);
    root_slot(6, k);
    if k < 6 {
        root_list(k + 1);
        seed_names(k);
        let rest = sector_list(b, k + 1).0;
        let e = seed_entry(k);
        assert(!unused(b, 32 * k) && !dotted(b, 32 * k));
        assert(sector_list(b, k).0 == seq![e] + rest);
        assert(seq![e] + rest =~= Seq::new((6 - k) as nat, |j: int| seed_entry(k + j)));
    } else {
        assert(sector_list(b, 6).0 =~= Seq::new(0nat, |j: int| seed_entry(k + j)));
    }
}

/// The directories of a fresh volume, each of one cluster.
pub open spec fn fresh_dirs() -> Map<u32, Seq<int>> {
    Map::new(|c: u32| 2 <= c <= 8, |c: u32| seq![c as int])
}

proof fn fresh_contents(s: FsView, i: FatInfo)
    requires
        seeded(s, i, 6),
    ensures
        dir_list(s, i, 2) == Seq::new(6, |j: int| seed_entry(j)),
        forall|c: u32| 3 <= c <= 8 ==> #[trigger] dir_list(s, i, c as int).len() == 0,
        forall|c: u32| 2 <= c <= 8 ==> #[trigger] parent_of(s, i, c) == 2,
{
    reveal(dir_list);
    reveal(parent_of);
    root_list(0);
    root_slot(6, 0);
    let d = i.data_start as int;
    assert(read_clus(s, i, 2, 0) == s.raw_read(d));
    assert(clus_list(s, i, 2, 0) == (sector_list(root_sector(6), 0).0, true));
    assert(dir_list(s, i, 2) == sector_list(root_sector(6), 0).0);
    assert(dir_list(s, i, 2) =~= Seq::new(6, |j: int| seed_entry(j)));
    assert forall|c: u32| 3 <= c <= 8 implies #[trigger] dir_list(s, i, c as int).len() == 0 && parent_of(
        s,
        i,
        c,
    ) == 2 by {
        dots_slots(c, 0);
        let j = c - 3;
        assert(s.raw_read(d + 1 + j) == Some(dots_sector((3 + j) as u32, 0)));
        assert(read_clus(s, i, c as int, 0) == Some(dots_sector(c, 0)));
        assert(clus_list(s, i, c as int, 0) == (Seq::<Entry>::empty(), true));
        assert(dotdot_in_clus(s, i, c as int, 0) == Some(0u32));
        assert(dotdot_in_chain(s, i, c as int, i.cluster_count as nat) == Some(0u32));
    }
    assert forall|c: u32| 2 <= c <= 8 implies #[trigger] parent_of(s, i, c) == 2 by {
        if c > 2 {
            assert(dir_list(s, i, c as int).len() == 0);
        }
    }
}

/// No sector of a fresh directory has remains behind its end.
proof fn fresh_tidy(s: FsView, i: FatInfo, c: u32)
    requires
        seeded(s, i, 6),
        2 <= c <= 8,
    ensures
        chain_tidy(s, i, seq![c as int]),
{
    let ch = seq![c as int];
    let d = i.data_start as int;
    let b = if c == 2 {
        root_sector(6)
    } else {
        dots_sector(c, 0)
    };
    assert(read_clus(s, i, c as int, 0) == Some(b)) by {
        if c > 2 {
            let j = c - 3;
            assert(s.raw_read(d + 1 + j) == Some(dots_sector((3 + j) as u32, 0)));
        }
    }
    assert(sector_tidy(b)) by {
        if c == 2 {
            assert forall|k: int, r: int| 0 <= k <= r < 16 && #[trigger] ends_at(b, k) implies #[trigger] ends_at(
                b,
                r,
            ) by {
                root_slot(6, k);
                root_slot(6, r);
                if k < 6 {
                    seed_names(k);
                }
            }
        } else {
            dots_slots(c, 0);
        }
    }
    assert forall|p: int| 0 <= p < ch.len() implies clus_tidy(s, i, #[trigger] ch[p]) by {
        assert(ch[p] == c);
        assert(tidy_at(s, i, c as int, 0));
    }
}

proof fn fresh_tree(s: FsView, i: FatInfo)
    requires
        seeded(s, i, 6),
    ensures
        chains_ok(s, i, fresh_dirs(), Map::empty()),
        names_ok(s, i, fresh_dirs(), Map::empty()),
        hung(s, i, fresh_dirs()),
{
    let dirs = fresh_dirs();
    let files = Map::<u32, Seq<int>>::empty();
    fresh_contents(s, i);
    assert forall|c: u32| #[trigger] dirs.contains_key(c) implies chain_ok(s, i, dirs[c])
        && dirs[c][0] == c && chain_tidy(s, i, dirs[c]) && dirs.contains_key(parent_of(s, i, c)) by {
        let ch = dirs[c];
        assert(ch == seq![c as int]);
        assert(in_range(i, c as int));
        fresh_tidy(s, i, c);
        if c > 2 {
            assert(read_fat(s, i, c as int) == 0x0FFF_FFF8);
        }
        assert(is_eoc(read_fat(s, i, c as int)));
        assert forall|k: int| 0 <= k < ch.len() implies chain_entry(
            s,
            i,
            ch,
            k,
            read_fat(s, i, #[trigger] ch[k]),
        ) by {
            assert(ch[k] == c);
        }
    }
    assert forall|c: u32, k: int| dirs.contains_key(c) && 0 <= k < dir_list(s, i, c as int).len() implies c
        == 2 && #[trigger] dir_list(s, i, c as int)[k] == seed_entry(k) && entry_known(
        i,
        dirs,
        files,
        dir_list(s, i, c as int)[k],
    ) by {
        if c != 2 {
            assert(dir_list(s, i, c as int).len() == 0);
        }
        assert(seed_entry(k).attr / 16 % 2 == 1);
    }
    assert forall|x: u32| #[trigger] dirs.contains_key(x) && x != i.root_clus implies listed_in(
        s,
        i,
        parent_of(s, i, x),
        x,
    ) by {
        let k = x - 3;
        assert(dir_list(s, i, 2)[k] == seed_entry(k));
        assert(seed_entry(k).attr / 16 % 2 == 1);
        assert(names_dir(dir_list(s, i, 2)[k], x));
    }
}

// ---------- the mounted volume ----------

/// The boot sector of a fresh volume describes it.
#[verifier::spinoff_prover]
proof fn boot_fields(i: FatInfo)
    requires
        can_be_made(i),
        i.data_start + i.cluster_count <= u32::MAX,
    ensures
        boot_info(boot_sector(i)) == Ok::<FatInfo, FsErr>(i),
{
    let b = boot_sector(i);
    let tot = (i.data_start + i.cluster_count) as u32;
    let z = zero_bytes(512);
    put16_then_read(z, 11, 512);
    put16_then_read(z, 14, 32);
    put32_then_read(z, 32, tot);
    put32_then_read(z, 36, i.fat_size);
    put32_then_read(z, 44, 2);
    let f11 = put16(z, 11, 512);
    let f14 = put16(z, 14, 32);
    let f32_ = put32(z, 32, tot);
    let f36 = put32(z, 36, i.fat_size);
    let f44 = put32(z, 44, 2);
    assert(b.len() == 512);
    assert(b[510] == 0x55 && b[511] == 0xAA);
    assert(b[13] == 1 && b[16] == 2);
    assert(b[11] == f11[11] && b[12] == f11[12]);
    assert(b[14] == f14[14] && b[15] == f14[15]);
    assert(b[22] == 0 && b[23] == 0);
    assert(b[32] == f32_[32] && b[33] == f32_[33] && b[34] == f32_[34] && b[35] == f32_[35]);
    assert(b[36] == f36[36] && b[37] == f36[37] && b[38] == f36[38] && b[39] == f36[39]);
    assert(b[44] == f44[44] && b[45] == f44[45] && b[46] == f44[46] && b[47] == f44[47]);
    assert(u16_at(b, 11) == 512 && u16_at(b, 14) == 32 && u16_at(b, 22) == 0);
    assert(u32_at(b, 32) == tot && u32_at(b, 36) == i.fat_size && u32_at(b, 44) == 2);
}

/// A volume that was made is sound: the boot sector describes it, and its
/// directories are the root and six below it.
#[verifier::spinoff_prover]
pub proof fn fresh_volume_is_sound(s: FsView, base: u32)
    requires
        s.disk.wf(),
        s.disk.fixed == Set::<int>::empty(),
        mkfs_at(s, base).1 is Ok,
    ensures
        ({
            let t = mkfs_at(s, base).0;
            let i = fresh_info(s.dev->0)->Ok_0;
            &&& t.mount == Some(FsKind::Fat)
            &&& t.base == base
            &&& t.fat == Some(i)
            &&& sound(t, i, fresh_dirs(), Map::empty())
            &&& hung(t, i, fresh_dirs())
            &&& i.root_clus == 2
            &&& dir_list(t, i, 2).len() == 6
            &&& forall|k: int|
                0 <= k < 6 ==> #[trigger] dir_list(t, i, 2)[k] == seed_entry(k)
            &&& spare(t, i) >= 1000
        }),
{
    reveal(mkfs_at);
    let i = fresh_info(s.dev->0)->Ok_0;
    let s0 = FsView { base, ..s };
    let d = i.data_start as int;
    size_fits(s.dev->0);
    assert(can_be_made(i));
    zeroed(s0, 0, d + 1);
    let s1 = zero_sectors(s0, 0, d + 1).0;
    sectors_put(s1, i);
    let s2 = put_all(s1, fresh_sectors(i)).0;
    let u = FsView { fat: Some(i), ..s2 };
    assert(forall|l: int| #[trigger] u.raw_read(l) == s2.raw_read(l));
    assert(seeded(u, i, 0)) by {
        assert forall|l: int| 32 < l < 32 + i.fat_size implies #[trigger] u.raw_read(l) == Some(
            zero_bytes(512),
        ) by {
            assert(s2.raw_read(l) == s1.raw_read(l));
        }
        table_written(u, i);
        assert forall|l: int| 32 <= l < 32 + 2 * i.fat_size implies (#[trigger] u.raw_read(l)) is Some by {
            if l != 32 && l != 32 + i.fat_size {
                assert(s2.raw_read(l) == s1.raw_read(l));
            }
        }
        assert(s2.raw_read(d) == s1.raw_read(d));
        assert(volume_ok(u, i));
    }
    seeds_made(u, i, 0);
    let s3 = make_seeds(u, i, 0).0;
    boot_fields(i);
    let t = mkfs_at(s, base).0;
    assert(s3.base == base);
    assert(t == FsView { mount: Some(FsKind::Fat), ..s3 });
    assert(forall|l: int| #[trigger] t.raw_read(l) == s3.raw_read(l));
    assert(seeded(t, i, 6)) by {
        assert forall|c: int| #[trigger] read_fat(t, i, c) == read_fat(s3, i, c) by {}
        assert(read_fat(s3, i, 2) == read_fat(t, i, 2));
    }
    fresh_tree(t, i);
    fresh_contents(t, i);
    fresh_spare(t, i, 1009);
}

/// The sizes of a fresh volume fit their fields.
proof fn size_fits(sectors: u64)
    requires
        fresh_info(sectors) is Ok,
    ensures
        ({
            let i = fresh_info(sectors)->Ok_0;
            let tot = min_int(sectors as int, most_sectors());
            &&& i.data_start == 32 + 2 * i.fat_size
            &&& i.data_start + i.cluster_count == tot
            &&& tot >= 70000
            &&& 65525 <= i.cluster_count <= 0x0FFF_FFF0
            &&& i.cluster_count == clusters_left(tot, i.fat_size as int)
            &&& i.fat_size >= 100
        }),
{
    let tot = min_int(sectors as int, most_sectors());
    size_bound(tot, 2, 32);
    let first = (clusters_left(tot, 2) + 2) * 4 / 512 + 1;
    let second = (clusters_left(tot, first) + 2) * 4 / 512 + 1;
    assert(table_size(tot, 2, 32) == table_size(tot, first, 31));
    assert(second <= first);
    assert(table_size(tot, first, 31) == second);
}

/// The clusters behind the directories are free.
proof fn fresh_spare(s: FsView, i: FatInfo, n: int)
    requires
        seeded(s, i, 6),
        i.fat_size >= 100,
        9 <= n <= 1009,
    ensures
        spare_below(s, i, n) >= n - 9,
        spare(s, i) >= n - 9,
    decreases n,
{
    if n == 9 {
        spare_positive(s, i, 9);
    } else {
        fresh_spare(s, i, n - 1);
        assert(in_range(i, n - 1));
        assert(read_fat(s, i, n - 1) == 0);
    }
    spare_grows(s, i, n, i.cluster_count + 2);
}

proof fn size_bound(tot: int, size: int, n: nat)
    requires
        70000 <= tot <= most_sectors(),
        2 <= size,
        128 * size <= tot + 128,
    ensures
        1 <= table_size(tot, size, n),
        128 * table_size(tot, size, n) <= tot + 128,
    decreases n,
{
    if n > 0 {
        let need = (clusters_left(tot, size) + 2) * 4 / 512 + 1;
        if need > size {
            size_bound(tot, need, (n - 1) as nat);
        }
    }
}

} // verus!
