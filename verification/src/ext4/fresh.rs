//! What a fresh volume is: the administration that is written first, with
//! every block of it marked as used and all others free.

use vstd::prelude::*;
use crate::bytes::{
    le32, put16, put16_then_read, put32, put32_then_read, splice, u16_at, u32_at, zero_bytes,
};
use crate::ext4::counts::{
    clear_bits, counted, counted_up_to, counts_of, csum_apart, few_apart, group_counted,
    named_apart, numbered, runs_apart, sum_positive, super_counts,
};
use crate::ext4::inodes::load_is_checked;
use crate::ext4::laws::{outside_journal, raw_same, same_volume, written_block_reads_back};
use crate::ext4::layout::{
    desc_blocks, edge_bitmap, edge_byte, fresh_bmap, fresh_desc, fresh_imap, fresh_super,
    group_count, meta_blocks, table_block, write_backups, write_bitmaps, write_metadata,
    write_table, zero_groups, zero_run,
};
use crate::ext4::model::{
    bit_set, desc_block_of, desc_read, group_blocks, ino_extents, inode_load, inode_off, read_block,
    sb_read, sb_with_csum, sb_write, write_block,
};
use crate::ext4::space::{
    block_len, group_block, in_use, inode_in_use, is_system, laid_out, place_of, places_apart,
    shape, shape_of, shape_stays, space_ok, top, Place,
};
use crate::ext4::supply::inode_place;
use crate::fs::{Ext4Info, FsErr, FsView};

verus! {

/// The volumes that are made.
pub open spec fn can_be_made(i: Ext4Info) -> bool {
    &&& 1 <= i.groups <= 1024
    &&& i.total_blocks >= 8192
    &&& i.groups == group_count(i.total_blocks as int)
    &&& i.has_csum
}

/// Where the groups of a fresh volume keep their bitmaps and inodes.
pub open spec fn fresh_places(n: int) -> Seq<Place> {
    Seq::new(
        n as nat,
        |g: int|
            Place {
                bmap: (g * 32768 + 1 + desc_blocks(n)) as u32,
                imap: (g * 32768 + 2 + desc_blocks(n)) as u32,
                table: (g * 32768 + 3 + desc_blocks(n)) as u32,
            },
    )
}

// ---------- the places ----------

/// The blocks of a group stand one behind the other.
pub proof fn place_at(n: int, g: int, j: int)
    requires
        1 <= n <= 1024,
        0 <= g < n,
        0 <= j < 514,
    ensures
        group_block(fresh_places(n), g, j) == g * 32768 + 1 + desc_blocks(n) + j,
        1 <= desc_blocks(n) <= 16,
{
}

/// The table ends where the blocks of the first group start.
pub proof fn table_end(n: int)
    requires
        1 <= n <= 1024,
    ensures
        top(fresh_places(n)) == desc_blocks(n),
        1 <= desc_blocks(n) <= 16,
{
    assert((n * 64 + 4095) / 4096 == 1 + (n - 1) * 64 / 4096);
}

proof fn fresh_places_apart(n: int)
    requires
        1 <= n <= 1024,
    ensures
        places_apart(fresh_places(n)),
{
    let pl = fresh_places(n);
    table_end(n);
    assert forall|g: int, j: int| 0 <= g < pl.len() && 0 <= j < 514 implies top(pl)
        < #[trigger] group_block(pl, g, j) <= u32::MAX by {
        place_at(n, g, j);
    }
    assert forall|g: int, j: int, h: int, k: int|
        0 <= g < pl.len() && 0 <= j < 514 && 0 <= h < pl.len() && 0 <= k < 514
            && #[trigger] group_block(pl, g, j) == #[trigger] group_block(pl, h, k) implies g == h && j
        == k by {
        place_at(n, g, j);
        place_at(n, h, k);
        let db = desc_blocks(n);
        assert(g * 32768 + (1 + db + j) == h * 32768 + (1 + db + k));
    }
}

// ---------- the bitmaps ----------

/// The bits of an edge bitmap.
proof fn edge_bits(lo: int, hi: int, c: int)
    requires
        0 <= c < 32768,
    ensures
        edge_bitmap(lo, hi).len() == 4096,
        bit_set(edge_bitmap(lo, hi), c) == (c < lo || c >= hi),
{
    let i = c / 8;
    let k = c % 8;
    let b = 8 * i;
    let v = edge_byte(b, lo, hi, 8);
    edge_sum(b, lo, hi);
    assert(edge_bitmap(lo, hi)[i] == v as u8);
    let x0 = edge_bit(b, lo, hi);
    let x1 = edge_bit(b + 1, lo, hi);
    let x2 = edge_bit(b + 2, lo, hi);
    let x3 = edge_bit(b + 3, lo, hi);
    let x4 = edge_bit(b + 4, lo, hi);
    let x5 = edge_bit(b + 5, lo, hi);
    let x6 = edge_bit(b + 6, lo, hi);
    let x7 = edge_bit(b + 7, lo, hi);
    let r0 = v;
    let r1 = x1 + 2 * x2 + 4 * x3 + 8 * x4 + 16 * x5 + 32 * x6 + 64 * x7;
    let r2 = x2 + 2 * x3 + 4 * x4 + 8 * x5 + 16 * x6 + 32 * x7;
    let r3 = x3 + 2 * x4 + 4 * x5 + 8 * x6 + 16 * x7;
    let r4 = x4 + 2 * x5 + 4 * x6 + 8 * x7;
    let r5 = x5 + 2 * x6 + 4 * x7;
    let r6 = x6 + 2 * x7;
    assert(v / 1 == v && v % 2 == x0);
    assert(v / 2 == r1 && r1 % 2 == x1);
    assert(v / 4 == r2 && r2 % 2 == x2);
    assert(v / 8 == r3 && r3 % 2 == x3);
    assert(v / 16 == r4 && r4 % 2 == x4);
    assert(v / 32 == r5 && r5 % 2 == x5);
    assert(v / 64 == r6 && r6 % 2 == x6);
    assert(v / 128 == x7 && x7 % 2 == x7);
    assert(b + k == c);
}

spec fn edge_bit(b: int, lo: int, hi: int) -> int {
    if b < lo || b >= hi {
        1
    } else {
        0
    }
}

proof fn edge_sum(b: int, lo: int, hi: int)
    ensures
        edge_byte(b, lo, hi, 8) == edge_bit(b, lo, hi) + 2 * edge_bit(b + 1, lo, hi) + 4 * edge_bit(
            b + 2,
            lo,
            hi,
        ) + 8 * edge_bit(b + 3, lo, hi) + 16 * edge_bit(b + 4, lo, hi) + 32 * edge_bit(b + 5, lo, hi)
            + 64 * edge_bit(b + 6, lo, hi) + 128 * edge_bit(b + 7, lo, hi),
{
    assert(edge_byte(b, lo, hi, 0) == 0);
    assert(edge_byte(b, lo, hi, 1) == edge_bit(b, lo, hi));
    assert(edge_byte(b, lo, hi, 2) == edge_byte(b, lo, hi, 1) + 2 * edge_bit(b + 1, lo, hi));
    assert(edge_byte(b, lo, hi, 3) == edge_byte(b, lo, hi, 2) + 4 * edge_bit(b + 2, lo, hi));
    assert(edge_byte(b, lo, hi, 4) == edge_byte(b, lo, hi, 3) + 8 * edge_bit(b + 3, lo, hi));
    assert(edge_byte(b, lo, hi, 5) == edge_byte(b, lo, hi, 4) + 16 * edge_bit(b + 4, lo, hi));
    assert(edge_byte(b, lo, hi, 6) == edge_byte(b, lo, hi, 5) + 32 * edge_bit(b + 5, lo, hi));
    assert(edge_byte(b, lo, hi, 7) == edge_byte(b, lo, hi, 6) + 64 * edge_bit(b + 6, lo, hi));
    assert(edge_byte(b, lo, hi, 8) == edge_byte(b, lo, hi, 7) + 128 * edge_bit(b + 7, lo, hi));
}

// ---------- what is written where ----------

/// A volume without a journal, as it is while it is made.
pub open spec fn bare(s: FsView, t: FsView) -> bool {
    &&& s.jbd is None
    &&& same_volume(s, t)
}

/// A block of a volume without a journal is written.
proof fn bare_step(s: FsView, blk: int, data: Seq<u8>)
    requires
        s.jbd is None,
        0 <= blk <= u32::MAX,
        data.len() == 4096,
        write_block(s, blk, data).1,
    ensures
        bare(s, write_block(s, blk, data).0),
        read_block(write_block(s, blk, data).0, blk) == Some(data),
        forall|b: int|
            b != blk ==> #[trigger] read_block(write_block(s, blk, data).0, b) == read_block(s, b),
{
    written_block_reads_back(s, blk, data);
    let t = write_block(s, blk, data).0;
    assert forall|b: int| b != blk implies #[trigger] read_block(t, b) == read_block(s, b) by {
        assert(outside_journal(s, b));
    }
}

proof fn zero_run_step(s: FsView, from: int, k: int, n: int)
    requires
        s.jbd is None,
        0 <= from,
        0 <= k,
        from + n <= u32::MAX,
        zero_run(s, from, k, n).1,
    ensures
        bare(s, zero_run(s, from, k, n).0),
        forall|b: int|
            from + k <= b < from + n ==> #[trigger] read_block(zero_run(s, from, k, n).0, b) == Some(
                zero_bytes(4096),
            ),
        forall|b: int|
            !(from + k <= b < from + n) ==> #[trigger] read_block(zero_run(s, from, k, n).0, b)
                == read_block(s, b),
    decreases n - k,
{
    if k < n {
        bare_step(s, from + k, zero_bytes(4096));
        let s1 = write_block(s, from + k, zero_bytes(4096)).0;
        zero_run_step(s1, from, k + 1, n);
        assert(read_block(zero_run(s, from, k, n).0, from + k) == read_block(s1, from + k));
    }
}

proof fn zero_groups_step(s: FsView, i: Ext4Info, g: int)
    requires
        s.jbd is None,
        can_be_made(i),
        0 <= g,
        zero_groups(s, i, g).1,
    ensures
        bare(s, zero_groups(s, i, g).0),
        forall|b: int|
            g * 32768 <= b < i.groups * 32768 && b % 32768 < meta_blocks(i.groups as int)
                ==> #[trigger] read_block(zero_groups(s, i, g).0, b) == Some(zero_bytes(4096)),
        forall|b: int|
            b < g * 32768 ==> #[trigger] read_block(zero_groups(s, i, g).0, b) == read_block(s, b),
    decreases i.groups - g,
{
    if g < i.groups {
        let m = meta_blocks(i.groups as int);
        zero_run_step(s, g * 32768, 0, m);
        let s1 = zero_run(s, g * 32768, 0, m).0;
        zero_groups_step(s1, i, g + 1);
        let t = zero_groups(s, i, g).0;
        assert forall|b: int| g * 32768 <= b < i.groups * 32768 && b % 32768 < m implies #[trigger] read_block(
            t,
            b,
        ) == Some(zero_bytes(4096)) by {
            if b < (g + 1) * 32768 {
                assert(b % 32768 == b - g * 32768);
                assert(read_block(t, b) == read_block(s1, b));
            }
        }
        assert forall|b: int| b < g * 32768 implies #[trigger] read_block(t, b) == read_block(s, b) by {
            assert(read_block(t, b) == read_block(s1, b));
        }
    }
}

proof fn bitmaps_step(s: FsView, i: Ext4Info, g: int)
    requires
        s.jbd is None,
        can_be_made(i),
        0 <= g,
        write_bitmaps(s, i, g).1,
    ensures
        ({
            let t = write_bitmaps(s, i, g).0;
            let db = desc_blocks(i.groups as int);
            &&& bare(s, t)
            &&& forall|h: int|
                g <= h < i.groups ==> read_block(t, #[trigger] (h * 32768) + db + 1) == Some(
                    fresh_bmap(i, h),
                ) && read_block(t, h * 32768 + db + 2) == Some(fresh_imap(h))
            &&& forall|b: int|
                b < g * 32768 + db + 1 || (b % 32768 != db + 1 && b % 32768 != db + 2)
                    ==> #[trigger] read_block(t, b) == read_block(s, b)
        }),
    decreases i.groups - g,
{
    if g < i.groups {
        let db = desc_blocks(i.groups as int);
        let at = g * 32768 + db;
        let s1 = write_block(s, at + 1, fresh_bmap(i, g)).0;
        bare_step(s, at + 1, fresh_bmap(i, g));
        bare_step(s1, at + 2, fresh_imap(g));
        let s2 = write_block(s1, at + 2, fresh_imap(g)).0;
        bitmaps_step(s2, i, g + 1);
        let t = write_bitmaps(s, i, g).0;
        assert((at + 1) % 32768 == db + 1 && (at + 2) % 32768 == db + 2);
        assert(read_block(t, at + 1) == read_block(s2, at + 1));
        assert(read_block(t, at + 2) == read_block(s2, at + 2));
        assert forall|h: int| g <= h < i.groups implies read_block(t, #[trigger] (h * 32768) + db + 1)
            == Some(fresh_bmap(i, h)) && read_block(t, h * 32768 + db + 2) == Some(fresh_imap(h)) by {
            if h > g {
                assert(g + 1 <= h);
            }
        }
    }
}

proof fn table_step(s: FsView, i: Ext4Info, at: int, q: int)
    requires
        s.jbd is None,
        can_be_made(i),
        0 <= at <= 1024 * 32768,
        0 <= q,
        write_table(s, i, at, q).1,
    ensures
        ({
            let t = write_table(s, i, at, q).0;
            let db = desc_blocks(i.groups as int);
            &&& bare(s, t)
            &&& forall|r: int|
                q <= r < db ==> #[trigger] read_block(t, at + 1 + r) == Some(
                    table_block(i, r, i.groups as int),
                )
            &&& forall|b: int|
                !(at + 1 + q <= b < at + 1 + db) ==> #[trigger] read_block(t, b) == read_block(s, b)
        }),
    decreases desc_blocks(i.groups as int) - q,
{
    if q < desc_blocks(i.groups as int) {
        let d = table_block(i, q, i.groups as int);
        bare_step(s, at + 1 + q, d);
        table_step(write_block(s, at + 1 + q, d).0, i, at, q + 1);
    }
}

proof fn backups_step(s: FsView, i: Ext4Info, g: int)
    requires
        s.jbd is None,
        can_be_made(i),
        1 <= g,
        write_backups(s, i, g).1,
    ensures
        ({
            let t = write_backups(s, i, g).0;
            let db = desc_blocks(i.groups as int);
            &&& bare(s, t)
            &&& forall|b: int|
                b < g * 32768 || b % 32768 > db ==> #[trigger] read_block(t, b) == read_block(s, b)
        }),
    decreases i.groups - g,
{
    if g < i.groups {
        let b = read_block(s, 0)->0;
        block_len(s, 0);
        bare_step(s, g * 32768, b);
        let s1 = write_block(s, g * 32768, b).0;
        table_step(s1, i, g * 32768, 0);
        let s2 = write_table(s1, i, g * 32768, 0).0;
        backups_step(s2, i, g + 1);
        let t = write_backups(s, i, g).0;
        let db = desc_blocks(i.groups as int);
        assert forall|b: int| b < g * 32768 || b % 32768 > db implies #[trigger] read_block(t, b)
            == read_block(s, b) by {
            assert(read_block(s2, b) == read_block(s1, b));
            assert(read_block(s1, b) == read_block(s, b));
        }
    }
}

// ---------- the administration ----------

/// The places that a fresh descriptor names.
proof fn fresh_desc_place(i: Ext4Info, g: int)
    requires
        can_be_made(i),
        0 <= g < i.groups,
    ensures
        fresh_desc(i, g).len() == 64,
        place_of(fresh_desc(i, g)) == fresh_places(i.groups as int)[g],
{
    let db = desc_blocks(i.groups as int);
    let start = g * 32768;
    let z = zero_bytes(64);
    let a = put32(z, 0, (start + 1 + db) as u32);
    let b = put32(a, 4, (start + 2 + db) as u32);
    let c = put32(b, 8, (start + 3 + db) as u32);
    put32_then_read(z, 0, (start + 1 + db) as u32);
    put32_then_read(a, 4, (start + 2 + db) as u32);
    put32_then_read(b, 8, (start + 3 + db) as u32);
    let d = fresh_desc(i, g);
    assert(d.len() == 64);
    assert(forall|k: int| 0 <= k < 12 ==> d[k] == c[k]);
    assert(forall|k: int| 0 <= k < 4 ==> c[k] == a[k]);
    assert(forall|k: int| 4 <= k < 8 ==> c[k] == b[k]);
}

/// A descriptor stands at its place in the table.
proof fn desc_in_table(s: FsView, i: Ext4Info, g: int)
    requires
        can_be_made(i),
        0 <= g < i.groups,
        read_block(s, desc_block_of(g)) == Some(table_block(i, g / 64, i.groups as int)),
    ensures
        desc_read(s, g) == Ok::<Seq<u8>, FsErr>(fresh_desc(i, g)),
{
    table_slice(i, g);
    desc_is_slice(s, g, table_block(i, g / 64, i.groups as int));
}

#[verifier::spinoff_prover]
#[verifier::rlimit(80)]
proof fn desc_is_slice(s: FsView, g: int, b: Seq<u8>)
    requires
        read_block(s, desc_block_of(g)) == Some(b),
    ensures
        desc_read(s, g) == Ok::<Seq<u8>, FsErr>(b.subrange(g % 64 * 64, g % 64 * 64 + 64)),
{
    reveal(desc_read);
    assert(g * 64 % 4096 == g % 64 * 64);
}

proof fn table_slice(i: Ext4Info, g: int)
    requires
        can_be_made(i),
        0 <= g < i.groups,
    ensures
        table_block(i, g / 64, i.groups as int).subrange(g % 64 * 64, g % 64 * 64 + 64) == fresh_desc(
            i,
            g,
        ),
{
    fresh_desc_place(i, g);
    let b = table_block(i, g / 64, i.groups as int);
    let d = fresh_desc(i, g);
    same_slice(b, d, g % 64 * 64, i, g);
}

proof fn same_slice(b: Seq<u8>, d: Seq<u8>, o: int, i: Ext4Info, g: int)
    requires
        b.len() == 4096,
        d.len() == 64,
        0 <= g < i.groups,
        o == g % 64 * 64,
        b == table_block(i, g / 64, i.groups as int),
        d == fresh_desc(i, g),
    ensures
        b.subrange(o, o + 64) == d,
{
    let r = b.subrange(o, o + 64);
    assert forall|k: int| 0 <= k < 64 implies #[trigger] r[k] == d[k] by {
        table_byte(i, g, k);
    }
    assert(r =~= d);
}

proof fn table_byte(i: Ext4Info, g: int, k: int)
    requires
        0 <= g < i.groups,
        0 <= k < 64,
    ensures
        table_block(i, g / 64, i.groups as int)[g % 64 * 64 + k] == fresh_desc(i, g)[k],
{
    let m = g % 64 * 64 + k;
    assert(m / 64 == g % 64);
    assert(m % 64 == k);
    assert(g / 64 * 64 + m / 64 == g);
}

/// What the superblock of a fresh volume says of its shape.
proof fn fresh_shape(i: Ext4Info)
    ensures
        fresh_super(i).len() == 1024,
        shape_of(fresh_super(i)) == (i.total_blocks, 0u32, 32768u32, 0x4C2u32),
{
    let sb = fresh_super(i);
    assert(sb.len() == 1024);
    let total = le32(i.total_blocks);
    put32_then_read(zero_bytes(1024), 4, i.total_blocks);
    put32_then_read(zero_bytes(1024), 32, 32768);
    put32_then_read(zero_bytes(1024), 96, 0x4C2);
    put32_then_read(zero_bytes(1024), 332, 0);
    let t4 = put32(zero_bytes(1024), 4, i.total_blocks);
    let t32 = put32(zero_bytes(1024), 32, 32768);
    let t96 = put32(zero_bytes(1024), 96, 0x4C2);
    assert(forall|k: int| 4 <= k < 8 ==> #[trigger] sb[k] == t4[k]);
    assert(forall|k: int| 32 <= k < 36 ==> #[trigger] sb[k] == t32[k]);
    assert(forall|k: int| 96 <= k < 100 ==> #[trigger] sb[k] == t96[k]);
    assert(forall|k: int| 332 <= k < 336 ==> #[trigger] sb[k] == 0);
}

/// What the bitmaps of a fresh volume say.
pub open spec fn fresh_maps(s: FsView, pl: Seq<Place>, i: Ext4Info) -> bool {
    let m = meta_blocks(i.groups as int);
    &&& forall|b: int|
        0 <= b < 32768 * pl.len() ==> #[trigger] in_use(s, pl, b) == (b % 32768 < m || b % 32768
            >= group_blocks(i, b / 32768))
    &&& forall|x: int|
        1 <= x <= 8192 * pl.len() ==> #[trigger] inode_in_use(s, pl, x) == (x <= 10)
}

/// The superblock is written.
proof fn fresh_super_step(s: FsView, i: Ext4Info)
    requires
        s.jbd is None,
        s.ext == Some(i),
        can_be_made(i),
        sb_write(s, fresh_super(i)).1 is Ok,
    ensures
        ({
            let t = sb_write(s, fresh_super(i)).0;
            &&& bare(s, t)
            &&& shape(t) == (i.total_blocks, 0u32, 32768u32, 0x4C2u32)
            &&& sb_read(t) == Ok::<Seq<u8>, FsErr>(sb_with_csum(fresh_super(i)))
            &&& forall|b: int| b != 0 ==> #[trigger] read_block(t, b) == read_block(s, b)
        }),
{
    reveal(sb_write);
    fresh_shape(i);
    shape_stays(fresh_super(i), 0);
    block_len(s, 0);
    let sb = sb_with_csum(fresh_super(i));
    let data = splice(read_block(s, 0)->0, 1024, sb);
    bare_step(s, 0, data);
    assert(data.subrange(1024, 2048) =~= sb);
}

/// What the volume is said to be does not change what a block holds.
proof fn named_alike(s: FsView, t: FsView, b: int)
    requires
        t == (FsView { ext: t.ext, ..s }),
    ensures
        read_block(t, b) == read_block(s, b),
{
    reveal(read_block);
    raw_same(s, t);
}

/// The parts of the writing of the administration.
proof fn metadata_parts(s: FsView, i: Ext4Info)
    requires
        write_metadata(s, i).1 is Ok,
    ensures
        ({
            let z = zero_groups(s, i, 0);
            let b = write_bitmaps(z.0, i, 0);
            let d = write_table(b.0, i, 0, 0);
            let u = FsView { ext: Some(i), ..d.0 };
            let w = sb_write(u, fresh_super(i));
            let k = write_backups(w.0, i, 1);
            &&& z.1 && b.1 && d.1 && w.1 is Ok && k.1
            &&& write_metadata(s, i).0 == k.0
        }),
{
    reveal(write_metadata);
}

/// The state behind the writing of the administration.
#[verifier::spinoff_prover]
#[verifier::rlimit(80)]
proof fn fresh_blocks(s: FsView, i: Ext4Info)
    requires
        s.jbd is None,
        can_be_made(i),
        write_metadata(s, i).1 is Ok,
    ensures
        ({
            let t = write_metadata(s, i).0;
            let db = desc_blocks(i.groups as int);
            &&& t == FsView { disk: t.disk, ext: Some(i), ..s }
            &&& s.disk.wf() ==> t.disk.wf()
            &&& shape(t) == (i.total_blocks, 0u32, 32768u32, 0x4C2u32)
            &&& forall|r: int|
                0 <= r < db ==> #[trigger] read_block(t, 0 + 1 + r) == Some(
                    table_block(i, r, i.groups as int),
                )
            &&& forall|h: int|
                0 <= h < i.groups ==> read_block(t, #[trigger] (h * 32768) + db + 1) == Some(
                    fresh_bmap(i, h),
                ) && read_block(t, h * 32768 + db + 2) == Some(fresh_imap(h))
            &&& sb_read(t) == Ok::<Seq<u8>, FsErr>(sb_with_csum(fresh_super(i)))
            &&& forall|b: int|
                0 <= b < i.groups * 32768 && db + 3 <= b % 32768 < meta_blocks(i.groups as int)
                    ==> #[trigger] read_block(t, b) == Some(zero_bytes(4096))
        }),
{
    metadata_parts(s, i);
    let db = desc_blocks(i.groups as int);
    let s1 = zero_groups(s, i, 0).0;
    zero_groups_step(s, i, 0);
    bitmaps_step(s1, i, 0);
    let s2 = write_bitmaps(s1, i, 0).0;
    table_step(s2, i, 0, 0);
    let s3 = write_table(s2, i, 0, 0).0;
    let u = FsView { ext: Some(i), ..s3 };
    fresh_super_step(u, i);
    let s4 = sb_write(u, fresh_super(i)).0;
    assert forall|b: int| read_block(u, b) == #[trigger] read_block(s3, b) by {
        named_alike(s3, u, b);
    }
    backups_step(s4, i, 1);
    let t = write_metadata(s, i).0;
    assert(read_block(t, 0) == read_block(s4, 0));
    assert forall|b: int|
        0 <= b < i.groups * 32768 && db + 3 <= b % 32768 < meta_blocks(i.groups as int) implies #[trigger] read_block(
        t,
        b,
    ) == Some(zero_bytes(4096)) by {
        assert(read_block(s1, b) == Some(zero_bytes(4096)));
        assert(read_block(s2, b) == read_block(s1, b));
        assert(read_block(s3, b) == read_block(s2, b));
        assert(read_block(s4, b) == read_block(u, b));
        assert(read_block(t, b) == read_block(s4, b));
    }
    assert forall|r: int| 0 <= r < db implies #[trigger] read_block(t, 0 + 1 + r) == Some(
        table_block(i, r, i.groups as int),
    ) by {
        assert(read_block(s3, 0 + 1 + r) == Some(table_block(i, r, i.groups as int)));
        assert(read_block(s4, 0 + 1 + r) == read_block(u, 0 + 1 + r));
    }
    assert forall|h: int| 0 <= h < i.groups implies read_block(t, #[trigger] (h * 32768) + db + 1)
        == Some(fresh_bmap(i, h)) && read_block(t, h * 32768 + db + 2) == Some(fresh_imap(h)) by {
        let b = h * 32768 + db + 1;
        assert(b % 32768 == db + 1 && (b + 1) % 32768 == db + 2);
        assert(read_block(s2, b) == Some(fresh_bmap(i, h)));
        assert(read_block(s2, b + 1) == Some(fresh_imap(h)));
        assert(read_block(s3, b) == read_block(s2, b));
        assert(read_block(s3, b + 1) == read_block(s2, b + 1));
        assert(read_block(s4, b) == read_block(u, b));
        assert(read_block(s4, b + 1) == read_block(u, b + 1));
        assert(read_block(t, b) == read_block(s4, b));
        assert(read_block(t, b + 1) == read_block(s4, b + 1));
    }
}

/// The administration of a fresh volume agrees with itself: its own blocks are
/// in use, and all others that the volume has are free.
#[verifier::spinoff_prover]
#[verifier::rlimit(80)]
pub proof fn fresh_space(s: FsView, i: Ext4Info)
    requires
        s.jbd is None,
        can_be_made(i),
        write_metadata(s, i).1 is Ok,
    ensures
        ({
            let t = write_metadata(s, i).0;
            let pl = fresh_places(i.groups as int);
            &&& t == FsView { disk: t.disk, ext: Some(i), ..s }
            &&& s.disk.wf() ==> t.disk.wf()
            &&& shape(t) == (i.total_blocks, 0u32, 32768u32, 0x4C2u32)
            &&& space_ok(t, pl)
            &&& fresh_maps(t, pl, i)
        }),
{
    let t = write_metadata(s, i).0;
    let n = i.groups as int;
    let db = desc_blocks(n);
    let pl = fresh_places(n);
    fresh_blocks(s, i);
    fresh_places_apart(n);
    table_end(n);
    assert forall|g: int| 0 <= g < pl.len() implies (#[trigger] desc_read(t, g)) is Ok && place_of(
        desc_read(t, g)->Ok_0,
    ) == pl[g] by {
        fresh_desc_place(i, g);
        assert(desc_block_of(g) == 0 + 1 + g / 64);
        assert(0 <= g / 64 < db);
        assert(read_block(t, 0 + 1 + g / 64) is Some);
        desc_in_table(t, i, g);
    }
    assert(laid_out(t, pl));
    assert forall|g: int| 0 <= g < pl.len() implies read_block(t, (#[trigger] pl[g]).bmap as int)
        == Some(fresh_bmap(i, g)) && read_block(t, pl[g].imap as int) == Some(fresh_imap(g)) by {
        assert(read_block(t, (g * 32768) + db + 1) == Some(fresh_bmap(i, g)));
    }
    let m = meta_blocks(n);
    assert forall|b: int| 0 <= b < 32768 * pl.len() implies #[trigger] in_use(t, pl, b) == (b % 32768
        < m || b % 32768 >= group_blocks(i, b / 32768)) by {
        let p = pl[b / 32768];
        edge_bits(m, group_blocks(i, b / 32768), b % 32768);
    }
    assert forall|x: int| 1 <= x <= 8192 * pl.len() implies #[trigger] inode_in_use(t, pl, x) == (x
        <= 10) by {
        let g = (x - 1) / 8192;
        let p = pl[g];
        edge_bits(
            if g == 0 {
                10
            } else {
                0
            },
            32768,
            (x - 1) % 8192,
        );
    }
    assert forall|b: int| is_system(t, pl, b) && 0 <= b < 32768 * pl.len() implies #[trigger] in_use(
        t,
        pl,
        b,
    ) by {
        if b > top(pl) {
            let (g, j) = choose|g: int, j: int|
                0 <= g < pl.len() && 0 <= j < 514 && b == #[trigger] group_block(pl, g, j);
            place_at(n, g, j);
            assert(b % 32768 == 1 + db + j);
        }
    }
}

// ---------- the counts ----------

/// The clear bits of an edge bitmap.
proof fn edge_clear(lo: int, hi: int, n: int)
    requires
        0 <= lo,
        0 <= n <= 32768,
    ensures
        clear_bits(edge_bitmap(lo, hi), n) == (if n <= lo || hi <= lo {
            0
        } else if n <= hi {
            n - lo
        } else {
            hi - lo
        }),
    decreases n,
{
    if n > 0 {
        edge_clear(lo, hi, n - 1);
        edge_bits(lo, hi, n - 1);
    }
}

/// The counts that a fresh descriptor holds.
proof fn fresh_desc_counts(i: Ext4Info, g: int)
    requires
        can_be_made(i),
        0 <= g < i.groups,
    ensures
        ({
            let n = group_blocks(i, g);
            let meta = meta_blocks(i.groups as int);
            counts_of(fresh_desc(i, g)) == (
                if n < meta {
                    0
                } else {
                    n - meta
                },
                if g == 0 {
                    8182int
                } else {
                    8192
                },
            )
        }),
{
    let db = desc_blocks(i.groups as int);
    let start = g * 32768;
    let n = group_blocks(i, g);
    let meta = meta_blocks(i.groups as int);
    let free = (if n < meta {
        0
    } else {
        n - meta
    }) as u64;
    let inodes: u64 = if g == 0 {
        8182
    } else {
        8192
    };
    let d1 = put32(
        put32(put32(zero_bytes(64), 0, (start + 1 + db) as u32), 4, (start + 2 + db) as u32),
        8,
        (start + 3 + db) as u32,
    );
    let l = (free % 0x1_0000) as u16;
    let h = (free / 0x1_0000 % 0x1_0000) as u16;
    let a = put16(d1, 12, l);
    let b = put16(a, 44, h);
    let il = (inodes % 0x1_0000) as u16;
    let ih = (inodes / 0x1_0000 % 0x1_0000) as u16;
    let c = put16(b, 14, il);
    let e = put16(c, 46, ih);
    put16_then_read(d1, 12, l);
    put16_then_read(a, 44, h);
    put16_then_read(b, 14, il);
    put16_then_read(c, 46, ih);
    let f = fresh_desc(i, g);
    assert(f.len() == 64);
    assert(f[12] == a[12] && f[13] == a[13]);
    assert(f[44] == b[44] && f[45] == b[45]);
    assert(f[14] == c[14] && f[15] == c[15]);
    assert(f[46] == e[46] && f[47] == e[47]);
    assert(u16_at(f, 12) == l && u16_at(f, 44) == h && u16_at(f, 14) == il && u16_at(f, 46) == ih);
}

/// The counts that a fresh superblock holds.
proof fn fresh_super_counts(i: Ext4Info)
    requires
        can_be_made(i),
        i.total_blocks >= meta_blocks(i.groups as int) * i.groups,
    ensures
        fresh_super(i).len() == 1024,
        super_counts(fresh_super(i)) == (
            i.total_blocks - meta_blocks(i.groups as int) * i.groups,
            i.groups * 8192 - 10,
        ),
{
    let sb = fresh_super(i);
    let z = zero_bytes(1024);
    let v = (i.total_blocks - meta_blocks(i.groups as int) * i.groups) as u32;
    let w = (i.groups * 8192 - 10) as u32;
    let a = put32(z, 12, v);
    let b = put32(z, 16, w);
    put32_then_read(z, 12, v);
    put32_then_read(z, 16, w);
    assert(meta_blocks(i.groups as int) * i.groups >= 0) by (nonlinear_arith)
        requires
            meta_blocks(i.groups as int) >= 0,
    ;
    assert(forall|k: int| 12 <= k < 16 ==> #[trigger] sb[k] == a[k]);
    assert(forall|k: int| 16 <= k < 20 ==> #[trigger] sb[k] == b[k]);
    assert(forall|k: int| 340 <= k < 344 ==> #[trigger] sb[k] == 0);
    assert(sb.len() == 1024);
}

/// Every group of the volume has room for its administration.
pub open spec fn groups_whole(i: Ext4Info) -> bool {
    group_blocks(i, i.groups - 1) >= meta_blocks(i.groups as int)
}

/// What the fresh descriptors count together.
proof fn fresh_sums(t: FsView, i: Ext4Info, n: int)
    requires
        can_be_made(i),
        groups_whole(i),
        0 <= n <= i.groups,
        forall|g: int|
            0 <= g < i.groups ==> #[trigger] desc_read(t, g) == Ok::<Seq<u8>, FsErr>(fresh_desc(i, g)),
    ensures
        counted_up_to(t, n) == (
            (if n * 32768 < i.total_blocks {
                n * 32768
            } else {
                i.total_blocks as int
            }) - meta_blocks(i.groups as int) * n,
            if n == 0 {
                0
            } else {
                n * 8192 - 10
            },
        ),
    decreases n,
{
    let m = meta_blocks(i.groups as int);
    if n > 0 {
        fresh_sums(t, i, n - 1);
        fresh_desc_counts(i, n - 1);
        assert(desc_read(t, n - 1) == Ok::<Seq<u8>, FsErr>(fresh_desc(i, n - 1)));
        assert(m * n == m * (n - 1) + m) by (nonlinear_arith);
        assert((n - 1) * 32768 < i.total_blocks);
    } else {
        assert(m * n == 0) by (nonlinear_arith)
            requires
                n == 0,
        ;
    }
}

/// The descriptor and the bitmaps of a group, once they are written.
proof fn fresh_group(s: FsView, i: Ext4Info, g: int)
    requires
        s.jbd is None,
        can_be_made(i),
        write_metadata(s, i).1 is Ok,
        0 <= g < i.groups,
    ensures
        ({
            let t = write_metadata(s, i).0;
            let db = desc_blocks(i.groups as int);
            &&& desc_read(t, g) == Ok::<Seq<u8>, FsErr>(fresh_desc(i, g))
            &&& read_block(t, g * 32768 + db + 1) == Some(fresh_bmap(i, g))
            &&& read_block(t, g * 32768 + db + 2) == Some(fresh_imap(g))
            &&& sb_read(t) == Ok::<Seq<u8>, FsErr>(sb_with_csum(fresh_super(i)))
        }),
{
    let t = write_metadata(s, i).0;
    let n = i.groups as int;
    let db = desc_blocks(n);
    fresh_blocks(s, i);
    table_end(n);
    assert(desc_block_of(g) == 0 + 1 + g / 64);
    assert(0 <= g / 64 < db);
    assert(read_block(t, 0 + 1 + g / 64) is Some);
    desc_in_table(t, i, g);
    assert(read_block(t, (g * 32768) + db + 1) == Some(fresh_bmap(i, g)));
}

/// The blocks of the inode table of a fresh group are blank.
#[verifier::spinoff_prover]
proof fn fresh_table(s: FsView, i: Ext4Info, g: int, j: int)
    requires
        s.jbd is None,
        can_be_made(i),
        write_metadata(s, i).1 is Ok,
        0 <= g < i.groups,
        2 <= j < 514,
    ensures
        read_block(
            write_metadata(s, i).0,
            group_block(fresh_places(i.groups as int), g, j),
        ) == Some(zero_bytes(4096)),
{
    let n = i.groups as int;
    place_at(n, g, j);
    let b = group_block(fresh_places(n), g, j);
    assert(b % 32768 == 1 + desc_blocks(n) + j);
    fresh_blocks(s, i);
}

/// An inode of a blank block has no extents.
proof fn blank_inode(o: int)
    requires
        0 <= o,
        o + 256 <= 4096,
    ensures
        runs_apart(ino_extents(zero_bytes(4096).subrange(o, o + 256))),
{
    let ib = ino_extents(zero_bytes(4096).subrange(o, o + 256));
    assert(ib[0] == 0 && ib[1] == 0);
    assert(u16_at(ib, 0) == 0);
    few_apart(ib);
}

/// The inodes of a fresh volume are blank.
#[verifier::spinoff_prover]
#[verifier::rlimit(80)]
proof fn fresh_inode(s: FsView, i: Ext4Info, x: u32)
    requires
        s.jbd is None,
        can_be_made(i),
        write_metadata(s, i).1 is Ok,
        1 <= x <= 8192 * i.groups,
    ensures
        inode_load(write_metadata(s, i).0, x) matches Ok(raw) ==> runs_apart(ino_extents(raw)),
{
    let t = write_metadata(s, i).0;
    let n = i.groups as int;
    let pl = fresh_places(n);
    let g = (x - 1) / 8192;
    let j = 2 + (x - 1) % 8192 / 16;
    fresh_space(s, i);
    load_is_checked(t, pl, x);
    place_at(n, g, j);
    inode_place(pl, desc_read(t, g)->Ok_0, x);
    fresh_table(s, i, g, j);
    if inode_load(t, x) is Ok {
        assert(inode_load(t, x)->Ok_0 == zero_bytes(4096).subrange(
            inode_off(x),
            inode_off(x) + 256,
        )) by {
            reveal(inode_load);
        }
        blank_inode(inode_off(x));
    }
}

/// A fresh group is counted.
proof fn fresh_group_counted(s: FsView, i: Ext4Info, g: int)
    requires
        s.jbd is None,
        can_be_made(i),
        write_metadata(s, i).1 is Ok,
        0 <= g < i.groups,
    ensures
        group_counted(write_metadata(s, i).0, g),
{
    let n = i.groups as int;
    let db = desc_blocks(n);
    fresh_group(s, i, g);
    fresh_desc_place(i, g);
    fresh_desc_counts(i, g);
    let d = fresh_desc(i, g);
    assert(place_of(d) == fresh_places(n)[g]);
    assert(u32_at(d, 0) == g * 32768 + db + 1 && u32_at(d, 4) == g * 32768 + db + 2);
    edge_clear(meta_blocks(n), group_blocks(i, g), 32768);
    edge_clear(
        if g == 0 {
            10
        } else {
            0
        },
        32768,
        8192,
    );
}

/// The space of a volume is accounted for once its administration is written,
/// if every group has room for its own.
#[verifier::spinoff_prover]
pub proof fn fresh_is_counted(s: FsView, i: Ext4Info)
    requires
        s.jbd is None,
        can_be_made(i),
        groups_whole(i),
        write_metadata(s, i).1 is Ok,
        write_metadata(s, i).0.ext == Some(i),
    ensures
        counted(write_metadata(s, i).0),
{
    let t = write_metadata(s, i).0;
    let n = i.groups as int;
    let m = meta_blocks(n);
    assert forall|g: int| 0 <= g < n implies #[trigger] desc_read(t, g) == Ok::<Seq<u8>, FsErr>(
        fresh_desc(i, g),
    ) by {
        fresh_group(s, i, g);
    }
    fresh_sums(t, i, n);
    sum_positive(t, n);
    fresh_group(s, i, 0);
    fresh_super_counts(i);
    csum_apart(fresh_super(i));
    assert forall|g: int| 0 <= g < n implies #[trigger] group_counted(t, g) by {
        fresh_group_counted(s, i, g);
    }
    reveal(numbered);
    reveal(named_apart);
    assert forall|x: u32| 1 <= x <= 8192 * n && inode_load(t, x) is Ok implies runs_apart(
        ino_extents((#[trigger] inode_load(t, x))->Ok_0),
    ) by {
        fresh_inode(s, i, x);
    }
}

} // verus!
