//! The free counts: those of the descriptors and of the superblock equal the
//! clear bits of the bitmaps.

use vstd::prelude::*;
use crate::bytes::{
    le32, put16, put16_then_read, put32, put32_then_read, splice, splice_keeps_fields, u16_at,
    u32_at, zero_bytes,
};
use crate::ext4::laws::{outside_journal, same_volume};
use crate::ext4::model::{
    bit_set, bitmap_csum, desc_block_of, desc_csum, desc_read, desc_write, free_block, free_inode,
    ino_extents, inode_load, read_block, sb_bump_blocks, sb_bump_inodes, sb_free_blocks, sb_read,
    sb_with_csum, set_split_count, split_count, take_block, take_inode, update_sb_free_blocks,
    update_sb_free_inodes, with_bit, with_bitmap_csums, without_bit, write_block,
};
use crate::ext4::runs::{run_count, run_holds};
use crate::ext4::space::{
    bit_is_cleared, bit_is_set, block_len, block_step, desc_step, group_block, laid_out,
    others_kept, place_of, super_step, top, Place,
};
use crate::ext4::supply::places_stay;
use crate::fs::{FsErr, FsView};

verus! {

/// The number of clear bits among the first `n`.
pub open spec fn clear_bits(bm: Seq<u8>, n: int) -> int
    decreases n,
{
    if n <= 0 {
        0
    } else {
        clear_bits(bm, n - 1) + (if bit_set(bm, n - 1) {
            0int
        } else {
            1
        })
    }
}

/// The free blocks and the free inodes that a descriptor counts.
pub open spec fn counts_of(d: Seq<u8>) -> (int, int) {
    (split_count(d, 12, 44) as int, split_count(d, 14, 46) as int)
}

/// What the bitmaps of a group leave free.
pub open spec fn free_in(s: FsView, d: Seq<u8>) -> (int, int) {
    (
        clear_bits(read_block(s, u32_at(d, 0) as int)->0, 32768),
        clear_bits(read_block(s, u32_at(d, 4) as int)->0, 8192),
    )
}

/// The descriptor of the group counts what its bitmaps leave free.
pub open spec fn group_counted(s: FsView, g: int) -> bool {
    desc_read(s, g) matches Ok(d) && counts_of(d) == free_in(s, d)
}

/// What the descriptors of the first `n` groups count together.
pub open spec fn counted_up_to(s: FsView, n: int) -> (int, int)
    decreases n,
{
    if n <= 0 {
        (0, 0)
    } else {
        let (a, b) = counted_up_to(s, n - 1);
        let (c, d) = counts_of(desc_read(s, n - 1)->Ok_0);
        (a + c, b + d)
    }
}

/// The free counts that a superblock holds.
pub open spec fn super_counts(sb: Seq<u8>) -> (int, int) {
    (sb_free_blocks(sb) as int, u32_at(sb, 16) as int)
}

/// The free counts are right: each descriptor counts what the bitmaps of its
/// group leave free, and the superblock what the groups have together.
#[verifier::opaque]
pub open spec fn numbered(s: FsView) -> bool {
    &&& s.ext is Some
    &&& forall|g: int| 0 <= g < s.ext->0.groups ==> #[trigger] group_counted(s, g)
    &&& sb_read(s) matches Ok(sb) && super_counts(sb) == counted_up_to(s, s.ext->0.groups as int)
}

/// No two extents of the area hold the same block.
#[verifier::opaque]
pub open spec fn runs_apart(ib: Seq<u8>) -> bool {
    u16_at(ib, 0) == 0xF30A && u16_at(ib, 6) == 0 ==> forall|e: int, f: int, b: int|
        0 <= e < f < run_count(ib) && 24 + 12 * f <= ib.len() && #[trigger] run_holds(ib, e, b)
            ==> !#[trigger] run_holds(ib, f, b)
}

/// No inode names a block twice.
#[verifier::opaque]
pub open spec fn named_apart(s: FsView) -> bool {
    forall|x: u32|
        s.ext is Some && 1 <= x <= 8192 * s.ext->0.groups && inode_load(s, x) is Ok ==> runs_apart(
            ino_extents((#[trigger] inode_load(s, x))->Ok_0),
        )
}

/// The space is accounted for: the free counts are right, and no inode names a
/// block twice, which it would give back twice.
pub open spec fn counted(s: FsView) -> bool {
    numbered(s) && named_apart(s)
}

/// `t` is `s` with other blocks, and its space is accounted for if that of `s`
/// is.
pub open spec fn steady(s: FsView, t: FsView) -> bool {
    &&& same_volume(s, t)
    &&& counted(s) ==> counted(t)
}

/// An area with one extent at most.
pub proof fn few_apart(ib: Seq<u8>)
    requires
        u16_at(ib, 0) != 0xF30A || run_count(ib) <= 1,
    ensures
        runs_apart(ib),
{
    reveal(runs_apart);
}

/// The inodes are as they were, but for `x`, whose blocks are named once.
pub proof fn stays_apart(s: FsView, t: FsView, pl: Seq<Place>, x: u32)
    requires
        laid_out(s, pl),
        same_volume(s, t),
        numbered(s) ==> numbered(t),
        forall|y: u32|
            1 <= y <= 8192 * pl.len() && y != x ==> #[trigger] inode_load(t, y) == inode_load(s, y),
        counted(s) && 1 <= x <= 8192 * pl.len() && inode_load(t, x) is Ok ==> runs_apart(
            ino_extents(inode_load(t, x)->Ok_0),
        ),
    ensures
        steady(s, t),
{
    reveal(named_apart);
}

/// The inode of a volume whose space is accounted for.
pub proof fn loaded_apart(s: FsView, pl: Seq<Place>, x: u32)
    requires
        laid_out(s, pl),
        counted(s),
        1 <= x <= 8192 * pl.len(),
        inode_load(s, x) is Ok,
    ensures
        runs_apart(ino_extents(inode_load(s, x)->Ok_0)),
{
    reveal(named_apart);
}

// ---------- bits ----------

proof fn bits_alike(a: Seq<u8>, b: Seq<u8>, n: int)
    requires
        forall|k: int| 0 <= k < n ==> bit_set(a, k) == #[trigger] bit_set(b, k),
    ensures
        clear_bits(a, n) == clear_bits(b, n),
    decreases n,
{
    if n > 0 {
        bits_alike(a, b, n - 1);
        assert(bit_set(a, n - 1) == bit_set(b, n - 1));
    }
}

/// One bit more or less.
proof fn bit_counted(bm: Seq<u8>, b: int, n: int, up: bool)
    requires
        bm.len() == 4096,
        0 <= b < 32768,
        0 <= n <= 32768,
        bit_set(bm, b) != up,
    ensures
        up ==> clear_bits(with_bit(bm, b), n) == clear_bits(bm, n) - (if b < n {
            1int
        } else {
            0
        }),
        !up ==> clear_bits(without_bit(bm, b), n) == clear_bits(bm, n) + (if b < n {
            1int
        } else {
            0
        }),
    decreases n,
{
    if n > 0 {
        bit_counted(bm, b, n - 1, up);
        bit_is_set(bm, b, n - 1);
        bit_is_cleared(bm, b, n - 1);
    }
}

proof fn clear_bound(bm: Seq<u8>, n: int, b: int)
    requires
        0 <= n,
    ensures
        0 <= clear_bits(bm, n) <= n,
        0 <= b < n && !bit_set(bm, b) ==> clear_bits(bm, n) >= 1,
    decreases n,
{
    if n > 0 {
        clear_bound(bm, n - 1, b);
    }
}

// ---------- fields ----------

/// The counts of a descriptor after one was set.
pub(crate) proof fn desc_counts(d: Seq<u8>, bm: Seq<u8>, im: Seq<u8>, lo: int, v: u64, c: u16)
    requires
        d.len() == 64,
        lo == 12 || lo == 14,
        v < 0x1_0000_0000,
    ensures
        ({
            let f = put16(set_split_count(with_bitmap_csums(d, bm, im), lo, lo + 32, v), 30, c);
            counts_of(f) == (if lo == 12 {
                (v as int, counts_of(d).1)
            } else {
                (counts_of(d).0, v as int)
            })
        }),
        split_count(with_bitmap_csums(d, bm, im), lo, lo + 32) == split_count(d, lo, lo + 32),
{
    let a = put16(d, 24, bitmap_csum(bm));
    let b = put16(a, 26, bitmap_csum(im));
    let e = splice(b, 56, zero_bytes(4));
    let l = (v % 0x1_0000) as u16;
    let h = (v / 0x1_0000 % 0x1_0000) as u16;
    let x = put16(e, lo, l);
    let y = put16(x, lo + 32, h);
    let f = put16(y, 30, c);
    put16_then_read(e, lo, l);
    put16_then_read(x, lo + 32, h);
    assert(forall|k: int| 12 <= k < 16 || 44 <= k < 48 ==> e[k] == d[k]);
    assert(forall|k: int| 12 <= k < 16 || 44 <= k < 48 ==> f[k] == y[k]);
    assert(forall|k: int| 0 <= k < 64 && !(lo <= k < lo + 2) && !(lo + 32 <= k < lo + 34) ==> y[k] == e[k]);
    assert(y[lo] == x[lo] && y[lo + 1] == x[lo + 1]);
    assert(u16_at(f, lo) == l && u16_at(f, lo + 32) == h);
    assert(u16_at(e, 12) == u16_at(d, 12) && u16_at(e, 44) == u16_at(d, 44));
    assert(u16_at(e, 14) == u16_at(d, 14) && u16_at(e, 46) == u16_at(d, 46));
}

/// The count of directories is none of the free counts.
pub(crate) proof fn dirs_counts(d: Seq<u8>, v: u64, c: u16)
    requires
        d.len() == 64,
    ensures
        counts_of(put16(set_split_count(d, 16, 48, v), 30, c)) == counts_of(d),
        place_of(put16(set_split_count(d, 16, 48, v), 30, c)) == place_of(d),
{
    let f = put16(set_split_count(d, 16, 48, v), 30, c);
    assert(forall|k: int| 0 <= k < 16 || 44 <= k < 48 ==> f[k] == d[k]);
    assert(u16_at(f, 12) == u16_at(d, 12) && u16_at(f, 44) == u16_at(d, 44));
    assert(u16_at(f, 14) == u16_at(d, 14) && u16_at(f, 46) == u16_at(d, 46));
}

/// The free blocks of a superblock are changed.
proof fn blocks_counted(sb: Seq<u8>, delta: int)
    requires
        sb.len() == 1024,
        -1 <= delta <= 1,
        0 <= super_counts(sb).0 + delta,
        super_counts(sb).0 < 0x8000_0000,
    ensures
        super_counts(sb_bump_blocks(sb, delta)) == (super_counts(sb).0 + delta, super_counts(sb).1),
        sb_bump_blocks(sb, delta).len() == 1024,
{
    let next = sb_free_blocks(sb) + delta;
    let lo = (next % 0x1_0000_0000) as u32;
    let hi = (next / 0x1_0000_0000 % 0x1_0000_0000) as u32;
    assert(0 <= next <= 0x8000_0000);
    assert(lo == next && hi == 0);
    let x = put32(sb, 12, lo);
    let y = put32(x, 340, hi);
    assert(sb_bump_blocks(sb, delta) == y);
    put32_then_read(sb, 12, lo);
    put32_then_read(x, 340, hi);
    splice_keeps_fields(x, 340, le32(hi), 12);
    splice_keeps_fields(x, 340, le32(hi), 16);
    splice_keeps_fields(sb, 12, le32(lo), 16);
}

/// The free inodes of a superblock are changed.
proof fn inodes_counted(sb: Seq<u8>, delta: int)
    requires
        sb.len() == 1024,
        0 <= super_counts(sb).1 + delta <= u32::MAX,
    ensures
        super_counts(sb_bump_inodes(sb, delta)) == (super_counts(sb).0, super_counts(sb).1 + delta),
        sb_bump_inodes(sb, delta).len() == 1024,
{
    let w = (u32_at(sb, 16) + delta) as u32;
    put32_then_read(sb, 16, w);
    splice_keeps_fields(sb, 16, le32(w), 12);
    splice_keeps_fields(sb, 16, le32(w), 340);
}

pub(crate) proof fn csum_apart(sb: Seq<u8>)
    requires
        sb.len() == 1024,
    ensures
        super_counts(sb_with_csum(sb)) == super_counts(sb),
{
    let c = sb_with_csum(sb);
    assert(forall|k: int| 0 <= k < 628 ==> c[k] == sb[k]);
    assert(u32_at(c, 12) == u32_at(sb, 12) && u32_at(c, 340) == u32_at(sb, 340) && u32_at(c, 16)
        == u32_at(sb, 16));
}

// ---------- what keeps the counts ----------

proof fn sums_alike(s: FsView, t: FsView, n: int)
    requires
        forall|g: int| 0 <= g < n ==> counts_of((#[trigger] desc_read(t, g))->Ok_0) == counts_of(
            desc_read(s, g)->Ok_0,
        ),
    ensures
        counted_up_to(t, n) == counted_up_to(s, n),
    decreases n,
{
    if n > 0 {
        sums_alike(s, t, n - 1);
        assert(counts_of(desc_read(t, n - 1)->Ok_0) == counts_of(desc_read(s, n - 1)->Ok_0));
    }
}

/// One descriptor counts other numbers.
proof fn sum_changed(s: FsView, t: FsView, n: int, g: int)
    requires
        0 <= g < n,
        forall|h: int| 0 <= h < n && h != g ==> #[trigger] desc_read(t, h) == desc_read(s, h),
    ensures
        ({
            let (a, b) = counts_of(desc_read(s, g)->Ok_0);
            let (c, d) = counts_of(desc_read(t, g)->Ok_0);
            let (x, y) = counted_up_to(s, n);
            counted_up_to(t, n) == (x + c - a, y + d - b)
        }),
    decreases n,
{
    if g == n - 1 {
        sums_alike(s, t, n - 1);
    } else {
        sum_changed(s, t, n - 1, g);
        assert(desc_read(t, n - 1) == desc_read(s, n - 1));
    }
}

proof fn sum_bound(s: FsView, n: int, g: int)
    requires
        0 <= g < n,
    ensures
        counted_up_to(s, n).0 >= counts_of(desc_read(s, g)->Ok_0).0,
        counted_up_to(s, n).1 >= counts_of(desc_read(s, g)->Ok_0).1,
    decreases n,
{
    sum_positive(s, n - 1);
    if g < n - 1 {
        sum_bound(s, n - 1, g);
    }
}

pub(crate) proof fn sum_positive(s: FsView, n: int)
    ensures
        counted_up_to(s, n).0 >= 0,
        counted_up_to(s, n).1 >= 0,
    decreases n,
{
    if n > 0 {
        sum_positive(s, n - 1);
    }
}

/// The sums of a volume whose groups are counted.
proof fn sum_limit(s: FsView, n: int)
    requires
        forall|g: int| 0 <= g < n ==> #[trigger] group_counted(s, g),
        0 <= n,
    ensures
        counted_up_to(s, n).0 <= 32768 * n,
        counted_up_to(s, n).1 <= 8192 * n,
    decreases n,
{
    if n > 0 {
        sum_limit(s, n - 1);
        assert(group_counted(s, n - 1));
        let d = desc_read(s, n - 1)->Ok_0;
        clear_bound(read_block(s, u32_at(d, 0) as int)->0, 32768, 0);
        clear_bound(read_block(s, u32_at(d, 4) as int)->0, 8192, 0);
    }
}

/// The counts depend on nothing but what is read.
pub proof fn counted_alike(s: FsView, t: FsView)
    requires
        counted(s),
        t.ext == s.ext,
        forall|b: int| #[trigger] read_block(t, b) == read_block(s, b),
        forall|x: u32| #[trigger] inode_load(t, x) == inode_load(s, x),
    ensures
        counted(t),
{
    reveal(numbered);
    reveal(named_apart);
    let n = s.ext->0.groups as int;
    assert forall|g: int| #[trigger] desc_read(t, g) == desc_read(s, g) by {
        reveal(desc_read);
    }
    sums_alike(s, t, n);
    assert forall|g: int| 0 <= g < n implies #[trigger] group_counted(t, g) by {
        assert(group_counted(s, g));
    }
}

/// A write to a block that is neither a bitmap nor part of the table or the
/// superblock leaves the counts right.
pub proof fn counts_stay(s: FsView, t: FsView, pl: Seq<Place>, blk: int)
    requires
        laid_out(s, pl),
        laid_out(t, pl),
        same_volume(s, t),
        others_kept(s, t, blk),
        read_block(t, 0) == read_block(s, 0),
        forall|g: int|
            0 <= g < pl.len() ==> counts_of((#[trigger] desc_read(t, g))->Ok_0) == counts_of(
                desc_read(s, g)->Ok_0,
            ),
        forall|g: int|
            0 <= g < pl.len() ==> blk != #[trigger] group_block(pl, g, 0) && blk != group_block(
                pl,
                g,
                1,
            ),
    ensures
        numbered(s) ==> numbered(t),
{
    reveal(numbered);
    sums_alike(s, t, pl.len() as int);
    if numbered(s) {
        assert forall|g: int| 0 <= g < pl.len() implies #[trigger] group_counted(t, g) by {
            assert(group_counted(s, g));
            assert(desc_read(t, g) is Ok && desc_read(s, g) is Ok);
            assert(group_block(pl, g, 0) == pl[g].bmap && group_block(pl, g, 1) == pl[g].imap);
            assert(outside_journal(s, group_block(pl, g, 0)));
            assert(outside_journal(s, group_block(pl, g, 1)));
            assert(blk != group_block(pl, g, 0));
        }
    }
}

/// A bit of a bitmap and the counts that belong to it were changed together.
proof fn counts_follow(
    s: FsView,
    t: FsView,
    pl: Seq<Place>,
    g: int,
    j: int,
    bit: int,
    up: bool,
)
    requires
        laid_out(s, pl),
        laid_out(t, pl),
        same_volume(s, t),
        numbered(s),
        0 <= g < pl.len(),
        0 <= j < 2,
        0 <= bit < (if j == 0 {
            32768int
        } else {
            8192
        }),
        ({
            let b = group_block(pl, g, j);
            let m = read_block(s, b)->0;
            let d = desc_read(s, g)->Ok_0;
            let e = desc_read(t, g)->Ok_0;
            let k = if up {
                -1int
            } else {
                1
            };
            &&& read_block(s, b) is Some
            &&& bit_set(m, bit) != up
            &&& read_block(t, b) == Some(
                if up {
                    with_bit(m, bit)
                } else {
                    without_bit(m, bit)
                },
            )
            &&& counts_of(e) == (if j == 0 {
                (counts_of(d).0 + k, counts_of(d).1)
            } else {
                (counts_of(d).0, counts_of(d).1 + k)
            })
            &&& sb_read(t) is Ok
            &&& super_counts(sb_read(t)->Ok_0) == (if j == 0 {
                (super_counts(sb_read(s)->Ok_0).0 + k, super_counts(sb_read(s)->Ok_0).1)
            } else {
                (super_counts(sb_read(s)->Ok_0).0, super_counts(sb_read(s)->Ok_0).1 + k)
            })
        }),
        forall|h: int| 0 <= h < pl.len() && h != g ==> #[trigger] desc_read(t, h) == desc_read(s, h),
        forall|h: int, k: int|
            0 <= h < pl.len() && 0 <= k < 2 && !(h == g && k == j) ==> read_block(
                t,
                #[trigger] group_block(pl, h, k),
            ) == read_block(s, group_block(pl, h, k)),
    ensures
        numbered(t),
{
    reveal(numbered);
    sum_changed(s, t, pl.len() as int, g);
    let m = read_block(s, group_block(pl, g, j))->0;
    block_len(s, group_block(pl, g, j));
    if j == 0 {
        bit_counted(m, bit, 32768, up);
    } else {
        bit_counted(m, bit, 8192, up);
    }
    assert forall|h: int| 0 <= h < pl.len() implies #[trigger] group_counted(t, h) by {
        assert(group_counted(s, h));
        assert(desc_read(t, h) is Ok && desc_read(s, h) is Ok);
        assert(group_block(pl, h, 0) == pl[h].bmap && group_block(pl, h, 1) == pl[h].imap);
        if h != g {
            assert(read_block(t, group_block(pl, h, 0)) == read_block(s, group_block(pl, h, 0)));
            assert(read_block(t, group_block(pl, h, 1)) == read_block(s, group_block(pl, h, 1)));
        } else if j == 0 {
            assert(read_block(t, group_block(pl, h, 1)) == read_block(s, group_block(pl, h, 1)));
        } else {
            assert(read_block(t, group_block(pl, h, 0)) == read_block(s, group_block(pl, h, 0)));
        }
    }
}

/// The counts that a bitmap change starts from.
pub(crate) proof fn counts_before(s: FsView, pl: Seq<Place>, g: int, j: int, bit: int)
    requires
        laid_out(s, pl),
        numbered(s),
        0 <= g < pl.len(),
        0 <= j < 2,
        0 <= bit < (if j == 0 {
            32768int
        } else {
            8192
        }),
    ensures
        ({
            let d = desc_read(s, g)->Ok_0;
            let sb = sb_read(s)->Ok_0;
            &&& sb_read(s) is Ok
            &&& counts_of(d).0 <= 32768
            &&& counts_of(d).1 <= 8192
            &&& super_counts(sb).0 <= 32768 * 1024
            &&& super_counts(sb).1 <= 8192 * 1024
            &&& super_counts(sb).0 >= counts_of(d).0
            &&& super_counts(sb).1 >= counts_of(d).1
            &&& !bit_set(read_block(s, group_block(pl, g, j))->0, bit) ==> (if j == 0 {
                counts_of(d).0 >= 1
            } else {
                counts_of(d).1 >= 1
            })
        }),
{
    reveal(numbered);
    sum_limit(s, pl.len() as int);
    sum_bound(s, pl.len() as int, g);
    assert(group_counted(s, g));
    assert(desc_read(s, g) is Ok);
    clear_bound(read_block(s, pl[g].bmap as int)->0, 32768, bit);
    clear_bound(read_block(s, pl[g].imap as int)->0, 8192, bit);
}

/// The three writes of a bitmap change: the bitmap, the descriptor with its
/// count changed, and the superblock with its count changed.
#[verifier::spinoff_prover]
proof fn three_counted(
    s: FsView,
    pl: Seq<Place>,
    g: int,
    j: int,
    bit: int,
    up: bool,
    bm: Seq<u8>,
    im: Seq<u8>,
)
    requires
        laid_out(s, pl),
        numbered(s),
        0 <= g < pl.len(),
        0 <= j < 2,
        0 <= bit < (if j == 0 {
            32768int
        } else {
            8192
        }),
        read_block(s, group_block(pl, g, j)) is Some,
        bit_set(read_block(s, group_block(pl, g, j))->0, bit) != up,
        ({
            let m = read_block(s, group_block(pl, g, j))->0;
            let map = if up {
                with_bit(m, bit)
            } else {
                without_bit(m, bit)
            };
            let d = desc_read(s, g)->Ok_0;
            let lo = 12 + 2 * j;
            let k = if up {
                -1int
            } else {
                1
            };
            let s1 = write_block(s, group_block(pl, g, j), map).0;
            let d1 = with_bitmap_csums(d, bm, im);
            let e = set_split_count(d1, lo, lo + 32, (split_count(d1, lo, lo + 32) + k) as u64);
            let s2 = desc_write(s1, g, e).0;
            &&& write_block(s, group_block(pl, g, j), map).1
            &&& desc_write(s1, g, e).1 is Ok
            &&& (if j == 0 {
                update_sb_free_blocks(s2, k).1 is Ok
            } else {
                update_sb_free_inodes(s2, k).1 is Ok
            })
        }),
    ensures
        ({
            let m = read_block(s, group_block(pl, g, j))->0;
            let map = if up {
                with_bit(m, bit)
            } else {
                without_bit(m, bit)
            };
            let d = desc_read(s, g)->Ok_0;
            let lo = 12 + 2 * j;
            let k = if up {
                -1int
            } else {
                1
            };
            let s1 = write_block(s, group_block(pl, g, j), map).0;
            let d1 = with_bitmap_csums(d, bm, im);
            let e = set_split_count(d1, lo, lo + 32, (split_count(d1, lo, lo + 32) + k) as u64);
            let s2 = desc_write(s1, g, e).0;
            numbered(
                if j == 0 {
                    update_sb_free_blocks(s2, k).0
                } else {
                    update_sb_free_inodes(s2, k).0
                },
            )
        }),
{
    let blk = group_block(pl, g, j);
    let m = read_block(s, blk)->0;
    let map = if up {
        with_bit(m, bit)
    } else {
        without_bit(m, bit)
    };
    let d = desc_read(s, g)->Ok_0;
    let lo = 12 + 2 * j;
    let k = if up {
        -1int
    } else {
        1
    };
    counts_before(s, pl, g, j, bit);
    block_len(s, blk);
    block_len(s, desc_block_of(g));
    assert(desc_read(s, g) is Ok);
    assert(d.len() == 64 && place_of(d) == pl[g]) by {
        reveal(desc_read);
    }
    bit_is_set(m, bit, bit);
    bit_is_cleared(m, bit, bit);
    assert(outside_journal(s, blk));
    assert(top(pl) < blk);
    block_step(s, pl, blk, map);
    let s1 = write_block(s, blk, map).0;
    let d1 = with_bitmap_csums(d, bm, im);
    let v = (split_count(d1, lo, lo + 32) + k) as u64;
    let e = set_split_count(d1, lo, lo + 32, v);
    desc_counts(d, bm, im, lo, v, desc_csum(g, e));
    places_stay(d, bm, im, lo, lo + 32, v);
    desc_step(s1, pl, g, e);
    let s2 = desc_write(s1, g, e).0;
    assert(outside_journal(s1, 0));
    assert(desc_block_of(g) >= 1);
    assert(read_block(s2, 0) == read_block(s1, 0));
    let sb = sb_read(s2)->Ok_0;
    block_len(s2, 0);
    assert(sb == sb_read(s)->Ok_0);
    assert(sb.len() == 1024);
    if j == 0 {
        blocks_counted(sb, k);
    } else {
        inodes_counted(sb, k);
    }
    let sb2 = if j == 0 {
        sb_bump_blocks(sb, k)
    } else {
        sb_bump_inodes(sb, k)
    };
    csum_apart(sb2);
    super_step(s2, pl, sb2);
    let t = if j == 0 {
        update_sb_free_blocks(s2, k).0
    } else {
        update_sb_free_inodes(s2, k).0
    };
    assert forall|h: int| 0 <= h < pl.len() && h != g implies #[trigger] desc_read(t, h) == desc_read(s, h) by {
        assert(desc_read(s2, h) == desc_read(s1, h));
        assert(desc_read(s1, h) == desc_read(s, h));
    }
    assert(desc_read(t, g) == desc_read(s2, g));
    assert forall|h: int, n: int| 0 <= h < pl.len() && 0 <= n < 2 && !(h == g && n == j) implies read_block(
        t,
        #[trigger] group_block(pl, h, n),
    ) == read_block(s, group_block(pl, h, n)) by {
        let b = group_block(pl, h, n);
        assert(b != blk);
        assert(outside_journal(s, b) && outside_journal(s1, b) && outside_journal(s2, b));
        assert(top(pl) < b && desc_block_of(g) <= top(pl));
    }
    assert(read_block(t, blk) == Some(map)) by {
        assert(outside_journal(s1, blk) && outside_journal(s2, blk));
        assert(desc_block_of(g) <= top(pl));
        assert(read_block(s2, blk) == read_block(s1, blk));
    }
    counts_follow(s, t, pl, g, j, bit, up);
}

pub proof fn taken_block_counted(s: FsView, pl: Seq<Place>, g: int, d: Seq<u8>, bmap: Seq<u8>, bit: int)
    requires
        laid_out(s, pl),
        numbered(s),
        0 <= g < pl.len(),
        desc_read(s, g) == Ok::<Seq<u8>, FsErr>(d),
        read_block(s, pl[g].bmap as int) == Some(bmap),
        0 <= bit < 32768,
        !bit_set(bmap, bit),
        take_block(s, g, d, bmap, bit).1 is Ok,
    ensures
        numbered(take_block(s, g, d, bmap, bit).0),
{
    reveal(take_block);
    assert(group_block(pl, g, 0) == pl[g].bmap);
    let bm = with_bit(bmap, bit);
    let s1 = write_block(s, u32_at(d, 0) as int, bm).0;
    three_counted(s, pl, g, 0, bit, true, bm, read_block(s1, u32_at(d, 4) as int)->0);
}

pub proof fn freed_block_counted(s: FsView, pl: Seq<Place>, blk: u32)
    requires
        laid_out(s, pl),
        numbered(s),
        blk < 32768 * pl.len(),
        bit_set(read_block(s, pl[blk as int / 32768].bmap as int)->0, blk as int % 32768),
        free_block(s, blk).1 is Ok,
    ensures
        numbered(free_block(s, blk).0),
{
    reveal(free_block);
    let g = blk as int / 32768;
    assert(desc_read(s, g) is Ok);
    let d = desc_read(s, g)->Ok_0;
    assert(group_block(pl, g, 0) == pl[g].bmap);
    let bit = blk as int % 32768;
    let bm = without_bit(read_block(s, u32_at(d, 0) as int)->0, bit);
    let s1 = write_block(s, u32_at(d, 0) as int, bm).0;
    three_counted(s, pl, g, 0, bit, false, bm, read_block(s1, u32_at(d, 4) as int)->0);
}

pub proof fn taken_inode_counted(s: FsView, pl: Seq<Place>, g: int, d: Seq<u8>, imap: Seq<u8>, bit: int)
    requires
        laid_out(s, pl),
        numbered(s),
        0 <= g < pl.len(),
        desc_read(s, g) == Ok::<Seq<u8>, FsErr>(d),
        read_block(s, pl[g].imap as int) == Some(imap),
        0 <= bit < 8192,
        !bit_set(imap, bit),
        take_inode(s, g, d, imap, bit).1 is Ok,
    ensures
        numbered(take_inode(s, g, d, imap, bit).0),
{
    reveal(take_inode);
    assert(group_block(pl, g, 1) == pl[g].imap);
    let im = with_bit(imap, bit);
    let s1 = write_block(s, u32_at(d, 4) as int, im).0;
    three_counted(s, pl, g, 1, bit, true, read_block(s1, u32_at(d, 0) as int)->0, im);
}

pub proof fn freed_inode_counted(s: FsView, pl: Seq<Place>, ino: u32)
    requires
        laid_out(s, pl),
        numbered(s),
        1 <= ino <= 8192 * pl.len(),
        bit_set(read_block(s, pl[(ino - 1) / 8192].imap as int)->0, (ino - 1) % 8192),
        free_inode(s, ino).1 is Ok,
    ensures
        numbered(free_inode(s, ino).0),
{
    reveal(free_inode);
    let g = (ino - 1) / 8192;
    assert(desc_read(s, g) is Ok);
    let d = desc_read(s, g)->Ok_0;
    assert(group_block(pl, g, 1) == pl[g].imap);
    let bit = (ino - 1) % 8192;
    let im = without_bit(read_block(s, u32_at(d, 4) as int)->0, bit);
    let s1 = write_block(s, u32_at(d, 4) as int, im).0;
    three_counted(s, pl, g, 1, bit, false, read_block(s1, u32_at(d, 0) as int)->0, im);
}

} // verus!
