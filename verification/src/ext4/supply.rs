//! Blocks and inodes as a supply: what taking one and giving one back does to
//! the bitmaps, and that nothing else changes.

use vstd::prelude::*;
use crate::bytes::{put16, splice, u32_at, zero_bytes};
use crate::ext4::counts::{
    counted, freed_block_counted, freed_inode_counted, numbered, stays_apart, steady,
    taken_block_counted, taken_inode_counted,
};
use crate::ext4::laws::{outside_journal, same_volume};
use crate::ext4::model::{
    alloc_block, alloc_block_from, alloc_inode, alloc_inode_from, bit_set, bitmap_csum, clear_from,
    desc_block_of, desc_read, desc_write, free_block, free_inode, group_blocks, inode_block,
    inode_load, inode_off, read_block, sb_bump_blocks, sb_bump_inodes, sb_read, set_split_count,
    split_count, take_block, take_inode, update_sb_free_blocks, update_sb_free_inodes, with_bit,
    with_bitmap_csums, without_bit, write_block,
};
use crate::ext4::space::{
    behind_kept, bit_is_cleared, bit_is_set, block_len, block_step, desc_step, group_block, in_use,
    inode_in_use, is_system, laid_out, others_kept, place_of, places_apart, shape, shape_stays,
    space_ok, super_step, top, Place,
};
use crate::fs::{Ext4Info, FsErr, FsView};

verus! {

/// Counts and checksums leave the places that a descriptor names.
pub(crate) proof fn places_stay(d: Seq<u8>, bmap: Seq<u8>, imap: Seq<u8>, lo: int, hi: int, v: u64)
    requires
        d.len() == 64,
        12 <= lo <= 62,
        12 <= hi <= 62,
    ensures
        ({
            let e = set_split_count(with_bitmap_csums(d, bmap, imap), lo, hi, v);
            &&& e.len() == 64
            &&& place_of(e) == place_of(d)
        }),
{
    let a = put16(d, 24, bitmap_csum(bmap));
    let b = put16(a, 26, bitmap_csum(imap));
    let c = splice(b, 56, zero_bytes(4));
    let l = (v % 0x1_0000) as u16;
    let h = (v / 0x1_0000 % 0x1_0000) as u16;
    let e = put16(c, lo, l);
    let f = put16(e, hi, h);
    assert(c == with_bitmap_csums(d, bmap, imap));
    assert(f == set_split_count(c, lo, hi, v));
    assert(f.len() == 64);
    assert(forall|k: int| 0 <= k < 12 ==> f[k] == d[k]);
}

/// The new count in the superblock changes no block behind the table.
proof fn count_blocks_step(s: FsView, pl: Seq<Place>, delta: int)
    requires
        laid_out(s, pl),
        update_sb_free_blocks(s, delta).1 is Ok,
    ensures
        ({
            let t = update_sb_free_blocks(s, delta).0;
            &&& laid_out(t, pl)
            &&& same_volume(s, t)
            &&& others_kept(s, t, 0)
            &&& shape(t) == shape(s)
        }),
{
    block_len(s, 0);
    shape_stays(sb_read(s)->Ok_0, delta);
    super_step(s, pl, sb_bump_blocks(sb_read(s)->Ok_0, delta));
}

proof fn count_inodes_step(s: FsView, pl: Seq<Place>, delta: int)
    requires
        laid_out(s, pl),
        update_sb_free_inodes(s, delta).1 is Ok,
    ensures
        ({
            let t = update_sb_free_inodes(s, delta).0;
            &&& laid_out(t, pl)
            &&& same_volume(s, t)
            &&& others_kept(s, t, 0)
            &&& shape(t) == shape(s)
        }),
{
    block_len(s, 0);
    shape_stays(sb_read(s)->Ok_0, delta);
    super_step(s, pl, sb_bump_inodes(sb_read(s)->Ok_0, delta));
}

/// What is common to the changes of a bitmap: block `blk` is replaced, and
/// beyond it only the descriptor table and the superblock change.
pub open spec fn remapped(s: FsView, t: FsView, pl: Seq<Place>, blk: int, map: Seq<u8>) -> bool {
    &&& laid_out(t, pl)
    &&& same_volume(s, t)
    &&& read_block(t, blk) == Some(map)
    &&& behind_kept(s, t, pl, blk)
    &&& shape(t) == shape(s)
}

/// A bitmap is written, then a descriptor, then the superblock.
proof fn three_steps(s: FsView, s1: FsView, s2: FsView, s3: FsView, pl: Seq<Place>, g: int, j: int, map: Seq<u8>)
    requires
        laid_out(s, pl),
        0 <= g < pl.len(),
        0 <= j < 2,
        same_volume(s, s1),
        read_block(s1, group_block(pl, g, j)) == Some(map),
        others_kept(s, s1, group_block(pl, g, j)),
        same_volume(s1, s2),
        others_kept(s1, s2, desc_block_of(g)),
        same_volume(s2, s3),
        others_kept(s2, s3, 0),
        shape(s3) == shape(s2),
        laid_out(s3, pl),
    ensures
        remapped(s, s3, pl, group_block(pl, g, j), map),
{
    let blk = group_block(pl, g, j);
    assert(outside_journal(s, blk));
    assert(desc_block_of(g) <= top(pl));
    assert(top(pl) < blk);
    assert(outside_journal(s1, blk));
    assert(outside_journal(s2, blk));
    assert(read_block(s3, blk) == Some(map));
    assert(outside_journal(s, 0));
    assert(outside_journal(s1, 0));
    assert(read_block(s2, 0) == read_block(s1, 0));
    assert forall|b: int| top(pl) < b && b != blk && outside_journal(s, b) implies #[trigger] read_block(
        s3,
        b,
    ) == read_block(s, b) by {
        assert(outside_journal(s1, b));
        assert(outside_journal(s2, b));
        assert(read_block(s2, b) == read_block(s1, b));
    }
}

proof fn take_block_step(s: FsView, pl: Seq<Place>, g: int, d: Seq<u8>, bmap: Seq<u8>, bit: int)
    requires
        laid_out(s, pl),
        0 <= g < pl.len(),
        desc_read(s, g) == Ok::<Seq<u8>, FsErr>(d),
        read_block(s, pl[g].bmap as int) == Some(bmap),
        0 <= bit < 32768,
        take_block(s, g, d, bmap, bit).1 is Ok,
    ensures
        ({
            let (t, r) = take_block(s, g, d, bmap, bit);
            &&& remapped(s, t, pl, pl[g].bmap as int, with_bit(bmap, bit))
            &&& r == Ok::<u32, FsErr>((g * 32768 + bit) as u32)
        }),
{
    reveal(take_block);
    block_len(s, pl[g].bmap as int);
    block_len(s, desc_block_of(g));
    assert(d.len() == 64 && place_of(d) == pl[g]) by {
        reveal(desc_read);
    }
    assert(group_block(pl, g, 0) == pl[g].bmap);
    bit_is_set(bmap, bit, bit);
    let bm = with_bit(bmap, bit);
    block_step(s, pl, pl[g].bmap as int, bm);
    let s1 = write_block(s, u32_at(d, 0) as int, bm).0;
    let imap = read_block(s1, u32_at(d, 4) as int)->0;
    let d1 = with_bitmap_csums(d, bm, imap);
    let e = set_split_count(d1, 12, 44, (split_count(d1, 12, 44) - 1) as u64);
    places_stay(d, bm, imap, 12, 44, (split_count(d1, 12, 44) - 1) as u64);
    desc_step(s1, pl, g, e);
    let s2 = desc_write(s1, g, e).0;
    count_blocks_step(s2, pl, -1);
    let s3 = update_sb_free_blocks(s2, -1).0;
    three_steps(s, s1, s2, s3, pl, g, 0, bm);
}

proof fn free_block_step(s: FsView, pl: Seq<Place>, blk: u32)
    requires
        laid_out(s, pl),
        blk < 32768 * pl.len(),
        free_block(s, blk).1 is Ok,
    ensures
        ({
            let t = free_block(s, blk).0;
            let p = pl[blk as int / 32768].bmap as int;
            &&& read_block(s, p) is Some
            &&& remapped(s, t, pl, p, without_bit(read_block(s, p)->0, blk as int % 32768))
        }),
{
    reveal(free_block);
    let g = blk as int / 32768;
    let bit = blk as int % 32768;
    let d = desc_read(s, g)->Ok_0;
    block_len(s, pl[g].bmap as int);
    block_len(s, desc_block_of(g));
    assert(d.len() == 64 && place_of(d) == pl[g]) by {
        assert(desc_read(s, g) is Ok);
        reveal(desc_read);
    }
    let bmap = read_block(s, u32_at(d, 0) as int)->0;
    assert(group_block(pl, g, 0) == pl[g].bmap);
    bit_is_cleared(bmap, bit, bit);
    let bm = without_bit(bmap, bit);
    block_step(s, pl, pl[g].bmap as int, bm);
    let s1 = write_block(s, u32_at(d, 0) as int, bm).0;
    let imap = read_block(s1, u32_at(d, 4) as int)->0;
    let d1 = with_bitmap_csums(d, bm, imap);
    let e = set_split_count(d1, 12, 44, (split_count(d1, 12, 44) + 1) as u64);
    places_stay(d, bm, imap, 12, 44, (split_count(d1, 12, 44) + 1) as u64);
    desc_step(s1, pl, g, e);
    let s2 = desc_write(s1, g, e).0;
    count_blocks_step(s2, pl, 1);
    let s3 = update_sb_free_blocks(s2, 1).0;
    three_steps(s, s1, s2, s3, pl, g, 0, bm);
}

proof fn take_inode_step(s: FsView, pl: Seq<Place>, g: int, d: Seq<u8>, imap: Seq<u8>, bit: int)
    requires
        laid_out(s, pl),
        0 <= g < pl.len(),
        desc_read(s, g) == Ok::<Seq<u8>, FsErr>(d),
        read_block(s, pl[g].imap as int) == Some(imap),
        0 <= bit < 8192,
        take_inode(s, g, d, imap, bit).1 is Ok,
    ensures
        ({
            let (t, r) = take_inode(s, g, d, imap, bit);
            &&& remapped(s, t, pl, pl[g].imap as int, with_bit(imap, bit))
            &&& r == Ok::<u32, FsErr>((g * 8192 + bit + 1) as u32)
        }),
{
    reveal(take_inode);
    block_len(s, pl[g].imap as int);
    block_len(s, desc_block_of(g));
    assert(d.len() == 64 && place_of(d) == pl[g]) by {
        reveal(desc_read);
    }
    assert(group_block(pl, g, 1) == pl[g].imap);
    bit_is_set(imap, bit, bit);
    let im = with_bit(imap, bit);
    block_step(s, pl, pl[g].imap as int, im);
    let s1 = write_block(s, u32_at(d, 4) as int, im).0;
    let bmap = read_block(s1, u32_at(d, 0) as int)->0;
    let d1 = with_bitmap_csums(d, bmap, im);
    let e = set_split_count(d1, 14, 46, (split_count(d1, 14, 46) - 1) as u64);
    places_stay(d, bmap, im, 14, 46, (split_count(d1, 14, 46) - 1) as u64);
    desc_step(s1, pl, g, e);
    let s2 = desc_write(s1, g, e).0;
    count_inodes_step(s2, pl, -1);
    let s3 = update_sb_free_inodes(s2, -1).0;
    three_steps(s, s1, s2, s3, pl, g, 1, im);
}

proof fn free_inode_step(s: FsView, pl: Seq<Place>, ino: u32)
    requires
        laid_out(s, pl),
        1 <= ino <= 8192 * pl.len(),
        free_inode(s, ino).1 is Ok,
    ensures
        ({
            let t = free_inode(s, ino).0;
            let p = pl[(ino - 1) / 8192].imap as int;
            &&& read_block(s, p) is Some
            &&& remapped(s, t, pl, p, without_bit(read_block(s, p)->0, (ino - 1) % 8192))
        }),
{
    reveal(free_inode);
    let g = (ino - 1) / 8192;
    let bit = (ino - 1) % 8192;
    let d = desc_read(s, g)->Ok_0;
    block_len(s, pl[g].imap as int);
    block_len(s, desc_block_of(g));
    assert(d.len() == 64 && place_of(d) == pl[g]) by {
        assert(desc_read(s, g) is Ok);
        reveal(desc_read);
    }
    let imap = read_block(s, u32_at(d, 4) as int)->0;
    assert(group_block(pl, g, 1) == pl[g].imap);
    bit_is_cleared(imap, bit, bit);
    let im = without_bit(imap, bit);
    block_step(s, pl, pl[g].imap as int, im);
    let s1 = write_block(s, u32_at(d, 4) as int, im).0;
    let bmap = read_block(s1, u32_at(d, 0) as int)->0;
    let d1 = with_bitmap_csums(d, bmap, im);
    let e = set_split_count(d1, 14, 46, (split_count(d1, 14, 46) + 1) as u64);
    places_stay(d, bmap, im, 14, 46, (split_count(d1, 14, 46) + 1) as u64);
    desc_step(s1, pl, g, e);
    let s2 = desc_write(s1, g, e).0;
    count_inodes_step(s2, pl, 1);
    let s3 = update_sb_free_inodes(s2, 1).0;
    three_steps(s, s1, s2, s3, pl, g, 1, im);
}

// ---------- what the bitmaps say afterwards ----------

/// The inodes, the blocks that hold neither administration nor journal, and
/// the shape of the volume are as they were.
pub open spec fn contents_kept(s: FsView, t: FsView, pl: Seq<Place>) -> bool {
    &&& shape(t) == shape(s)
    &&& forall|x: u32| 1 <= x <= 8192 * pl.len() ==> #[trigger] inode_load(t, x) == inode_load(s, x)
    &&& forall|b: int| !is_system(s, pl, b) ==> #[trigger] read_block(t, b) == read_block(s, b)
}

/// The block that holds an inode is one of the blocks of its group.
pub proof fn inode_place(pl: Seq<Place>, d: Seq<u8>, x: u32)
    requires
        places_apart(pl),
        1 <= x <= 8192 * pl.len(),
        place_of(d) == pl[(x - 1) / 8192],
    ensures
        0 <= (x - 1) / 8192 < pl.len(),
        0 <= (x - 1) % 8192 / 16 < 512,
        inode_block(d, x) == group_block(pl, (x - 1) / 8192, 2 + (x - 1) % 8192 / 16),
        inode_off(x) == (x - 1) % 16 * 256,
{
    let g = (x - 1) / 8192;
    let k = (x - 1) % 8192;
    assert(k * 256 / 4096 == k / 16);
    assert(k * 256 % 4096 == k % 16 * 256);
    assert(k % 16 == (x - 1) % 16);
    assert(top(pl) < group_block(pl, g, 2 + k / 16) <= u32::MAX);
}

/// A changed bitmap changes no inode and no block of data.
proof fn contents_stay(s: FsView, t: FsView, pl: Seq<Place>, g: int, j: int, map: Seq<u8>)
    requires
        laid_out(s, pl),
        0 <= g < pl.len(),
        0 <= j < 2,
        remapped(s, t, pl, group_block(pl, g, j), map),
    ensures
        contents_kept(s, t, pl),
{
    assert forall|x: u32| 1 <= x <= 8192 * pl.len() implies #[trigger] inode_load(t, x) == inode_load(
        s,
        x,
    ) by {
        let h = (x - 1) / 8192;
        assert(desc_read(s, h) is Ok && desc_read(t, h) is Ok);
        let k = 2 + (x - 1) % 8192 / 16;
        inode_place(pl, desc_read(s, h)->Ok_0, x);
        inode_place(pl, desc_read(t, h)->Ok_0, x);
        assert(group_block(pl, h, k) != group_block(pl, g, j));
        assert(outside_journal(s, group_block(pl, h, k)));
        assert(top(pl) < group_block(pl, h, k));
        reveal(inode_load);
    }
    assert forall|b: int| !is_system(s, pl, b) implies #[trigger] read_block(t, b) == read_block(
        s,
        b,
    ) by {
        if b == group_block(pl, g, j) {
            assert(is_system(s, pl, b));
        }
    }
}

/// A block map with one bit changed: what is in use afterwards.
pub(crate) proof fn block_map_changed(s: FsView, t: FsView, pl: Seq<Place>, blk: int, map: Seq<u8>, up: bool)
    requires
        space_ok(s, pl),
        0 <= blk < 32768 * pl.len(),
        !is_system(s, pl, blk),
        remapped(s, t, pl, pl[blk / 32768].bmap as int, map),
        map == (if up {
            with_bit(read_block(s, pl[blk / 32768].bmap as int)->0, blk % 32768)
        } else {
            without_bit(read_block(s, pl[blk / 32768].bmap as int)->0, blk % 32768)
        }),
    ensures
        space_ok(t, pl),
        contents_kept(s, t, pl),
        forall|b: int| #[trigger]
            in_use(t, pl, b) == (if b == blk {
                up
            } else {
                in_use(s, pl, b)
            }),
        forall|x: int| #[trigger] inode_in_use(t, pl, x) == inode_in_use(s, pl, x),
{
    let g = blk / 32768;
    let p = group_block(pl, g, 0);
    contents_stay(s, t, pl, g, 0, map);
    assert forall|h: int| 0 <= h < pl.len() implies #[trigger] read_block(
        t,
        group_block(pl, h, 1),
    ) == read_block(s, group_block(pl, h, 1)) && (h != g ==> read_block(t, pl[h].bmap as int)
        == read_block(s, pl[h].bmap as int)) by {
        assert(group_block(pl, h, 1) != p);
        assert(outside_journal(s, group_block(pl, h, 1)));
        assert(top(pl) < group_block(pl, h, 1));
        assert(outside_journal(s, group_block(pl, h, 0)));
        assert(top(pl) < group_block(pl, h, 0));
        if h != g {
            assert(group_block(pl, h, 0) != p);
        }
    }
    let old_map = read_block(s, pl[g].bmap as int)->0;
    block_len(s, pl[g].bmap as int);
    assert(read_block(s, pl[g].bmap as int) is Some);
    assert forall|b: int| #[trigger]
        in_use(t, pl, b) == (if b == blk {
            up
        } else {
            in_use(s, pl, b)
        }) by {
        if 0 <= b < 32768 * pl.len() {
            let h = b / 32768;
            let z = read_block(t, group_block(pl, h, 1));
            if h == g {
                bit_is_set(old_map, blk % 32768, b % 32768);
                bit_is_cleared(old_map, blk % 32768, b % 32768);
                assert(b % 32768 == blk % 32768 ==> b == blk);
            }
        }
    }
    assert forall|x: int| #[trigger] inode_in_use(t, pl, x) == inode_in_use(s, pl, x) by {
        if 1 <= x <= 8192 * pl.len() {
            let z = read_block(t, group_block(pl, (x - 1) / 8192, 1));
        }
    }
    assert forall|h: int| 0 <= h < pl.len() implies read_block(t, (#[trigger] pl[h]).bmap as int)
        is Some && read_block(t, pl[h].imap as int) is Some by {
        let z = read_block(t, group_block(pl, h, 1));
    }
    assert forall|b: int| is_system(t, pl, b) && 0 <= b < 32768 * pl.len() implies #[trigger] in_use(
        t,
        pl,
        b,
    ) by {
        assert(is_system(s, pl, b));
        assert(in_use(s, pl, b));
    }
}

/// An inode map with one bit changed: what is in use afterwards.
proof fn inode_map_changed(s: FsView, t: FsView, pl: Seq<Place>, x: int, map: Seq<u8>, up: bool)
    requires
        space_ok(s, pl),
        1 <= x <= 8192 * pl.len(),
        remapped(s, t, pl, pl[(x - 1) / 8192].imap as int, map),
        map == (if up {
            with_bit(read_block(s, pl[(x - 1) / 8192].imap as int)->0, (x - 1) % 8192)
        } else {
            without_bit(read_block(s, pl[(x - 1) / 8192].imap as int)->0, (x - 1) % 8192)
        }),
    ensures
        space_ok(t, pl),
        contents_kept(s, t, pl),
        forall|b: int| #[trigger] in_use(t, pl, b) == in_use(s, pl, b),
        forall|y: int| #[trigger]
            inode_in_use(t, pl, y) == (if y == x {
                up
            } else {
                inode_in_use(s, pl, y)
            }),
{
    let g = (x - 1) / 8192;
    let p = group_block(pl, g, 1);
    let old_map = read_block(s, pl[g].imap as int)->0;
    contents_stay(s, t, pl, g, 1, map);
    assert forall|h: int| 0 <= h < pl.len() implies #[trigger] read_block(
        t,
        group_block(pl, h, 0),
    ) == read_block(s, group_block(pl, h, 0)) && (h != g ==> read_block(t, pl[h].imap as int)
        == read_block(s, pl[h].imap as int)) by {
        assert(group_block(pl, h, 0) != p);
        assert(outside_journal(s, group_block(pl, h, 1)));
        assert(top(pl) < group_block(pl, h, 1));
        assert(outside_journal(s, group_block(pl, h, 0)));
        assert(top(pl) < group_block(pl, h, 0));
        if h != g {
            assert(group_block(pl, h, 1) != p);
        }
    }
    block_len(s, pl[g].imap as int);
    assert(read_block(s, pl[g].imap as int) is Some);
    assert forall|y: int| #[trigger]
        inode_in_use(t, pl, y) == (if y == x {
            up
        } else {
            inode_in_use(s, pl, y)
        }) by {
        if 1 <= y <= 8192 * pl.len() {
            let h = (y - 1) / 8192;
            let z = read_block(t, group_block(pl, h, 0));
            if h == g {
                bit_is_set(old_map, (x - 1) % 8192, (y - 1) % 8192);
                bit_is_cleared(old_map, (x - 1) % 8192, (y - 1) % 8192);
                assert((y - 1) % 8192 == (x - 1) % 8192 ==> y == x);
            }
        }
    }
    assert forall|b: int| #[trigger] in_use(t, pl, b) == in_use(s, pl, b) by {
        if 0 <= b < 32768 * pl.len() {
            let z = read_block(t, group_block(pl, b / 32768, 0));
        }
    }
    assert forall|h: int| 0 <= h < pl.len() implies read_block(t, (#[trigger] pl[h]).bmap as int)
        is Some && read_block(t, pl[h].imap as int) is Some by {
        let z = read_block(t, group_block(pl, h, 0));
    }
    assert forall|b: int| is_system(t, pl, b) && 0 <= b < 32768 * pl.len() implies #[trigger] in_use(
        t,
        pl,
        b,
    ) by {
        assert(is_system(s, pl, b));
        assert(in_use(s, pl, b));
    }
}

/// The search finds a clear bit below which all are set.
pub proof fn lowest_clear(bm: Seq<u8>, b: int, n: int)
    ensures
        match clear_from(bm, b, n) {
            Some(k) => b <= k < n && !bit_set(bm, k) && forall|c: int|
                b <= c < k ==> #[trigger] bit_set(bm, c),
            None => forall|c: int| b <= c < n ==> #[trigger] bit_set(bm, c),
        },
    decreases n - b,
{
    if b < n && bit_set(bm, b) {
        lowest_clear(bm, b + 1, n);
    }
}

// ---------- laws ----------

proof fn taken_from(s: FsView, pl: Seq<Place>, i: Ext4Info, g: int)
    requires
        space_ok(s, pl),
        s.ext == Some(i),
        0 <= g,
        alloc_block_from(s, i, g).1 is Ok,
    ensures
        ({
            let (t, r) = alloc_block_from(s, i, g);
            let blk = r->Ok_0 as int;
            &&& space_ok(t, pl)
            &&& steady(s, t)
            &&& contents_kept(s, t, pl)
            &&& 32768 * g <= blk < 32768 * pl.len()
            &&& !is_system(s, pl, blk)
            &&& !in_use(s, pl, blk)
            &&& forall|b: int| #[trigger] in_use(t, pl, b) == (b == blk || in_use(s, pl, b))
            &&& forall|x: int| #[trigger] inode_in_use(t, pl, x) == inode_in_use(s, pl, x)
            &&& forall|b: int|
                32768 * g <= b < blk && b % 32768 < group_blocks(i, b / 32768) ==> #[trigger] in_use(
                    s,
                    pl,
                    b,
                )
        }),
    decreases i.groups - g,
{
    assert(desc_read(s, g) is Ok);
    let d = desc_read(s, g)->Ok_0;
    assert(pl[g].bmap == u32_at(d, 0));
    let bmap = read_block(s, u32_at(d, 0) as int)->0;
    let n = group_blocks(i, g);
    lowest_clear(bmap, 0, n);
    match clear_from(bmap, 0, n) {
        None => {
            taken_from(s, pl, i, g + 1);
            let blk = alloc_block_from(s, i, g + 1).1->Ok_0 as int;
            assert forall|b: int|
                32768 * g <= b < blk && b % 32768 < group_blocks(i, b / 32768) implies #[trigger] in_use(
                s,
                pl,
                b,
            ) by {
                if b < 32768 * (g + 1) {
                    assert(b / 32768 == g);
                    assert(bit_set(bmap, b % 32768));
                }
            }
        },
        Some(bit) => {
            take_block_step(s, pl, g, d, bmap, bit);
            if numbered(s) {
                taken_block_counted(s, pl, g, d, bmap, bit);
            }
            let (t, r) = take_block(s, g, d, bmap, bit);
            let blk = g * 32768 + bit;
            assert(blk / 32768 == g && blk % 32768 == bit);
            assert(!in_use(s, pl, blk));
            assert(!is_system(s, pl, blk));
            block_map_changed(s, t, pl, blk, with_bit(bmap, bit), true);
            stays_apart(s, t, pl, 0);
            assert forall|b: int|
                32768 * g <= b < blk && b % 32768 < group_blocks(i, b / 32768) implies #[trigger] in_use(
                s,
                pl,
                b,
            ) by {
                assert(b / 32768 == g);
                assert(bit_set(bmap, b % 32768));
            }
        },
    }
}

/// Taking a block takes the lowest that is not in use, which is a block for
/// data. It is in use afterwards; what else is in use, the inodes, and the
/// contents of the blocks for data stay as they were.
pub proof fn block_is_taken(s: FsView, pl: Seq<Place>)
    requires
        space_ok(s, pl),
        alloc_block(s).1 is Ok,
    ensures
        ({
            let (t, r) = alloc_block(s);
            let blk = r->Ok_0 as int;
            &&& space_ok(t, pl)
            &&& steady(s, t)
            &&& contents_kept(s, t, pl)
            &&& 0 <= blk < 32768 * pl.len()
            &&& !is_system(s, pl, blk)
            &&& !in_use(s, pl, blk)
            &&& forall|b: int| #[trigger] in_use(t, pl, b) == (b == blk || in_use(s, pl, b))
            &&& forall|x: int| #[trigger] inode_in_use(t, pl, x) == inode_in_use(s, pl, x)
            &&& forall|b: int|
                0 <= b < blk && b % 32768 < group_blocks(s.ext->0, b / 32768) ==> #[trigger] in_use(
                    s,
                    pl,
                    b,
                )
        }),
{
    reveal(alloc_block);
    taken_from(s, pl, s.ext->0, 0);
}

/// Giving back a block for data frees it; what else is in use, the inodes, and
/// the contents of the blocks for data stay as they were.
pub proof fn block_is_freed(s: FsView, pl: Seq<Place>, blk: u32)
    requires
        space_ok(s, pl),
        blk < 32768 * pl.len(),
        !is_system(s, pl, blk as int),
        free_block(s, blk).1 is Ok,
    ensures
        ({
            let t = free_block(s, blk).0;
            &&& space_ok(t, pl)
            &&& same_volume(s, t)
            &&& in_use(s, pl, blk as int) ==> steady(s, t)
            &&& contents_kept(s, t, pl)
            &&& forall|b: int| #[trigger] in_use(t, pl, b) == (b != blk && in_use(s, pl, b))
            &&& forall|x: int| #[trigger] inode_in_use(t, pl, x) == inode_in_use(s, pl, x)
        }),
{
    free_block_step(s, pl, blk);
    if counted(s) && in_use(s, pl, blk as int) {
        freed_block_counted(s, pl, blk);
    }
    let p = pl[blk as int / 32768].bmap as int;
    block_map_changed(
        s,
        free_block(s, blk).0,
        pl,
        blk as int,
        without_bit(read_block(s, p)->0, blk as int % 32768),
        false,
    );
    if counted(s) && in_use(s, pl, blk as int) {
        stays_apart(s, free_block(s, blk).0, pl, 0);
    }
}

/// A block that was taken and given back is as free as it was before, and so
/// is every other.
pub proof fn freeing_undoes_taking(s: FsView, pl: Seq<Place>)
    requires
        space_ok(s, pl),
        alloc_block(s).1 is Ok,
        free_block(alloc_block(s).0, alloc_block(s).1->Ok_0).1 is Ok,
    ensures
        ({
            let u = free_block(alloc_block(s).0, alloc_block(s).1->Ok_0).0;
            &&& space_ok(u, pl)
            &&& contents_kept(s, u, pl)
            &&& forall|b: int| #[trigger] in_use(u, pl, b) == in_use(s, pl, b)
        }),
{
    let (t, r) = alloc_block(s);
    block_is_taken(s, pl);
    assert(is_system(t, pl, r->Ok_0 as int) == is_system(s, pl, r->Ok_0 as int));
    block_is_freed(t, pl, r->Ok_0);
    let u = free_block(t, r->Ok_0).0;
    assert forall|b: int| #[trigger] in_use(u, pl, b) == in_use(s, pl, b) by {
        assert(in_use(t, pl, b) == (b == r->Ok_0 || in_use(s, pl, b)));
    }
    assert forall|b: int| !is_system(s, pl, b) implies #[trigger] read_block(u, b) == read_block(
        s,
        b,
    ) by {
        assert(!is_system(t, pl, b));
        assert(read_block(t, b) == read_block(s, b));
    }
    assert forall|x: u32| 1 <= x <= 8192 * pl.len() implies #[trigger] inode_load(u, x) == inode_load(
        s,
        x,
    ) by {
        assert(inode_load(t, x) == inode_load(s, x));
    }
}

proof fn inode_taken_from(s: FsView, pl: Seq<Place>, i: Ext4Info, g: int)
    requires
        space_ok(s, pl),
        s.ext == Some(i),
        0 <= g,
        alloc_inode_from(s, i, g).1 is Ok,
    ensures
        ({
            let (t, r) = alloc_inode_from(s, i, g);
            let ino = r->Ok_0 as int;
            &&& space_ok(t, pl)
            &&& steady(s, t)
            &&& contents_kept(s, t, pl)
            &&& 8192 * g < ino <= 8192 * pl.len()
            &&& !inode_in_use(s, pl, ino)
            &&& forall|b: int| #[trigger] in_use(t, pl, b) == in_use(s, pl, b)
            &&& forall|x: int| #[trigger]
                inode_in_use(t, pl, x) == (x == ino || inode_in_use(s, pl, x))
            &&& forall|x: int| 8192 * g < x < ino ==> #[trigger] inode_in_use(s, pl, x)
        }),
    decreases i.groups - g,
{
    assert(desc_read(s, g) is Ok);
    let d = desc_read(s, g)->Ok_0;
    assert(pl[g].imap == u32_at(d, 4));
    let imap = read_block(s, u32_at(d, 4) as int)->0;
    lowest_clear(imap, 0, 8192);
    match clear_from(imap, 0, 8192) {
        None => {
            inode_taken_from(s, pl, i, g + 1);
            let ino = alloc_inode_from(s, i, g + 1).1->Ok_0 as int;
            assert forall|x: int| 8192 * g < x < ino implies #[trigger] inode_in_use(s, pl, x) by {
                if x <= 8192 * (g + 1) {
                    assert((x - 1) / 8192 == g);
                    assert(bit_set(imap, (x - 1) % 8192));
                }
            }
        },
        Some(bit) => {
            take_inode_step(s, pl, g, d, imap, bit);
            if numbered(s) {
                taken_inode_counted(s, pl, g, d, imap, bit);
            }
            let (t, r) = take_inode(s, g, d, imap, bit);
            let ino = g * 8192 + bit + 1;
            assert((ino - 1) / 8192 == g && (ino - 1) % 8192 == bit);
            assert(!inode_in_use(s, pl, ino));
            inode_map_changed(s, t, pl, ino, with_bit(imap, bit), true);
            stays_apart(s, t, pl, 0);
            assert forall|x: int| 8192 * g < x < ino implies #[trigger] inode_in_use(s, pl, x) by {
                assert((x - 1) / 8192 == g);
                assert(bit_set(imap, (x - 1) % 8192));
            }
        },
    }
}

/// Taking an inode takes the lowest that is not in use. It is in use
/// afterwards; what else is in use, and all contents, stay as they were.
pub proof fn inode_is_taken(s: FsView, pl: Seq<Place>)
    requires
        space_ok(s, pl),
        alloc_inode(s).1 is Ok,
    ensures
        ({
            let (t, r) = alloc_inode(s);
            let ino = r->Ok_0 as int;
            &&& space_ok(t, pl)
            &&& steady(s, t)
            &&& contents_kept(s, t, pl)
            &&& 0 < ino <= 8192 * pl.len()
            &&& !inode_in_use(s, pl, ino)
            &&& forall|b: int| #[trigger] in_use(t, pl, b) == in_use(s, pl, b)
            &&& forall|x: int| #[trigger]
                inode_in_use(t, pl, x) == (x == ino || inode_in_use(s, pl, x))
            &&& forall|x: int| 0 < x < ino ==> #[trigger] inode_in_use(s, pl, x)
        }),
{
    reveal(alloc_inode);
    inode_taken_from(s, pl, s.ext->0, 0);
}

/// Giving back an inode frees it; what else is in use, and all contents, stay
/// as they were.
pub proof fn inode_is_freed(s: FsView, pl: Seq<Place>, ino: u32)
    requires
        space_ok(s, pl),
        1 <= ino <= 8192 * pl.len(),
        counted(s) ==> inode_in_use(s, pl, ino as int),
        free_inode(s, ino).1 is Ok,
    ensures
        ({
            let t = free_inode(s, ino).0;
            &&& space_ok(t, pl)
            &&& steady(s, t)
            &&& contents_kept(s, t, pl)
            &&& forall|b: int| #[trigger] in_use(t, pl, b) == in_use(s, pl, b)
            &&& forall|x: int| #[trigger]
                inode_in_use(t, pl, x) == (x != ino && inode_in_use(s, pl, x))
        }),
{
    free_inode_step(s, pl, ino);
    if counted(s) {
        freed_inode_counted(s, pl, ino);
    }
    let p = pl[(ino - 1) / 8192].imap as int;
    inode_map_changed(
        s,
        free_inode(s, ino).0,
        pl,
        ino as int,
        without_bit(read_block(s, p)->0, (ino - 1) % 8192),
        false,
    );
    if counted(s) {
        stays_apart(s, free_inode(s, ino).0, pl, 0);
    }
}

// ---------- the search ----------

proof fn searched_from(s: FsView, pl: Seq<Place>, i: Ext4Info, g: int, b: int)
    requires
        space_ok(s, pl),
        s.ext == Some(i),
        0 <= g <= pl.len(),
    ensures
        (forall|x: int|
            32768 * g <= x < 32768 * pl.len() && x % 32768 < group_blocks(i, x / 32768)
                ==> #[trigger] in_use(s, pl, x)) ==> alloc_block_from(s, i, g) == (
            s,
            Err::<u32, FsErr>(FsErr::NoSpace),
        ),
        32768 * g <= b < 32768 * pl.len() && b % 32768 < group_blocks(i, b / 32768) && !in_use(s, pl, b)
            && (forall|x: int|
            32768 * g <= x < b && x % 32768 < group_blocks(i, x / 32768) ==> #[trigger] in_use(
                s,
                pl,
                x,
            )) ==> alloc_block_from(s, i, g) == take_block(
            s,
            b / 32768,
            desc_read(s, b / 32768)->Ok_0,
            read_block(s, pl[b / 32768].bmap as int)->0,
            b % 32768,
        ),
    decreases i.groups - g,
{
    if g < i.groups {
        assert(desc_read(s, g) is Ok);
        let d = desc_read(s, g)->Ok_0;
        assert(pl[g].bmap == u32_at(d, 0));
        let bmap = read_block(s, u32_at(d, 0) as int)->0;
        let n = group_blocks(i, g);
        lowest_clear(bmap, 0, n);
        group_is_small(i, g);
        searched_from(s, pl, i, g + 1, b);
        match clear_from(bmap, 0, n) {
            None => {
                if b < 32768 * (g + 1) && 32768 * g <= b {
                    assert(b / 32768 == g);
                    if b % 32768 < n {
                        assert(bit_set(bmap, b % 32768));
                    }
                }
            },
            Some(bit) => {
                let f = 32768 * g + bit;
                assert(f / 32768 == g && f % 32768 == bit);
                assert(!in_use(s, pl, f));
                if 32768 * g <= b < 32768 * pl.len() && b % 32768 < group_blocks(i, b / 32768)
                    && !in_use(s, pl, b) && (forall|x: int|
                    32768 * g <= x < b && x % 32768 < group_blocks(i, x / 32768) ==> #[trigger] in_use(
                        s,
                        pl,
                        x,
                    )) {
                    assert(f >= b) by {
                        if f < b {
                            assert(in_use(s, pl, f));
                        }
                    }
                    if b < f {
                        assert(b / 32768 == g);
                        assert(bit_set(bmap, b % 32768));
                    }
                }
            },
        }
    }
}

proof fn group_is_small(i: Ext4Info, g: int)
    ensures
        group_blocks(i, g) <= 32768,
{
}

/// A block is owed as long as one is free: the lowest block that is not in use is
/// the one that is taken. Only where every block is in use is there no space, and
/// then nothing changes.
pub proof fn space_runs_out_with_the_last_block(s: FsView, pl: Seq<Place>, b: int)
    requires
        space_ok(s, pl),
    ensures
        (forall|x: int|
            0 <= x < 32768 * pl.len() && x % 32768 < group_blocks(s.ext->0, x / 32768)
                ==> #[trigger] in_use(s, pl, x)) ==> alloc_block(s) == (
            s,
            Err::<u32, FsErr>(FsErr::NoSpace),
        ),
        0 <= b < 32768 * pl.len() && b % 32768 < group_blocks(s.ext->0, b / 32768) && !in_use(s, pl, b)
            && (forall|x: int|
            0 <= x < b && x % 32768 < group_blocks(s.ext->0, x / 32768) ==> #[trigger] in_use(
                s,
                pl,
                x,
            )) ==> alloc_block(s) == take_block(
            s,
            b / 32768,
            desc_read(s, b / 32768)->Ok_0,
            read_block(s, pl[b / 32768].bmap as int)->0,
            b % 32768,
        ),
{
    reveal(alloc_block);
    searched_from(s, pl, s.ext->0, 0, b);
}

proof fn inodes_searched_from(s: FsView, pl: Seq<Place>, i: Ext4Info, g: int, n: int)
    requires
        space_ok(s, pl),
        s.ext == Some(i),
        0 <= g <= pl.len(),
    ensures
        (forall|x: int| 8192 * g < x <= 8192 * pl.len() ==> #[trigger] inode_in_use(s, pl, x))
            ==> alloc_inode_from(s, i, g) == (s, Err::<u32, FsErr>(FsErr::NoSpace)),
        8192 * g < n <= 8192 * pl.len() && !inode_in_use(s, pl, n) && (forall|x: int|
            8192 * g < x < n ==> #[trigger] inode_in_use(s, pl, x)) ==> alloc_inode_from(s, i, g)
            == take_inode(
            s,
            (n - 1) / 8192,
            desc_read(s, (n - 1) / 8192)->Ok_0,
            read_block(s, pl[(n - 1) / 8192].imap as int)->0,
            (n - 1) % 8192,
        ),
    decreases i.groups - g,
{
    if g < i.groups {
        assert(desc_read(s, g) is Ok);
        let d = desc_read(s, g)->Ok_0;
        assert(pl[g].imap == u32_at(d, 4));
        let imap = read_block(s, u32_at(d, 4) as int)->0;
        lowest_clear(imap, 0, 8192);
        inodes_searched_from(s, pl, i, g + 1, n);
        match clear_from(imap, 0, 8192) {
            None => {
                if 8192 * g < n <= 8192 * (g + 1) {
                    assert((n - 1) / 8192 == g);
                    assert(bit_set(imap, (n - 1) % 8192));
                }
            },
            Some(bit) => {
                let f = 8192 * g + bit + 1;
                assert((f - 1) / 8192 == g && (f - 1) % 8192 == bit);
                assert(!inode_in_use(s, pl, f));
                if 8192 * g < n <= 8192 * pl.len() && !inode_in_use(s, pl, n) && (forall|x: int|
                    8192 * g < x < n ==> #[trigger] inode_in_use(s, pl, x)) {
                    assert(f >= n) by {
                        if f < n {
                            assert(inode_in_use(s, pl, f));
                        }
                    }
                    if n < f {
                        assert((n - 1) / 8192 == g);
                        assert(bit_set(imap, (n - 1) % 8192));
                    }
                }
            },
        }
    }
}

/// An inode is owed as long as one is free: the lowest one that is not in use is
/// the one that is taken. Only where all are in use is there no space, and then
/// nothing changes.
pub proof fn inodes_run_out_with_the_last_one(s: FsView, pl: Seq<Place>, n: int)
    requires
        space_ok(s, pl),
    ensures
        (forall|x: int| 0 < x <= 8192 * pl.len() ==> #[trigger] inode_in_use(s, pl, x))
            ==> alloc_inode(s) == (s, Err::<u32, FsErr>(FsErr::NoSpace)),
        0 < n <= 8192 * pl.len() && !inode_in_use(s, pl, n) && (forall|x: int|
            0 < x < n ==> #[trigger] inode_in_use(s, pl, x)) ==> alloc_inode(s) == take_inode(
            s,
            (n - 1) / 8192,
            desc_read(s, (n - 1) / 8192)->Ok_0,
            read_block(s, pl[(n - 1) / 8192].imap as int)->0,
            (n - 1) % 8192,
        ),
{
    reveal(alloc_inode);
    inodes_searched_from(s, pl, s.ext->0, 0, n);
}

} // verus!
