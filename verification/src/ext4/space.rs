//! How the volume is divided: the blocks that hold its administration, and
//! what the two bitmaps say of the others.

use vstd::prelude::*;
use crate::bytes::{le16, put16, splice, splice_keeps_fields, u32_at};
use crate::ext4::laws::{journal_ok, outside_journal, same_volume, written_block_reads_back};
use crate::ext4::model::{
    bit_mask, bit_set, desc_block_of, desc_csum, desc_off_of, desc_read, desc_write, read_block,
    sb_bump_blocks, sb_bump_inodes, sb_read, sb_with_csum, sb_write, with_bit, without_bit,
    write_block,
};
use crate::fs::{FsErr, FsView};

verus! {

/// Where a group keeps its two bitmaps and its inode table.
#[verifier::ext_equal]
pub struct Place {
    pub bmap: u32,
    pub imap: u32,
    pub table: u32,
}

/// The places that a group descriptor names.
pub open spec fn place_of(d: Seq<u8>) -> Place {
    Place { bmap: u32_at(d, 0), imap: u32_at(d, 4), table: u32_at(d, 8) }
}

/// The `j`-th of the 514 blocks of group `g` that hold bitmaps and inodes.
pub open spec fn group_block(pl: Seq<Place>, g: int, j: int) -> int {
    if j == 0 {
        pl[g].bmap as int
    } else if j == 1 {
        pl[g].imap as int
    } else {
        pl[g].table + j - 2
    }
}

/// The last block of the descriptor table; the superblock and the table stand
/// in the blocks up to it.
pub open spec fn top(pl: Seq<Place>) -> int {
    desc_block_of(pl.len() - 1)
}

/// No two groups share a block, and none stands in the descriptor table.
pub open spec fn places_apart(pl: Seq<Place>) -> bool {
    &&& forall|g: int, j: int|
        0 <= g < pl.len() && 0 <= j < 514 ==> top(pl) < #[trigger] group_block(pl, g, j) <= u32::MAX
    &&& forall|g: int, j: int, h: int, k: int|
        0 <= g < pl.len() && 0 <= j < 514 && 0 <= h < pl.len() && 0 <= k < 514 && #[trigger] group_block(
            pl,
            g,
            j,
        ) == #[trigger] group_block(pl, h, k) ==> g == h && j == k
}

/// The descriptors name the places, and none of the blocks is a block of the
/// journal.
pub open spec fn laid_out(s: FsView, pl: Seq<Place>) -> bool {
    &&& journal_ok(s)
    &&& s.ext is Some
    &&& s.ext->0.groups == pl.len()
    &&& 1 <= pl.len() <= 1024
    &&& places_apart(pl)
    &&& forall|g: int|
        0 <= g < pl.len() ==> (#[trigger] desc_read(s, g)) is Ok && place_of(desc_read(s, g)->Ok_0)
            == pl[g]
    &&& forall|b: int| 0 <= b <= top(pl) ==> #[trigger] outside_journal(s, b)
    &&& forall|g: int, j: int|
        0 <= g < pl.len() && 0 <= j < 514 ==> outside_journal(s, #[trigger] group_block(pl, g, j))
}

/// The block belongs to the administration of the volume or to the journal.
pub open spec fn is_system(s: FsView, pl: Seq<Place>, b: int) -> bool {
    ||| b <= top(pl)
    ||| !outside_journal(s, b)
    ||| exists|g: int, j: int|
        0 <= g < pl.len() && 0 <= j < 514 && b == #[trigger] group_block(pl, g, j)
}

/// The bitmaps can be read.
pub open spec fn maps_there(s: FsView, pl: Seq<Place>) -> bool {
    forall|g: int|
        0 <= g < pl.len() ==> read_block(s, (#[trigger] pl[g]).bmap as int) is Some && read_block(
            s,
            pl[g].imap as int,
        ) is Some
}

/// The block is marked as used.
pub open spec fn in_use(s: FsView, pl: Seq<Place>, b: int) -> bool {
    &&& 0 <= b < 32768 * pl.len()
    &&& bit_set(read_block(s, pl[b / 32768].bmap as int)->0, b % 32768)
}

/// The inode is marked as used.
pub open spec fn inode_in_use(s: FsView, pl: Seq<Place>, ino: int) -> bool {
    &&& 1 <= ino <= 8192 * pl.len()
    &&& bit_set(read_block(s, pl[(ino - 1) / 8192].imap as int)->0, (ino - 1) % 8192)
}

/// A volume whose blocks are accounted for: those of the administration and
/// of the journal are marked as used.
pub open spec fn space_ok(s: FsView, pl: Seq<Place>) -> bool {
    &&& laid_out(s, pl)
    &&& maps_there(s, pl)
    &&& forall|b: int|
        is_system(s, pl, b) && 0 <= b < 32768 * pl.len() ==> #[trigger] in_use(s, pl, b)
}

// ---------- bits ----------

/// Setting a bit sets that bit alone.
pub proof fn bit_is_set(bm: Seq<u8>, b: int, c: int)
    requires
        0 <= b < 8 * bm.len(),
        0 <= c < 8 * bm.len(),
    ensures
        with_bit(bm, b).len() == bm.len(),
        bit_set(with_bit(bm, b), c) == (c == b || bit_set(bm, c)),
{
    if !bit_set(bm, b) && b / 8 == c / 8 {
        let v = bm[b / 8];
        let m = bit_mask(b);
        let n = bit_mask(c);
        one_bit(v, m, n);
    }
}

/// Clearing a bit clears that bit alone.
pub proof fn bit_is_cleared(bm: Seq<u8>, b: int, c: int)
    requires
        0 <= b < 8 * bm.len(),
        0 <= c < 8 * bm.len(),
    ensures
        without_bit(bm, b).len() == bm.len(),
        bit_set(without_bit(bm, b), c) == (c != b && bit_set(bm, c)),
{
    if bit_set(bm, b) && b / 8 == c / 8 {
        let v = bm[b / 8];
        let m = bit_mask(b);
        let n = bit_mask(c);
        one_bit(v, m, n);
    }
}

spec fn power(m: u8) -> bool {
    m == 1 || m == 2 || m == 4 || m == 8 || m == 16 || m == 32 || m == 64 || m == 128
}

/// A bit of a byte does not depend on the others.
proof fn one_bit(v: u8, m: u8, n: u8)
    requires
        power(m),
        power(n),
    ensures
        v / m % 2 == 0 ==> v + m < 256 && ((v + m) as u8 / n % 2 == 1) == (m == n || v / n % 2 == 1),
        v / m % 2 == 1 ==> v >= m && ((v - m) as u8 / n % 2 == 1) == (m != n && v / n % 2 == 1),
{
    assert(v / m % 2 == 0 ==> v as int + m as int <= 255);
    assert(v / m % 2 == 1 ==> v >= m);
    let up = (v + m) as u8;
    let down = (v - m) as u8;
    assert((v / m % 2 == 0 && up == (v + m) as u8) ==> ((up / n % 2 == 1) == (m == n || v / n % 2 == 1)))
        by (bit_vector)
        requires
            m == 1 || m == 2 || m == 4 || m == 8 || m == 16 || m == 32 || m == 64 || m == 128,
            n == 1 || n == 2 || n == 4 || n == 8 || n == 16 || n == 32 || n == 64 || n == 128,
    ;
    assert((v / m % 2 == 1 && down == (v - m) as u8) ==> ((down / n % 2 == 1) == (m != n && v / n % 2 == 1)))
        by (bit_vector)
        requires
            m == 1 || m == 2 || m == 4 || m == 8 || m == 16 || m == 32 || m == 64 || m == 128,
            n == 1 || n == 2 || n == 4 || n == 8 || n == 16 || n == 32 || n == 64 || n == 128,
    ;
}

// ---------- what a write leaves as it was ----------

/// What the superblock says of the shape of the volume: the two halves of the
/// block count, the blocks of a group, and the features.
pub open spec fn shape_of(sb: Seq<u8>) -> (u32, u32, u32, u32) {
    (u32_at(sb, 4), u32_at(sb, 332), u32_at(sb, 32), u32_at(sb, 96))
}

/// The shape that the superblock of the volume gives.
pub open spec fn shape(s: FsView) -> (u32, u32, u32, u32) {
    shape_of(sb_read(s)->Ok_0)
}

/// The free counts and the checksum leave the shape as it was.
pub proof fn shape_stays(sb: Seq<u8>, delta: int)
    requires
        sb.len() == 1024,
    ensures
        sb_bump_blocks(sb, delta).len() == 1024,
        sb_bump_inodes(sb, delta).len() == 1024,
        sb_with_csum(sb).len() == 1024,
        shape_of(sb_bump_blocks(sb, delta)) == shape_of(sb),
        shape_of(sb_bump_inodes(sb, delta)) == shape_of(sb),
        shape_of(sb_with_csum(sb)) == shape_of(sb),
{
    let a = sb_bump_blocks(sb, delta);
    let b = sb_bump_inodes(sb, delta);
    let c = sb_with_csum(sb);
    assert forall|k: int|
        4 <= k < 8 || 332 <= k < 336 || 32 <= k < 36 || 96 <= k < 100 implies #[trigger] a[k] == sb[k]
        && b[k] == sb[k] && c[k] == sb[k] by {}
    assert(a[4] == sb[4] && a[332] == sb[332] && a[32] == sb[32] && a[96] == sb[96]);
    assert(b[4] == sb[4] && b[332] == sb[332] && b[32] == sb[32] && b[96] == sb[96]);
    assert(c[4] == sb[4] && c[332] == sb[332] && c[32] == sb[32] && c[96] == sb[96]);
}

/// The blocks that can be read are 4096 bytes long.
pub proof fn block_len(s: FsView, b: int)
    ensures
        read_block(s, b) matches Some(d) ==> d.len() == 4096,
{
    reveal(read_block);
}

/// Every block outside the journal but `blk` is as it was.
pub open spec fn others_kept(s: FsView, t: FsView, blk: int) -> bool {
    forall|b: int|
        b != blk && outside_journal(s, b) ==> #[trigger] read_block(t, b) == read_block(s, b)
}

/// Every block behind the descriptor table and outside the journal but `blk`
/// is as it was.
pub open spec fn behind_kept(s: FsView, t: FsView, pl: Seq<Place>, blk: int) -> bool {
    forall|b: int|
        top(pl) < b && b != blk && outside_journal(s, b) ==> #[trigger] read_block(t, b)
            == read_block(s, b)
}

/// A write behind the descriptor table leaves the places as they were.
pub proof fn block_step(s: FsView, pl: Seq<Place>, blk: int, data: Seq<u8>)
    requires
        laid_out(s, pl),
        top(pl) < blk <= u32::MAX,
        outside_journal(s, blk),
        data.len() == 4096,
        write_block(s, blk, data).1,
    ensures
        ({
            let t = write_block(s, blk, data).0;
            &&& laid_out(t, pl)
            &&& same_volume(s, t)
            &&& read_block(t, blk) == Some(data)
            &&& others_kept(s, t, blk)
            &&& forall|g: int| 0 <= g < pl.len() ==> #[trigger] desc_read(t, g) == desc_read(s, g)
            &&& read_block(t, 0) == read_block(s, 0)
        }),
{
    written_block_reads_back(s, blk, data);
    let t = write_block(s, blk, data).0;
    assert(outside_journal(s, 0));
    assert forall|g: int| 0 <= g < pl.len() implies #[trigger] desc_read(t, g) == desc_read(s, g) by {
        assert(outside_journal(s, desc_block_of(g)));
        reveal(desc_read);
    }
    assert forall|b: int| 0 <= b <= top(pl) implies #[trigger] outside_journal(t, b) by {
        assert(outside_journal(s, b));
    }
    assert forall|g: int, j: int| 0 <= g < pl.len() && 0 <= j < 514 implies outside_journal(
        t,
        #[trigger] group_block(pl, g, j),
    ) by {
        assert(outside_journal(s, group_block(pl, g, j)));
    }
}

/// Storing a descriptor that names the same places leaves the places, and all
/// blocks outside the table, as they were.
pub proof fn desc_step(s: FsView, pl: Seq<Place>, g: int, d: Seq<u8>)
    requires
        laid_out(s, pl),
        0 <= g < pl.len(),
        d.len() == 64,
        place_of(d) == pl[g],
        desc_write(s, g, d).1 is Ok,
    ensures
        ({
            let t = desc_write(s, g, d).0;
            &&& laid_out(t, pl)
            &&& same_volume(s, t)
            &&& others_kept(s, t, desc_block_of(g))
            &&& desc_read(t, g) == Ok::<Seq<u8>, FsErr>(put16(d, 30, desc_csum(g, d)))
            &&& forall|h: int|
                0 <= h < pl.len() && h != g ==> #[trigger] desc_read(t, h) == desc_read(s, h)
        }),
{
    reveal(desc_write);
    let blk = desc_block_of(g);
    let o = desc_off_of(g);
    assert(outside_journal(s, blk));
    block_len(s, blk);
    let b = read_block(s, blk)->0;
    let e = put16(d, 30, desc_csum(g, d));
    let data = splice(b, o, e);
    assert(o + 64 <= 4096);
    written_block_reads_back(s, blk, data);
    let t = desc_write(s, g, d).0;
    assert forall|h: int| 0 <= h < pl.len() implies (#[trigger] desc_read(t, h)) is Ok && place_of(
        desc_read(t, h)->Ok_0,
    ) == pl[h] && (h == g ==> desc_read(t, h)->Ok_0 == e) && (h != g ==> desc_read(t, h) == desc_read(
        s,
        h,
    )) by {
        let bh = desc_block_of(h);
        let oh = desc_off_of(h);
        assert(desc_read(s, h) is Ok && place_of(desc_read(s, h)->Ok_0) == pl[h]);
        assert(outside_journal(s, bh));
        reveal(desc_read);
        block_len(s, bh);
        assert(oh + 64 <= 4096);
        if bh == blk {
            if h == g {
                let r = data.subrange(o, o + 64);
                assert(r =~= e);
                splice_keeps_fields(d, 30, le16(desc_csum(g, d)), 0);
                splice_keeps_fields(d, 30, le16(desc_csum(g, d)), 4);
                splice_keeps_fields(d, 30, le16(desc_csum(g, d)), 8);
            } else {
                assert(oh + 64 <= o || o + 64 <= oh);
                assert(data.subrange(oh, oh + 64) =~= b.subrange(oh, oh + 64));
            }
        }
    }
    assert forall|b: int| 0 <= b <= top(pl) implies #[trigger] outside_journal(t, b) by {
        assert(outside_journal(s, b));
    }
    assert forall|g: int, j: int| 0 <= g < pl.len() && 0 <= j < 514 implies outside_journal(
        t,
        #[trigger] group_block(pl, g, j),
    ) by {
        assert(outside_journal(s, group_block(pl, g, j)));
    }
}

/// Storing the superblock changes no other block.
pub proof fn super_step(s: FsView, pl: Seq<Place>, sb: Seq<u8>)
    requires
        laid_out(s, pl),
        sb.len() == 1024,
        sb_write(s, sb).1 is Ok,
    ensures
        ({
            let t = sb_write(s, sb).0;
            &&& laid_out(t, pl)
            &&& same_volume(s, t)
            &&& others_kept(s, t, 0)
            &&& shape(t) == shape_of(sb)
            &&& sb_read(t) == Ok::<Seq<u8>, FsErr>(
                if s.ext->0.has_csum {
                    sb_with_csum(sb)
                } else {
                    sb
                },
            )
            &&& forall|g: int| 0 <= g < pl.len() ==> #[trigger] desc_read(t, g) == desc_read(s, g)
        }),
{
    reveal(sb_write);
    assert(outside_journal(s, 0));
    block_len(s, 0);
    let u = if s.ext->0.has_csum {
        sb_with_csum(sb)
    } else {
        sb
    };
    let data = splice(read_block(s, 0)->0, 1024, u);
    assert(data.len() == 4096);
    written_block_reads_back(s, 0, data);
    shape_stays(sb, 0);
    assert(data.subrange(1024, 2048) =~= u);
    let t = sb_write(s, sb).0;
    assert forall|g: int| 0 <= g < pl.len() implies #[trigger] desc_read(t, g) == desc_read(s, g) by {
        assert(outside_journal(s, desc_block_of(g)));
        reveal(desc_read);
    }
    assert forall|b: int| 0 <= b <= top(pl) implies #[trigger] outside_journal(t, b) by {
        assert(outside_journal(s, b));
    }
    assert forall|g: int, j: int| 0 <= g < pl.len() && 0 <= j < 514 implies outside_journal(
        t,
        #[trigger] group_block(pl, g, j),
    ) by {
        assert(outside_journal(s, group_block(pl, g, j)));
    }
}

} // verus!
