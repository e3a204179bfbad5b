//! What the inode table and the blocks for data give back.

use vstd::prelude::*;
use crate::bytes::{
    le16, put16, put16_then_read, splice, splice_keeps_fields, u16_at, zero_bytes,
};
use crate::ext4::counts::{counted, counts_stay, runs_apart, stays_apart, steady};
use crate::ext4::laws::{outside_journal, same_volume};
use crate::ext4::model::{
    desc_read, ino_extents, inode_block, inode_csum, inode_load, inode_off, inode_save,
    inode_stored_csum, inode_with_csum, read_block, write_block,
};
use crate::ext4::space::{
    block_len, block_step, group_block, in_use, inode_in_use, is_system, laid_out, others_kept,
    shape, space_ok, top, Place,
};
use crate::ext4::supply::inode_place;
use crate::fs::{FsErr, FsView};

verus! {

/// What the inode table holds of the inode `raw`: on a volume with checksums
/// the inode carries one.
pub open spec fn stored(s: FsView, x: u32, raw: Seq<u8>) -> Seq<u8> {
    if s.ext->0.has_csum && u16_at(raw, 128) > 0 {
        inode_with_csum(x, raw)
    } else {
        raw
    }
}

/// The checksum takes up four bytes; the others stay.
pub proof fn stored_fields(s: FsView, x: u32, raw: Seq<u8>)
    requires
        raw.len() == 256,
    ensures
        stored(s, x, raw).len() == 256,
        forall|k: int|
            0 <= k < 256 && k != 124 && k != 125 && k != 130 && k != 131 ==> #[trigger] stored(
                s,
                x,
                raw,
            )[k] == raw[k],
{
}

/// A checksum that was stored is found right.
proof fn checksum_fits(x: u32, raw: Seq<u8>)
    requires
        raw.len() == 256,
    ensures
        ({
            let t = inode_with_csum(x, raw);
            &&& u16_at(t, 128) == u16_at(raw, 128)
            &&& u16_at(raw, 128) <= 128 ==> inode_stored_csum(t) == inode_csum(x, t, u16_at(t, 128))
        }),
{
    let c = inode_csum(x, raw, u16_at(raw, 128));
    let lo = (c % 0x1_0000) as u16;
    let hi = (c / 0x1_0000) as u16;
    let a = put16(raw, 124, lo);
    let t = put16(a, 130, hi);
    put16_then_read(raw, 124, lo);
    put16_then_read(a, 130, hi);
    splice_keeps_fields(a, 130, le16(hi), 124);
    splice_keeps_fields(a, 130, le16(hi), 128);
    splice_keeps_fields(raw, 124, le16(lo), 128);
    let z = zero_bytes(2);
    assert(splice(splice(t, 124, z), 130, z) =~= splice(splice(raw, 124, z), 130, z));
}

/// The inodes, the bitmaps and the shape of the volume are as they were.
pub open spec fn admin_kept(s: FsView, t: FsView, pl: Seq<Place>) -> bool {
    &&& shape(t) == shape(s)
    &&& forall|x: u32| 1 <= x <= 8192 * pl.len() ==> #[trigger] inode_load(t, x) == inode_load(s, x)
    &&& maps_kept(s, t, pl)
}

/// The bitmaps are as they were.
pub open spec fn maps_kept(s: FsView, t: FsView, pl: Seq<Place>) -> bool {
    &&& forall|b: int| #[trigger] in_use(t, pl, b) == in_use(s, pl, b)
    &&& forall|x: int| #[trigger] inode_in_use(t, pl, x) == inode_in_use(s, pl, x)
}

/// A write outside the bitmaps leaves them as they were.
pub proof fn maps_stay(s: FsView, t: FsView, pl: Seq<Place>, blk: int)
    requires
        space_ok(s, pl),
        laid_out(t, pl),
        same_volume(s, t),
        others_kept(s, t, blk),
        forall|g: int|
            0 <= g < pl.len() ==> blk != #[trigger] group_block(pl, g, 0) && blk != group_block(
                pl,
                g,
                1,
            ),
    ensures
        space_ok(t, pl),
        maps_kept(s, t, pl),
{
    assert forall|g: int| 0 <= g < pl.len() implies read_block(t, (#[trigger] pl[g]).bmap as int)
        == read_block(s, pl[g].bmap as int) && read_block(t, pl[g].imap as int) == read_block(
        s,
        pl[g].imap as int,
    ) by {
        assert(outside_journal(s, group_block(pl, g, 0)));
        assert(outside_journal(s, group_block(pl, g, 1)));
    }
    assert forall|b: int| #[trigger] in_use(t, pl, b) == in_use(s, pl, b) by {
        if 0 <= b < 32768 * pl.len() {
            let p = pl[b / 32768];
        }
    }
    assert forall|x: int| #[trigger] inode_in_use(t, pl, x) == inode_in_use(s, pl, x) by {
        if 1 <= x <= 8192 * pl.len() {
            let p = pl[(x - 1) / 8192];
        }
    }
    assert forall|b: int| is_system(t, pl, b) && 0 <= b < 32768 * pl.len() implies #[trigger] in_use(
        t,
        pl,
        b,
    ) by {
        assert(is_system(s, pl, b));
        assert(in_use(s, pl, b));
    }
}

/// An inode is 256 bytes long.
pub proof fn inode_len(s: FsView, x: u32)
    ensures
        inode_load(s, x) matches Ok(raw) ==> raw.len() == 256,
{
    reveal(inode_load);
    if let Ok(raw) = inode_load(s, x) {
        let d = desc_read(s, (x - 1) / 8192)->Ok_0;
        block_len(s, inode_block(d, x));
        let k = (x - 1) % 8192;
        assert(k * 256 % 4096 == k % 16 * 256);
    }
}

/// The block of the inode table that holds the inode.
pub open spec fn table_block(pl: Seq<Place>, x: u32) -> int {
    group_block(pl, (x - 1) / 8192, 2 + (x - 1) % 8192 / 16)
}

/// The inode that stands at its place in a block, where its checksum is right.
#[verifier::opaque]
pub open spec fn checked(has_csum: bool, x: u32, b: Seq<u8>) -> Result<Seq<u8>, FsErr> {
    let raw = b.subrange(inode_off(x), inode_off(x) + 256);
    let extra = u16_at(raw, 128);
    if has_csum && extra > 0 && (extra > 128 || inode_stored_csum(raw) != inode_csum(x, raw, extra)) {
        Err(FsErr::Io)
    } else {
        Ok(raw)
    }
}

/// An inode is read from its place in the table.
pub proof fn load_is_checked(s: FsView, pl: Seq<Place>, x: u32)
    requires
        laid_out(s, pl),
        1 <= x <= 8192 * pl.len(),
    ensures
        inode_load(s, x) == (match read_block(s, table_block(pl, x)) {
            None => Err(FsErr::Io),
            Some(b) => checked(s.ext->0.has_csum, x, b),
        }),
        outside_journal(s, table_block(pl, x)),
        top(pl) < table_block(pl, x) <= u32::MAX,
{
    let g = (x - 1) / 8192;
    assert(desc_read(s, g) is Ok);
    inode_place(pl, desc_read(s, g)->Ok_0, x);
    assert(top(pl) < group_block(pl, g, 2 + (x - 1) % 8192 / 16));
    reveal(inode_load);
    reveal(checked);
}

/// A saved inode is found at its place, and the others at theirs.
proof fn place_written(s: FsView, b: Seq<u8>, x: u32, raw: Seq<u8>)
    requires
        b.len() == 4096,
        raw.len() == 256,
        x >= 1,
        s.ext->0.has_csum ==> u16_at(raw, 128) <= 128,
    ensures
        inode_off(x) + 256 <= 4096,
        stored(s, x, raw).len() == 256,
        checked(s.ext->0.has_csum, x, splice(b, inode_off(x), stored(s, x, raw))) == Ok::<
            Seq<u8>,
            FsErr,
        >(stored(s, x, raw)),
{
    reveal(checked);
    let e = stored(s, x, raw);
    let o = inode_off(x);
    stored_fields(s, x, raw);
    checksum_fits(x, raw);
    assert(splice(b, o, e).subrange(o, o + 256) =~= e);
}

#[verifier::spinoff_prover]
#[verifier::rlimit(80)]
proof fn place_kept(c: bool, b: Seq<u8>, x: u32, y: u32, e: Seq<u8>)
    requires
        b.len() == 4096,
        e.len() == 256,
        x >= 1,
        y >= 1,
        (x - 1) % 16 != (y - 1) % 16,
    ensures
        checked(c, y, splice(b, inode_off(x), e)) == checked(c, y, b),
{
    reveal(checked);
    let o = inode_off(x);
    let p = inode_off(y);
    let k = (x - 1) % 8192;
    let l = (y - 1) % 8192;
    assert(k * 256 % 4096 == k % 16 * 256);
    assert(k % 16 == (x - 1) % 16);
    assert(l * 256 % 4096 == l % 16 * 256);
    assert(l % 16 == (y - 1) % 16);
    assert(p + 256 <= o || o + 256 <= p);
    assert(splice(b, o, e).subrange(p, p + 256) =~= b.subrange(p, p + 256));
}

/// Saving an inode is writing its block.
proof fn save_is_write(s: FsView, pl: Seq<Place>, x: u32, raw: Seq<u8>)
    requires
        laid_out(s, pl),
        1 <= x <= 8192 * pl.len(),
        inode_save(s, x, raw).1 is Ok,
    ensures
        read_block(s, table_block(pl, x)) is Some,
        s.ext->0.has_csum ==> u16_at(raw, 128) <= 128,
        ({
            let w = write_block(
                s,
                table_block(pl, x),
                splice(read_block(s, table_block(pl, x))->0, inode_off(x), stored(s, x, raw)),
            );
            &&& w.1
            &&& w.0 == inode_save(s, x, raw).0
        }),
{
    reveal(inode_save);
    let g = (x - 1) / 8192;
    assert(desc_read(s, g) is Ok);
    inode_place(pl, desc_read(s, g)->Ok_0, x);
}

/// An inode reads back as it was saved. The other inodes, the bitmaps and the
/// blocks for data stay as they were.
pub proof fn inode_reads_back(s: FsView, pl: Seq<Place>, x: u32, raw: Seq<u8>)
    requires
        space_ok(s, pl),
        1 <= x <= 8192 * pl.len(),
        raw.len() == 256,
        counted(s) ==> runs_apart(ino_extents(raw)),
        inode_save(s, x, raw).1 is Ok,
    ensures
        ({
            let t = inode_save(s, x, raw).0;
            &&& space_ok(t, pl)
            &&& steady(s, t)
            &&& maps_kept(s, t, pl)
            &&& shape(t) == shape(s)
            &&& inode_load(t, x) == Ok::<Seq<u8>, FsErr>(stored(s, x, raw))
            &&& forall|y: u32|
                1 <= y <= 8192 * pl.len() && y != x ==> #[trigger] inode_load(t, y) == inode_load(s, y)
            &&& forall|b: int| !is_system(s, pl, b) ==> #[trigger] read_block(t, b) == read_block(s, b)
        }),
{
    let blk = table_block(pl, x);
    save_is_write(s, pl, x, raw);
    block_len(s, blk);
    let b = read_block(s, blk)->0;
    let e = stored(s, x, raw);
    let data = splice(b, inode_off(x), e);
    place_written(s, b, x, raw);
    load_is_checked(s, pl, x);
    block_step(s, pl, blk, data);
    let t = inode_save(s, x, raw).0;
    let g = (x - 1) / 8192;
    let k = 2 + (x - 1) % 8192 / 16;
    assert forall|h: int| 0 <= h < pl.len() implies blk != #[trigger] group_block(pl, h, 0) && blk
        != group_block(pl, h, 1) by {
        assert(group_block(pl, h, 1) != group_block(pl, g, k));
    }
    maps_stay(s, t, pl, blk);
    counts_stay(s, t, pl, blk);
    assert(outside_journal(s, 0));
    assert(read_block(t, 0) == read_block(s, 0));
    load_is_checked(t, pl, x);
    assert forall|y: u32| 1 <= y <= 8192 * pl.len() && y != x implies #[trigger] inode_load(t, y)
        == inode_load(s, y) by {
        load_is_checked(s, pl, y);
        load_is_checked(t, pl, y);
        let h = (y - 1) / 8192;
        let l = 2 + (y - 1) % 8192 / 16;
        if table_block(pl, y) == blk {
            assert(group_block(pl, h, l) == group_block(pl, g, k));
            assert(h == g && l == k);
            assert((x - 1) % 16 != (y - 1) % 16);
            place_kept(s.ext->0.has_csum, b, x, y, e);
        }
    }
    assert forall|c: int| !is_system(s, pl, c) implies #[trigger] read_block(t, c) == read_block(
        s,
        c,
    ) by {
        assert(c != group_block(pl, g, k));
    }
    assert(ino_extents(e) =~= ino_extents(raw)) by {
        reveal(inode_with_csum);
    }
    stays_apart(s, t, pl, x);
}

/// A block for data reads back as it was written. The inodes, the bitmaps and
/// the other blocks for data stay as they were.
pub proof fn data_reads_back(s: FsView, pl: Seq<Place>, blk: int, data: Seq<u8>)
    requires
        space_ok(s, pl),
        0 <= blk <= u32::MAX,
        !is_system(s, pl, blk),
        data.len() == 4096,
        write_block(s, blk, data).1,
    ensures
        ({
            let t = write_block(s, blk, data).0;
            &&& space_ok(t, pl)
            &&& steady(s, t)
            &&& admin_kept(s, t, pl)
            &&& read_block(t, blk) == Some(data)
            &&& forall|b: int|
                !is_system(s, pl, b) && b != blk ==> #[trigger] read_block(t, b) == read_block(s, b)
        }),
{
    block_step(s, pl, blk, data);
    let t = write_block(s, blk, data).0;
    assert forall|g: int, j: int| 0 <= g < pl.len() && 0 <= j < 514 implies blk
        != #[trigger] group_block(pl, g, j) by {}
    maps_stay(s, t, pl, blk);
    counts_stay(s, t, pl, blk);
    assert(outside_journal(s, 0));
    assert(read_block(t, 0) == read_block(s, 0));
    assert forall|y: u32| 1 <= y <= 8192 * pl.len() implies #[trigger] inode_load(t, y) == inode_load(
        s,
        y,
    ) by {
        load_is_checked(s, pl, y);
        load_is_checked(t, pl, y);
        assert(group_block(pl, (y - 1) / 8192, 2 + (y - 1) % 8192 / 16) != blk);
    }
    stays_apart(s, t, pl, 0);
}

} // verus!
