//! Writing a fresh ext4 volume.

use vstd::prelude::*;
use crate::bytes::{put_bytes, w16, w32, zeros};
use crate::bytes;
use crate::ext4::dir::{align4, write_dir_entry};
use crate::ext4::extent::{alloc_block, alloc_inode, bump_used_dirs};
use crate::ext4::journal::{read_block, write_block};
use crate::ext4::layout;
use crate::ext4::model;
use crate::ext4::volume::{
    bit_mask, bitmap_csum, desc_csum, inode_save, new_inode, one_extent, sb_write, set_split_count,
    uuid,
};
use crate::ext4::{dir_inode, write_new_dir};
use crate::fs::{Ext4Info, Fs, FsErr, FsView};

verus! {

/// A volume that `mkfs` can make.
pub open spec fn fits(i: Ext4Info) -> bool {
    &&& 1 <= i.groups <= 1024
    &&& i.total_blocks >= 8192
    &&& i.groups == layout::group_count(i.total_blocks as int)
    &&& i.has_csum
}

fn desc_blocks(groups: u32) -> (n: u32)
    requires
        groups <= 1024,
    ensures
        n == layout::desc_blocks(groups as int),
        n <= 16,
{
    (groups * 64 + 4095) / 4096
}

fn meta_blocks(groups: u32) -> (n: u32)
    requires
        groups <= 1024,
    ensures
        n == layout::meta_blocks(groups as int),
        n <= 532,
{
    516 + desc_blocks(groups)
}

fn group_blocks(i: Ext4Info, g: u32) -> (n: u32)
    requires
        g <= 1024,
    ensures
        n == model::group_blocks(i, g as int),
        n <= 32768,
{
    let start: u32 = g * 32768;
    if i.total_blocks < start {
        0
    } else if i.total_blocks - start > 32768 {
        32768
    } else {
        i.total_blocks - start
    }
}

/// The bits of a byte make no more than the bits below the next.
proof fn edge_byte_bound(b: int, lo: int, hi: int, k: int)
    requires
        0 <= k <= 8,
    ensures
        0 <= layout::edge_byte(b, lo, hi, k),
        k < 8 ==> layout::edge_byte(b, lo, hi, k) < model::bit_mask(k),
        layout::edge_byte(b, lo, hi, k) <= 255,
    decreases k,
{
    if k > 0 {
        edge_byte_bound(b, lo, hi, k - 1);
    }
}

/// A bitmap block whose bits below `lo` and from `hi` on are set.
fn edge_bitmap(lo: u32, hi: u32) -> (bm: Vec<u8>)
    ensures
        bm@ == layout::edge_bitmap(lo as int, hi as int),
        bm@.len() == 4096,
{
    let mut bm: Vec<u8> = Vec::new();
    let mut i: u32 = 0;
    while i < 4096
        invariant
            i <= 4096,
            bm@.len() == i,
            forall|k: int|
                0 <= k < i ==> bm@[k] == layout::edge_byte(8 * k, lo as int, hi as int, 8) as u8,
        decreases 4096 - i,
    {
        let b: u32 = 8 * i;
        let mut v: u8 = 0;
        let mut k: u32 = 0;
        while k < 8
            invariant
                k <= 8,
                i < 4096,
                b == 8 * i,
                v == layout::edge_byte(b as int, lo as int, hi as int, k as int),
            decreases 8 - k,
        {
            proof {
                edge_byte_bound(b as int, lo as int, hi as int, k as int);
                edge_byte_bound(b as int, lo as int, hi as int, k + 1);
            }
            if b + k < lo || b + k >= hi {
                v = v + bit_mask(k as usize);
            }
            k += 1;
        }
        bm.push(v);
        i += 1;
    }
    assert(bm@ =~= layout::edge_bitmap(lo as int, hi as int));
    bm
}

fn fresh_bmap(i: Ext4Info, g: u32) -> (bm: Vec<u8>)
    requires
        i.groups <= 1024,
        g <= 1024,
    ensures
        bm@ == layout::fresh_bmap(i, g as int),
        bm@.len() == 4096,
{
    edge_bitmap(meta_blocks(i.groups), group_blocks(i, g))
}

fn fresh_imap(g: u32) -> (bm: Vec<u8>)
    ensures
        bm@ == layout::fresh_imap(g as int),
        bm@.len() == 4096,
{
    edge_bitmap(
        if g == 0 {
            10
        } else {
            0
        },
        32768,
    )
}

fn fresh_desc(i: Ext4Info, g: u32) -> (d: Vec<u8>)
    requires
        i.groups <= 1024,
        g < 1024,
    ensures
        d@ == layout::fresh_desc(i, g as int),
        d@.len() == 64,
{
    let db: u32 = desc_blocks(i.groups);
    let start: u32 = g * 32768;
    let n: u32 = group_blocks(i, g);
    let meta: u32 = meta_blocks(i.groups);
    let free: u64 = if n < meta {
        0
    } else {
        (n - meta) as u64
    };
    let mut d = zeros(64);
    w32(&mut d, 0, start + 1 + db);
    w32(&mut d, 4, start + 2 + db);
    w32(&mut d, 8, start + 3 + db);
    set_split_count(&mut d, 12, 44, free);
    set_split_count(
        &mut d,
        14,
        46,
        if g == 0 {
            8182
        } else {
            8192
        },
    );
    w16(&mut d, 24, bitmap_csum(&fresh_bmap(i, g)));
    w16(&mut d, 26, bitmap_csum(&fresh_imap(g)));
    let c = desc_csum(g, &d);
    w16(&mut d, 30, c);
    d
}

fn table_block(i: Ext4Info, t: u32) -> (b: Vec<u8>)
    requires
        1 <= i.groups <= 1024,
        t < layout::desc_blocks(i.groups as int),
    ensures
        b@ == layout::table_block(i, t as int, i.groups as int),
        b@.len() == 4096,
{
    let mut b = zeros(4096);
    assert(b@ =~= layout::table_block(i, t as int, t * 64));
    let mut m: u32 = 0;
    while m < 64 && t * 64 + m < i.groups
        invariant
            t < 16,
            m <= 64,
            1 <= i.groups <= 1024,
            b@.len() == 4096,
            t * 64 + m <= i.groups || m == 0,
            b@ == layout::table_block(i, t as int, t * 64 + m),
        decreases 64 - m,
    {
        let d = fresh_desc(i, t * 64 + m);
        let ghost before = b@;
        put_bytes(&mut b, 64 * (m as usize), &d);
        assert(b@ =~= layout::table_block(i, t as int, t * 64 + m + 1)) by {
            assert forall|k: int| 0 <= k < 4096 implies b@[k] == layout::table_block(
                i,
                t as int,
                t * 64 + m + 1,
            )[k] by {
                if 64 * m <= k < 64 * m + 64 {
                    assert(k / 64 == m && k % 64 == k - 64 * m);
                } else {
                    assert(b@[k] == before[k]);
                    assert(k / 64 != m);
                }
            }
        }
        m += 1;
    }
    assert(b@ =~= layout::table_block(i, t as int, i.groups as int));
    b
}

fn volume_name() -> (u: Vec<u8>)
    ensures
        u@ == layout::volume_name(),
{
    let u: Vec<u8> = vec![83u8, 79, 76, 65, 82, 79, 83, 32, 32, 32, 32, 32, 32, 32, 32, 32];
    assert(u@ =~= layout::volume_name());
    u
}

/// The metadata of all groups leave most of the volume free.
proof fn metadata_fits(i: Ext4Info)
    requires
        fits(i),
    ensures
        0 <= layout::meta_blocks(i.groups as int) * i.groups <= i.total_blocks,
{
    let m = layout::meta_blocks(i.groups as int);
    let g = i.groups as int;
    assert(m <= 532);
    assert(0 <= m * g <= 532 * g) by (nonlinear_arith)
        requires
            0 <= m <= 532,
            0 <= g,
    ;
}

fn fresh_super(i: Ext4Info) -> (sb: Vec<u8>)
    requires
        fits(i),
    ensures
        sb@ == layout::fresh_super(i),
        sb@.len() == 1024,
{
    proof {
        metadata_fits(i);
    }
    let meta: u32 = meta_blocks(i.groups);
    assert(meta * i.groups <= i.total_blocks);
    let mut sb = zeros(1024);
    w32(&mut sb, 0, i.groups * 8192);
    w32(&mut sb, 4, i.total_blocks);
    w32(&mut sb, 12, i.total_blocks - meta * i.groups);
    w32(&mut sb, 16, i.groups * 8192 - 10);
    w32(&mut sb, 24, 2);
    w32(&mut sb, 28, 2);
    w32(&mut sb, 32, 32768);
    w32(&mut sb, 36, 32768);
    w32(&mut sb, 40, 8192);
    w16(&mut sb, 54, 0xFFFF);
    w16(&mut sb, 56, 0xEF53);
    w16(&mut sb, 58, 1);
    w32(&mut sb, 76, 1);
    w32(&mut sb, 84, 11);
    w16(&mut sb, 88, 256);
    w32(&mut sb, 96, 0x4C2);
    w32(&mut sb, 100, 0x210);
    put_bytes(&mut sb, 104, &uuid());
    put_bytes(&mut sb, 120, &volume_name());
    w32(&mut sb, 280, 8);
    sb[308] = 1;
    w16(&mut sb, 310, 64);
    w32(&mut sb, 324, 1024);
    w16(&mut sb, 344, 28);
    w16(&mut sb, 346, 32);
    sb[370] = 1;
    sb
}

fn zero_run(fs: &mut Fs, from: u32, n: u32) -> (ok: bool)
    requires
        old(fs).wf(),
        from <= 0x0200_0000,
        n <= 532,
    ensures
        final(fs).wf(),
        (final(fs)@, ok) == layout::zero_run(old(fs)@, from as int, 0, n as int),
{
    let zero = zeros(4096);
    let mut k: u32 = 0;
    while k < n
        invariant
            fs.wf(),
            from <= 0x0200_0000,
            k <= n <= 532,
            zero@ == bytes::zero_bytes(4096),
            layout::zero_run(fs@, from as int, k as int, n as int) == layout::zero_run(
                old(fs)@,
                from as int,
                0,
                n as int,
            ),
        decreases n - k,
    {
        if !write_block(fs, from + k, &zero) {
            return false;
        }
        k += 1;
    }
    true
}

fn zero_groups(fs: &mut Fs, i: Ext4Info) -> (ok: bool)
    requires
        old(fs).wf(),
        i.groups <= 1024,
    ensures
        final(fs).wf(),
        (final(fs)@, ok) == layout::zero_groups(old(fs)@, i, 0),
{
    let meta: u32 = meta_blocks(i.groups);
    let mut g: u32 = 0;
    while g < i.groups
        invariant
            fs.wf(),
            g <= i.groups <= 1024,
            meta == layout::meta_blocks(i.groups as int),
            meta <= 532,
            layout::zero_groups(fs@, i, g as int) == layout::zero_groups(old(fs)@, i, 0),
        decreases i.groups - g,
    {
        if !zero_run(fs, g * 32768, meta) {
            return false;
        }
        g += 1;
    }
    true
}

fn write_bitmaps(fs: &mut Fs, i: Ext4Info) -> (ok: bool)
    requires
        old(fs).wf(),
        i.groups <= 1024,
    ensures
        final(fs).wf(),
        (final(fs)@, ok) == layout::write_bitmaps(old(fs)@, i, 0),
{
    let db: u32 = desc_blocks(i.groups);
    let mut g: u32 = 0;
    while g < i.groups
        invariant
            fs.wf(),
            g <= i.groups <= 1024,
            db == layout::desc_blocks(i.groups as int),
            db <= 16,
            layout::write_bitmaps(fs@, i, g as int) == layout::write_bitmaps(old(fs)@, i, 0),
        decreases i.groups - g,
    {
        let at: u32 = g * 32768 + db;
        if !write_block(fs, at + 1, &fresh_bmap(i, g)) {
            return false;
        }
        if !write_block(fs, at + 2, &fresh_imap(g)) {
            return false;
        }
        g += 1;
    }
    true
}

fn write_table(fs: &mut Fs, i: Ext4Info, at: u32) -> (ok: bool)
    requires
        old(fs).wf(),
        1 <= i.groups <= 1024,
        at <= 0x0200_0000,
    ensures
        final(fs).wf(),
        (final(fs)@, ok) == layout::write_table(old(fs)@, i, at as int, 0),
{
    let db: u32 = desc_blocks(i.groups);
    let mut t: u32 = 0;
    while t < db
        invariant
            fs.wf(),
            1 <= i.groups <= 1024,
            at <= 0x0200_0000,
            db == layout::desc_blocks(i.groups as int),
            t <= db <= 16,
            layout::write_table(fs@, i, at as int, t as int) == layout::write_table(
                old(fs)@,
                i,
                at as int,
                0,
            ),
        decreases db - t,
    {
        if !write_block(fs, at + 1 + t, &table_block(i, t)) {
            return false;
        }
        t += 1;
    }
    true
}

fn write_backups(fs: &mut Fs, i: Ext4Info) -> (ok: bool)
    requires
        old(fs).wf(),
        1 <= i.groups <= 1024,
    ensures
        final(fs).wf(),
        (final(fs)@, ok) == layout::write_backups(old(fs)@, i, 1),
{
    let mut g: u32 = 1;
    while g < i.groups
        invariant
            fs.wf(),
            1 <= g <= i.groups <= 1024,
            layout::write_backups(fs@, i, g as int) == layout::write_backups(old(fs)@, i, 1),
        decreases i.groups - g,
    {
        match read_block(fs, 0) {
            None => return false,
            Some(b) => {
                if !write_block(fs, g * 32768, &b) {
                    return false;
                }
            },
        }
        if !write_table(fs, i, g * 32768) {
            return false;
        }
        g += 1;
    }
    true
}

/// Everything of a fresh volume up to the first allocation.
pub(crate) fn write_metadata(fs: &mut Fs, i: Ext4Info) -> (r: Result<(), FsErr>)
    requires
        old(fs).wf(),
        fits(i),
    ensures
        final(fs).wf(),
        (final(fs)@, r) == layout::write_metadata(old(fs)@, i),
{
    proof {
        reveal(layout::write_metadata);
    }
    if !zero_groups(fs, i) {
        return Err(FsErr::Io);
    }
    if !write_bitmaps(fs, i) {
        return Err(FsErr::Io);
    }
    if !write_table(fs, i, 0) {
        return Err(FsErr::Io);
    }
    let ghost s3 = fs@;
    fs.ext = Some(i);
    assert(fs@ =~= FsView { ext: Some(i), ..s3 });
    sb_write(fs, fresh_super(i))?;
    if !write_backups(fs, i) {
        return Err(FsErr::Io);
    }
    Ok(())
}

/// Reserves the journal area and writes its first block and its inode.
pub(crate) fn make_journal(fs: &mut Fs) -> (r: Result<(), FsErr>)
    requires
        old(fs).wf(),
    ensures
        final(fs).wf(),
        (final(fs)@, r) == layout::make_journal(old(fs)@),
{
    proof {
        reveal(layout::make_journal);
    }
    let blk = alloc_block(fs)?;
    let mut j = zeros(4096);
    w32(&mut j, 0, 0xC03B_3998);
    w32(&mut j, 4, 1);
    w32(&mut j, 8, 1);
    w32(&mut j, 64, 4096);
    w32(&mut j, 68, 1024);
    w32(&mut j, 72, 1);
    w32(&mut j, 76, 1023);
    if !write_block(fs, blk, &j) {
        return Err(FsErr::Io);
    }
    alloc_many(fs, 1023)?;
    let mut raw = new_inode(0x8180, 1);
    w32(&mut raw, 4, 0x40_0000);
    w32(&mut raw, 28, 8192);
    put_bytes(&mut raw, 40, &one_extent(1024, blk));
    inode_save(fs, 8, &raw)
}

fn alloc_many(fs: &mut Fs, n: u32) -> (r: Result<(), FsErr>)
    requires
        old(fs).wf(),
    ensures
        final(fs).wf(),
        (final(fs)@, r) == layout::alloc_many(old(fs)@, n as int),
{
    let mut k: u32 = n;
    while k > 0
        invariant
            fs.wf(),
            layout::alloc_many(fs@, k as int) == layout::alloc_many(old(fs)@, n as int),
        decreases k,
    {
        alloc_block(fs)?;
        k -= 1;
    }
    Ok(())
}

fn make_seed(fs: &mut Fs) -> (r: Result<u32, FsErr>)
    requires
        old(fs).wf(),
    ensures
        final(fs).wf(),
        (final(fs)@, r) == layout::make_seed(old(fs)@),
{
    proof {
        reveal(layout::make_seed);
    }
    let ino = alloc_inode(fs)?;
    let blk = alloc_block(fs)?;
    write_new_dir(fs, ino, blk, 2)?;
    bump_used_dirs(fs, 0, true)?;
    Ok(ino)
}

/// Makes the directories that a fresh volume holds.
pub(crate) fn make_seeds(fs: &mut Fs) -> (r: Result<Vec<u32>, FsErr>)
    requires
        old(fs).wf(),
    ensures
        final(fs).wf(),
        final(fs)@ == layout::make_seeds(old(fs)@, Seq::empty()).0,
        match (r, layout::make_seeds(old(fs)@, Seq::empty()).1) {
            (Ok(v), Ok(m)) => v@ == m && m.len() == 6,
            (Err(e), Err(x)) => e == x,
            _ => false,
        },
{
    let mut inos: Vec<u32> = Vec::new();
    assert(inos@ =~= Seq::empty());
    while inos.len() < 6
        invariant
            fs.wf(),
            inos@.len() <= 6,
            layout::make_seeds(fs@, inos@) == layout::make_seeds(old(fs)@, Seq::empty()),
        decreases 6 - inos@.len(),
    {
        let ino = make_seed(fs)?;
        inos.push(ino);
    }
    Ok(inos)
}

fn seed(k: usize) -> (n: Vec<u8>)
    requires
        k < 6,
    ensures
        n@ == layout::seeds()[k as int],
        3 <= n@.len() <= 4,
{
    let n: Vec<u8> = if k == 0 {
        vec![101u8, 116, 99]
    } else if k == 1 {
        vec![114u8, 111, 111, 116]
    } else if k == 2 {
        vec![104u8, 111, 109, 101]
    } else if k == 3 {
        vec![117u8, 115, 114]
    } else if k == 4 {
        vec![98u8, 111, 111, 116]
    } else {
        vec![116u8, 109, 112]
    };
    assert(n@ =~= layout::seeds()[k as int]);
    n
}

fn root_block(inos: &Vec<u32>) -> (b: Vec<u8>)
    requires
        inos@.len() == 6,
    ensures
        b@ == layout::root_block(inos@, 6),
        b@.len() == 4096,
{
    let mut b = zeros(4096);
    let mut o: usize = 0;
    let mut k: usize = 0;
    while k < 6
        invariant
            k <= 6,
            inos@.len() == 6,
            b@.len() == 4096,
            o == layout::seed_off(k as int),
            o <= 12 * k,
            b@ == layout::root_block(inos@, k as int),
        decreases 6 - k,
    {
        let name = seed(k);
        let need: usize = align4(8 + name.len());
        let rec: usize = if k == 5 {
            4096 - o
        } else {
            need
        };
        write_dir_entry(&mut b, o, inos[k], &name, 2, rec);
        o += need;
        k += 1;
    }
    b
}

/// Writes the root directory.
pub(crate) fn make_root(fs: &mut Fs, inos: &Vec<u32>) -> (r: Result<(), FsErr>)
    requires
        old(fs).wf(),
        inos@.len() == 6,
    ensures
        final(fs).wf(),
        (final(fs)@, r) == layout::make_root(old(fs)@, inos@),
{
    proof {
        reveal(layout::make_root);
    }
    let blk = alloc_block(fs)?;
    if !write_block(fs, blk, &root_block(inos)) {
        return Err(FsErr::Io);
    }
    inode_save(fs, 2, &dir_inode(8, blk))?;
    bump_used_dirs(fs, 0, true)
}

/// The size and the features of a fresh volume on a disk of `sectors` sectors.
pub(crate) fn fresh_info(sectors: u64) -> (r: Result<Ext4Info, FsErr>)
    ensures
        r == layout::fresh_info(sectors),
        r is Ok ==> fits(r->Ok_0),
{
    let total: u64 = sectors / 8 % 0x1_0000_0000;
    if total < 8192 {
        return Err(FsErr::NoSpace);
    }
    let groups: u64 = (total + 32767) / 32768;
    if groups > 1024 {
        return Err(FsErr::Unsupported);
    }
    Ok(Ext4Info { groups: groups as u32, total_blocks: total as u32, has_csum: true })
}

} // verus!
