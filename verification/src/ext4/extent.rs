//! The extents of a file, and the allocation of blocks and inodes.

use vstd::prelude::*;
use crate::bytes::{put_bytes, r16, r32, w16, w32, zeros};
use crate::ext4::journal::{read_block, write_block};
use crate::ext4::model;
use crate::ext4::volume::{
    desc_read, desc_write, first_clear, info, ino_extents, set_bit, set_bitmap_csums,
    set_split_count, split_count, unset_bit, update_sb_free_blocks, update_sb_free_inodes,
};
use crate::fs::{Fs, FsErr};

verus! {

const EXTENT_MAGIC: u16 = 0xF30A;

const BPG: u32 = 32768;

const IPG: u32 = 8192;

/// The first physical block of the extent entry at offset `o`.
fn extent_start(d: &[u8], o: usize) -> (p: u32)
    requires
        o + 12 <= d@.len(),
        o <= 0x10_0000,
    ensures
        p == model::extent_start(d@, o as int),
{
    r32(d, o + 8) | (r16(d, o + 6) as u32 * 0x1_0000)
}

fn extent_len(d: &[u8], o: usize) -> (n: u32)
    requires
        o + 12 <= d@.len(),
        o <= 0x10_0000,
    ensures
        n == model::extent_len(d@, o as int),
        n < 0x8000,
{
    (r16(d, o + 4) % 0x8000) as u32
}

fn leaf_find(d: &[u8], logical: u32) -> (r: Option<u32>)
    requires
        d@.len() >= 12,
    ensures
        r == model::leaf_find(d@, logical, 0),
{
    let entries: u16 = r16(d, 2);
    let total: usize = d.len();
    let mut e: u16 = 0;
    while e < entries
        invariant
            e <= entries,
            d@.len() >= 12,
            total == d@.len(),
            entries == crate::bytes::u16_at(d@, 2),
            model::leaf_find(d@, logical, 0) == model::leaf_find(d@, logical, e as int),
        decreases entries - e,
    {
        let o: usize = 12 + 12 * (e as usize);
        if total < 12 || o > total - 12 {
            return None;
        }
        let eblk: u32 = r32(d, o);
        if eblk <= logical && (logical as u64) < eblk as u64 + extent_len(d, o) as u64 {
            let p: u64 = extent_start(d, o) as u64 + (logical - eblk) as u64;
            if p <= u32::MAX as u64 {
                return Some(p as u32);
            }
            return None;
        }
        e += 1;
    }
    None
}

fn index_find(d: &[u8], logical: u32) -> (r: Option<u32>)
    requires
        d@.len() >= 12,
    ensures
        r == model::index_find(d@, logical, 0, None),
{
    let entries: u16 = r16(d, 2);
    let total: usize = d.len();
    let mut found: Option<u32> = None;
    let mut e: u16 = 0;
    while e < entries
        invariant
            e <= entries,
            d@.len() >= 12,
            total == d@.len(),
            entries == crate::bytes::u16_at(d@, 2),
            model::index_find(d@, logical, 0, None) == model::index_find(
                d@,
                logical,
                e as int,
                found,
            ),
        decreases entries - e,
    {
        let o: usize = 12 + 12 * (e as usize);
        if o > total - 4 {
            return None;
        }
        if r32(d, o) <= logical {
            if o > total - 8 {
                return None;
            }
            found = Some(r32(d, o + 4));
        }
        e += 1;
    }
    found
}

/// The physical block of the logical block of a file.
pub(crate) fn extent_map(fs: &Fs, hdr: &[u8], logical: u32) -> (r: Option<u32>)
    requires
        fs.wf(),
        hdr@.len() >= 12,
    ensures
        r == model::extent_map(fs@, hdr@, logical),
{
    proof {
        reveal(model::extent_map);
    }
    let mut node: Vec<u8> = crate::bytes::copy_of(hdr);
    let mut fuel: u64 = 0x1_0000_0001;
    while fuel > 0
        invariant
            fs.wf(),
            node@.len() >= 12,
            fuel <= 0x1_0000_0001,
            model::extent_map(fs@, hdr@, logical) == model::extent_walk(
                fs@,
                node@,
                logical,
                fuel as nat,
            ),
        decreases fuel,
    {
        if r16(&node, 0) != EXTENT_MAGIC {
            return None;
        }
        if r16(&node, 6) == 0 {
            return leaf_find(&node, logical);
        }
        match index_find(&node, logical) {
            None => return None,
            Some(child) => match read_block(fs, child as u64) {
                None => return None,
                Some(b) => {
                    node = b;
                },
            },
        }
        fuel -= 1;
    }
    None
}

/// Appends a physical block at the end of a file's extents.
pub(crate) fn extent_append(raw: &mut Vec<u8>, phys: u32) -> (r: Result<(), FsErr>)
    requires
        old(raw)@.len() == 256,
    ensures
        final(raw)@.len() == 256,
        match (r, model::extent_append(old(raw)@, phys)) {
            (Ok(_), Ok(t)) => final(raw)@ == t,
            (Err(e), Err(x)) => e == x && final(raw)@ == old(raw)@,
            _ => false,
        },
{
    proof {
        reveal(model::extent_append);
    }
    let mut ib = ino_extents(raw);
    if r16(&ib, 0) != EXTENT_MAGIC {
        ib = zeros(60);
        w16(&mut ib, 0, EXTENT_MAGIC);
        w16(&mut ib, 2, 0);
        w16(&mut ib, 4, 4);
        w16(&mut ib, 6, 0);
    }
    assert(ib@ == model::extent_area(raw@));
    let entries: u16 = r16(&ib, 2);
    if r16(&ib, 6) != 0 || entries > 4 {
        return Err(FsErr::Unsupported);
    }
    let mut last: u64 = 0;
    if entries > 0 {
        let o: usize = 12 + 12 * (entries as usize - 1);
        let elen: u32 = extent_len(&ib, o);
        last = r32(&ib, o) as u64 + elen as u64;
        if last > u32::MAX as u64 {
            return Err(FsErr::Unsupported);
        }
        if extent_start(&ib, o) as u64 + elen as u64 == phys as u64 && elen < 0x7FFF {
            w16(&mut ib, o + 4, (elen + 1) as u16);
            put_bytes(raw, 40, &ib);
            return Ok(());
        }
    }
    if entries >= 4 {
        return Err(FsErr::Unsupported);
    }
    let o: usize = 12 + 12 * (entries as usize);
    w32(&mut ib, o, last as u32);
    w16(&mut ib, o + 4, 1);
    w16(&mut ib, o + 6, (phys / 0x1_0000) as u16);
    w32(&mut ib, o + 8, phys);
    w16(&mut ib, 2, entries + 1);
    put_bytes(raw, 40, &ib);
    Ok(())
}

// ---------- allocation ----------

fn take_block(fs: &mut Fs, g: u32, d: Vec<u8>, bmap: Vec<u8>, bit: usize) -> (r: Result<u32, FsErr>)
    requires
        old(fs).wf(),
        g < 1024,
        d@.len() == 64,
        bmap@.len() == 4096,
        bit < 32768,
    ensures
        final(fs).wf(),
        (final(fs)@, r) == model::take_block(old(fs)@, g as int, d@, bmap@, bit as int),
{
    proof {
        reveal(model::take_block);
    }
    let mut d = d;
    let mut bmap = bmap;
    set_bit(&mut bmap, bit);
    if !write_block(fs, r32(&d, 0), &bmap) {
        return Err(FsErr::Io);
    }
    let imap = match read_block(fs, r32(&d, 4) as u64) {
        None => return Err(FsErr::Io),
        Some(b) => b,
    };
    set_bitmap_csums(&mut d, &bmap, &imap);
    let cur = split_count(&d, 12, 44);
    if cur == 0 {
        return Err(FsErr::NoSpace);
    }
    set_split_count(&mut d, 12, 44, cur - 1);
    desc_write(fs, g, d)?;
    update_sb_free_blocks(fs, false)?;
    Ok(g * BPG + bit as u32)
}

/// Takes the first free block of the volume.
pub(crate) fn alloc_block(fs: &mut Fs) -> (r: Result<u32, FsErr>)
    requires
        old(fs).wf(),
    ensures
        final(fs).wf(),
        (final(fs)@, r) == model::alloc_block(old(fs)@),
{
    proof {
        reveal(model::alloc_block);
    }
    let i = info(fs)?;
    let mut g: u32 = 0;
    while g < i.groups
        invariant
            fs.wf(),
            fs@ == old(fs)@,
            g <= i.groups <= 1024,
            model::alloc_block(old(fs)@) == model::alloc_block_from(fs@, i, g as int),
        decreases i.groups - g,
    {
        let d = desc_read(fs, g)?;
        match read_block(fs, r32(&d, 0) as u64) {
            None => return Err(FsErr::Io),
            Some(bmap) => {
                let g_start: u32 = g * BPG;
                let n: u32 = if i.total_blocks < g_start {
                    0
                } else if i.total_blocks - g_start > BPG {
                    BPG
                } else {
                    i.total_blocks - g_start
                };
                if let Some(bit) = first_clear(&bmap, n as usize) {
                    return take_block(fs, g, d, bmap, bit);
                }
            },
        }
        g += 1;
    }
    Err(FsErr::NoSpace)
}

pub(crate) fn free_block(fs: &mut Fs, blk: u32) -> (r: Result<(), FsErr>)
    requires
        old(fs).wf(),
    ensures
        final(fs).wf(),
        (final(fs)@, r) == model::free_block(old(fs)@, blk),
{
    proof {
        reveal(model::free_block);
    }
    let g: u32 = blk / BPG;
    let mut d = desc_read(fs, g)?;
    let mut bmap = match read_block(fs, r32(&d, 0) as u64) {
        None => return Err(FsErr::Io),
        Some(b) => b,
    };
    unset_bit(&mut bmap, (blk % BPG) as usize);
    if !write_block(fs, r32(&d, 0), &bmap) {
        return Err(FsErr::Io);
    }
    let imap = match read_block(fs, r32(&d, 4) as u64) {
        None => return Err(FsErr::Io),
        Some(b) => b,
    };
    set_bitmap_csums(&mut d, &bmap, &imap);
    let cur = split_count(&d, 12, 44);
    set_split_count(&mut d, 12, 44, cur + 1);
    desc_write(fs, g, d)?;
    update_sb_free_blocks(fs, true)
}

fn take_inode(fs: &mut Fs, g: u32, d: Vec<u8>, imap: Vec<u8>, bit: usize) -> (r: Result<u32, FsErr>)
    requires
        old(fs).wf(),
        g < 1024,
        d@.len() == 64,
        imap@.len() == 4096,
        bit < 8192,
    ensures
        final(fs).wf(),
        (final(fs)@, r) == model::take_inode(old(fs)@, g as int, d@, imap@, bit as int),
        r is Ok ==> r->Ok_0 >= 1,
{
    proof {
        reveal(model::take_inode);
    }
    let mut d = d;
    let mut imap = imap;
    set_bit(&mut imap, bit);
    if !write_block(fs, r32(&d, 4), &imap) {
        return Err(FsErr::Io);
    }
    let bmap = match read_block(fs, r32(&d, 0) as u64) {
        None => return Err(FsErr::Io),
        Some(b) => b,
    };
    set_bitmap_csums(&mut d, &bmap, &imap);
    let cur = split_count(&d, 14, 46);
    if cur == 0 {
        return Err(FsErr::NoSpace);
    }
    set_split_count(&mut d, 14, 46, cur - 1);
    desc_write(fs, g, d)?;
    update_sb_free_inodes(fs, false)?;
    Ok(g * IPG + bit as u32 + 1)
}

/// Takes the first free inode of the volume.
pub(crate) fn alloc_inode(fs: &mut Fs) -> (r: Result<u32, FsErr>)
    requires
        old(fs).wf(),
    ensures
        final(fs).wf(),
        (final(fs)@, r) == model::alloc_inode(old(fs)@),
        r is Ok ==> r->Ok_0 >= 1,
{
    proof {
        reveal(model::alloc_inode);
    }
    let i = info(fs)?;
    let mut g: u32 = 0;
    while g < i.groups
        invariant
            fs.wf(),
            fs@ == old(fs)@,
            g <= i.groups <= 1024,
            model::alloc_inode(old(fs)@) == model::alloc_inode_from(fs@, i, g as int),
        decreases i.groups - g,
    {
        let d = desc_read(fs, g)?;
        match read_block(fs, r32(&d, 4) as u64) {
            None => return Err(FsErr::Io),
            Some(imap) => {
                if let Some(bit) = first_clear(&imap, IPG as usize) {
                    return take_inode(fs, g, d, imap, bit);
                }
            },
        }
        g += 1;
    }
    Err(FsErr::NoSpace)
}

pub(crate) fn free_inode(fs: &mut Fs, ino: u32) -> (r: Result<(), FsErr>)
    requires
        old(fs).wf(),
        ino >= 1,
    ensures
        final(fs).wf(),
        (final(fs)@, r) == model::free_inode(old(fs)@, ino),
{
    proof {
        reveal(model::free_inode);
    }
    let g: u32 = (ino - 1) / IPG;
    let mut d = desc_read(fs, g)?;
    let mut imap = match read_block(fs, r32(&d, 4) as u64) {
        None => return Err(FsErr::Io),
        Some(b) => b,
    };
    unset_bit(&mut imap, ((ino - 1) % IPG) as usize);
    if !write_block(fs, r32(&d, 4), &imap) {
        return Err(FsErr::Io);
    }
    let bmap = match read_block(fs, r32(&d, 0) as u64) {
        None => return Err(FsErr::Io),
        Some(b) => b,
    };
    set_bitmap_csums(&mut d, &bmap, &imap);
    let cur = split_count(&d, 14, 46);
    set_split_count(&mut d, 14, 46, cur + 1);
    desc_write(fs, g, d)?;
    update_sb_free_inodes(fs, true)
}

/// Counts one more directory of group `g`, or one less.
pub(crate) fn bump_used_dirs(fs: &mut Fs, g: u32, up: bool) -> (r: Result<(), FsErr>)
    requires
        old(fs).wf(),
        g <= 0x8_0000,
    ensures
        final(fs).wf(),
        (final(fs)@, r) == model::bump_used_dirs(
            old(fs)@,
            g as int,
            if up {
                1
            } else {
                -1
            },
        ),
{
    proof {
        reveal(model::bump_used_dirs);
    }
    let mut d = desc_read(fs, g)?;
    let cur = split_count(&d, 16, 48);
    let next: u64 = if up {
        cur + 1
    } else if cur == 0 {
        0
    } else {
        cur - 1
    };
    set_split_count(&mut d, 16, 48, next);
    desc_write(fs, g, d)
}

/// Frees the `n` blocks from `from` on.
fn free_run(fs: &mut Fs, from: u32, n: u32) -> (r: Result<(), FsErr>)
    requires
        old(fs).wf(),
        n < 0x8000,
    ensures
        final(fs).wf(),
        (final(fs)@, r) == model::free_run(old(fs)@, from as int, 0, n as int),
{
    let mut k: u32 = 0;
    while k < n
        invariant
            fs.wf(),
            k <= n < 0x8000,
            model::free_run(fs@, from as int, k as int, n as int) == model::free_run(
                old(fs)@,
                from as int,
                0,
                n as int,
            ),
        decreases n - k,
    {
        if from > u32::MAX - k {
            return Err(FsErr::Io);
        }
        free_block(fs, from + k)?;
        k += 1;
    }
    Ok(())
}

/// Frees every block that the extents of an inode name.
pub(crate) fn free_extents(fs: &mut Fs, raw: &[u8]) -> (r: Result<(), FsErr>)
    requires
        old(fs).wf(),
        raw@.len() == 256,
    ensures
        final(fs).wf(),
        (final(fs)@, r) == model::free_extents(old(fs)@, raw@),
{
    proof {
        reveal(model::free_extents);
    }
    let ib = ino_extents(raw);
    if r16(&ib, 0) != EXTENT_MAGIC {
        return Ok(());
    }
    if r16(&ib, 6) != 0 {
        return Err(FsErr::Unsupported);
    }
    let entries: u16 = r16(&ib, 2);
    let mut e: u16 = 0;
    while e < entries
        invariant
            fs.wf(),
            ib@.len() == 60,
            e <= entries,
            entries == crate::bytes::u16_at(ib@, 2),
            model::free_entries(fs@, ib@, e as int) == model::free_extents(old(fs)@, raw@),
        decreases entries - e,
    {
        let o: usize = 12 + 12 * (e as usize);
        if o > 48 {
            return Err(FsErr::Io);
        }
        free_run(fs, extent_start(&ib, o), extent_len(&ib, o))?;
        e += 1;
    }
    Ok(())
}

} // verus!
