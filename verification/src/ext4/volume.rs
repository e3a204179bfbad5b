//! The superblock, the group descriptors, the bitmaps and the inodes.

use vstd::prelude::*;
use crate::bytes;
use crate::bytes::{copy_of, copy_range, put_bytes, r16, r32, w16, w32, zero_range, zeros};
use crate::crc::crc32c;
use crate::ext4::journal::{read_block, write_block};
use crate::ext4::model;
use crate::fs::{res_view, Ext4Info, Fs, FsErr};

verus! {

const EXTENT_MAGIC: u16 = 0xF30A;

pub(crate) fn info(fs: &Fs) -> (r: Result<Ext4Info, FsErr>)
    ensures
        r == (match fs@.ext {
            Some(i) => Ok::<Ext4Info, FsErr>(i),
            None => Err(FsErr::NotFormatted),
        }),
{
    match fs.ext {
        Some(i) => Ok(i),
        None => Err(FsErr::NotFormatted),
    }
}

// ---------- superblock ----------

fn sb_read(fs: &Fs) -> (r: Result<Vec<u8>, FsErr>)
    requires
        fs.wf(),
    ensures
        res_view(r) == model::sb_read(fs@),
        r is Ok ==> r->Ok_0@.len() == 1024,
{
    match read_block(fs, 0) {
        None => Err(FsErr::Io),
        Some(b) => Ok(copy_range(&b, 1024, 1024)),
    }
}

/// Sets the checksum field of a superblock.
pub(crate) fn sb_seal(sb: &mut Vec<u8>)
    requires
        old(sb)@.len() == 1024,
    ensures
        final(sb)@ == model::sb_with_csum(old(sb)@),
        final(sb)@.len() == 1024,
{
    zero_range(sb, 628, 4);
    let c = crc32c(0xFFFF_FFFF, sb);
    w32(sb, 628, c);
}

pub(crate) fn sb_write(fs: &mut Fs, sb: Vec<u8>) -> (r: Result<(), FsErr>)
    requires
        old(fs).wf(),
        sb@.len() == 1024,
    ensures
        final(fs).wf(),
        (final(fs)@, r) == model::sb_write(old(fs)@, sb@),
{
    proof {
        reveal(model::sb_write);
    }
    let i = info(fs)?;
    let mut t = sb;
    if i.has_csum {
        sb_seal(&mut t);
    }
    match read_block(fs, 0) {
        None => Err(FsErr::Io),
        Some(mut b) => {
            put_bytes(&mut b, 1024, &t);
            if !write_block(fs, 0, &b) {
                return Err(FsErr::Io);
            }
            Ok(())
        },
    }
}

fn sb_free_blocks(sb: &[u8]) -> (n: u64)
    requires
        sb@.len() == 1024,
    ensures
        n == model::sb_free_blocks(sb@),
{
    r32(sb, 12) as u64 + 0x1_0000_0000 * (r32(sb, 340) as u64)
}

/// Counts one more free block, or one less.
pub(crate) fn update_sb_free_blocks(fs: &mut Fs, up: bool) -> (r: Result<(), FsErr>)
    requires
        old(fs).wf(),
    ensures
        final(fs).wf(),
        (final(fs)@, r) == model::update_sb_free_blocks(
            old(fs)@,
            if up {
                1
            } else {
                -1
            },
        ),
{
    let mut sb = sb_read(fs)?;
    let cur = sb_free_blocks(&sb);
    let next: u64 = if cur >= 0x8000_0000_0000_0000 || (!up && cur == 0) {
        0
    } else if up {
        cur + 1
    } else {
        cur - 1
    };
    w32(&mut sb, 12, (next % 0x1_0000_0000) as u32);
    w32(&mut sb, 340, (next / 0x1_0000_0000 % 0x1_0000_0000) as u32);
    sb_write(fs, sb)
}

/// Counts one more free inode, or one less.
pub(crate) fn update_sb_free_inodes(fs: &mut Fs, up: bool) -> (r: Result<(), FsErr>)
    requires
        old(fs).wf(),
    ensures
        final(fs).wf(),
        (final(fs)@, r) == model::update_sb_free_inodes(
            old(fs)@,
            if up {
                1
            } else {
                -1
            },
        ),
{
    let mut sb = sb_read(fs)?;
    let cur = r32(&sb, 16);
    let next: u32 = if up {
        if cur == u32::MAX {
            u32::MAX
        } else {
            cur + 1
        }
    } else if cur == 0 {
        0
    } else {
        cur - 1
    };
    w32(&mut sb, 16, next);
    sb_write(fs, sb)
}

// ---------- group descriptors ----------

fn desc_block_of(g: u32) -> (b: u32)
    requires
        g <= 0x8_0000,
    ensures
        b == model::desc_block_of(g as int),
{
    1 + g * 64 / 4096
}

fn desc_off_of(g: u32) -> (o: usize)
    requires
        g <= 0x8_0000,
    ensures
        o == model::desc_off_of(g as int),
        o + 64 <= 4096,
{
    (g * 64 % 4096) as usize
}

pub(crate) fn desc_read(fs: &Fs, g: u32) -> (r: Result<Vec<u8>, FsErr>)
    requires
        fs.wf(),
        g <= 0x8_0000,
    ensures
        res_view(r) == model::desc_read(fs@, g as int),
        r is Ok ==> r->Ok_0@.len() == 64,
{
    proof {
        reveal(model::desc_read);
    }
    match read_block(fs, desc_block_of(g) as u64) {
        None => Err(FsErr::Io),
        Some(b) => Ok(copy_range(&b, desc_off_of(g), 64)),
    }
}

pub(crate) fn uuid() -> (u: Vec<u8>)
    ensures
        u@ == model::uuid(),
{
    let u: Vec<u8> = vec![83u8, 79, 76, 65, 82, 79, 83, 45, 69, 88, 84, 52, 45, 50, 54, 49];
    assert(u@ =~= model::uuid());
    u
}

/// The checksum of the volume's identifier, carried on over `v`.
fn seed_of(v: u32) -> (c: u32)
    ensures
        c == crate::crc::crc_of(
            crate::crc::crc_of(0xFFFF_FFFF, model::uuid()),
            bytes::le32(v),
        ),
{
    let mut t = zeros(4);
    w32(&mut t, 0, v);
    assert(t@ =~= bytes::le32(v));
    crc32c(crc32c(0xFFFF_FFFF, &uuid()), &t)
}

pub(crate) fn desc_csum(g: u32, d: &[u8]) -> (c: u16)
    requires
        d@.len() == 64,
    ensures
        c == model::desc_csum(g as int, d@),
{
    let mut t = copy_of(d);
    zero_range(&mut t, 30, 2);
    (crc32c(seed_of(g), &t) % 0x1_0000) as u16
}

pub(crate) fn desc_write(fs: &mut Fs, g: u32, d: Vec<u8>) -> (r: Result<(), FsErr>)
    requires
        old(fs).wf(),
        g <= 0x8_0000,
        d@.len() == 64,
    ensures
        final(fs).wf(),
        (final(fs)@, r) == model::desc_write(old(fs)@, g as int, d@),
{
    proof {
        reveal(model::desc_write);
    }
    let c = desc_csum(g, &d);
    let mut t = d;
    w16(&mut t, 30, c);
    match read_block(fs, desc_block_of(g) as u64) {
        None => Err(FsErr::Io),
        Some(mut b) => {
            put_bytes(&mut b, desc_off_of(g), &t);
            if !write_block(fs, desc_block_of(g), &b) {
                return Err(FsErr::Io);
            }
            Ok(())
        },
    }
}

/// Reads a count whose low half stands at `lo` and whose high half stands at
/// `hi`.
pub(crate) fn split_count(d: &[u8], lo: usize, hi: usize) -> (n: u64)
    requires
        lo + 2 <= d@.len(),
        hi + 2 <= d@.len(),
    ensures
        n == model::split_count(d@, lo as int, hi as int),
        n <= 0xFFFF_FFFF,
{
    r16(d, lo) as u64 + 0x1_0000 * (r16(d, hi) as u64)
}

pub(crate) fn set_split_count(d: &mut Vec<u8>, lo: usize, hi: usize, v: u64)
    requires
        lo + 2 <= old(d)@.len(),
        hi + 2 <= old(d)@.len(),
    ensures
        final(d)@ == model::set_split_count(old(d)@, lo as int, hi as int, v),
        final(d)@.len() == old(d)@.len(),
{
    w16(d, lo, (v % 0x1_0000) as u16);
    w16(d, hi, (v / 0x1_0000 % 0x1_0000) as u16);
}

pub(crate) fn bitmap_csum(data: &[u8]) -> (c: u16)
    ensures
        c == model::bitmap_csum(data@),
{
    (crc32c(crc32c(0xFFFF_FFFF, &uuid()), data) % 0x1_0000) as u16
}

pub(crate) fn set_bitmap_csums(d: &mut Vec<u8>, bmap: &[u8], imap: &[u8])
    requires
        old(d)@.len() == 64,
    ensures
        final(d)@ == model::with_bitmap_csums(old(d)@, bmap@, imap@),
        final(d)@.len() == 64,
{
    w16(d, 24, bitmap_csum(bmap));
    w16(d, 26, bitmap_csum(imap));
    zero_range(d, 56, 4);
}

// ---------- bitmaps ----------

pub(crate) fn bit_mask(b: usize) -> (m: u8)
    ensures
        m == model::bit_mask(b as int),
        m > 0,
{
    let k: usize = b % 8;
    if k == 0 {
        1
    } else if k == 1 {
        2
    } else if k == 2 {
        4
    } else if k == 3 {
        8
    } else if k == 4 {
        16
    } else if k == 5 {
        32
    } else if k == 6 {
        64
    } else {
        128
    }
}

pub(crate) fn bit_set(bm: &[u8], b: usize) -> (r: bool)
    requires
        b < 8 * bm@.len(),
    ensures
        r == model::bit_set(bm@, b as int),
{
    bm[b / 8] / bit_mask(b) % 2 == 1
}

/// A clear bit can be added to a byte, and a set one taken away.
proof fn bit_room(x: u8, b: int)
    ensures
        x / model::bit_mask(b) % 2 == 1 ==> x >= model::bit_mask(b),
        x / model::bit_mask(b) % 2 != 1 ==> x + model::bit_mask(b) <= 255,
{
    let k = b % 8;
    if k == 0 {
        assert(x / 1u8 % 2 != 1 ==> x + 1 <= 255);
    } else if k == 1 {
        assert(x / 2u8 % 2 != 1 ==> x + 2 <= 255);
    } else if k == 2 {
        assert(x / 4u8 % 2 != 1 ==> x + 4 <= 255);
    } else if k == 3 {
        assert(x / 8u8 % 2 != 1 ==> x + 8 <= 255);
    } else if k == 4 {
        assert(x / 16u8 % 2 != 1 ==> x + 16 <= 255);
    } else if k == 5 {
        assert(x / 32u8 % 2 != 1 ==> x + 32 <= 255);
    } else if k == 6 {
        assert(x / 64u8 % 2 != 1 ==> x + 64 <= 255);
    } else {
        assert(x / 128u8 % 2 != 1 ==> x + 128 <= 255);
    }
}

pub(crate) fn set_bit(bm: &mut Vec<u8>, b: usize)
    requires
        b < 8 * old(bm)@.len(),
    ensures
        final(bm)@ == model::with_bit(old(bm)@, b as int),
        final(bm)@.len() == old(bm)@.len(),
{
    if !bit_set(bm, b) {
        proof {
            bit_room(bm@[b as int / 8], b as int);
        }
        let v: u8 = bm[b / 8] + bit_mask(b);
        bm[b / 8] = v;
    }
}

pub(crate) fn unset_bit(bm: &mut Vec<u8>, b: usize)
    requires
        b < 8 * old(bm)@.len(),
    ensures
        final(bm)@ == model::without_bit(old(bm)@, b as int),
        final(bm)@.len() == old(bm)@.len(),
{
    if bit_set(bm, b) {
        proof {
            bit_room(bm@[b as int / 8], b as int);
        }
        let v: u8 = bm[b / 8] - bit_mask(b);
        bm[b / 8] = v;
    }
}

/// The lowest clear bit below `n`.
pub(crate) fn first_clear(bm: &[u8], n: usize) -> (r: Option<usize>)
    requires
        n <= 8 * bm@.len(),
        n <= 32768,
    ensures
        match (r, model::clear_from(bm@, 0, n as int)) {
            (Some(b), Some(m)) => b == m && b < n,
            (None, None) => true,
            _ => false,
        },
{
    let mut b: usize = 0;
    while b < n
        invariant
            b <= n,
            n <= 8 * bm@.len(),
            n <= 32768,
            model::clear_from(bm@, 0, n as int) == model::clear_from(bm@, b as int, n as int),
        decreases n - b,
    {
        if !bit_set(bm, b) {
            return Some(b);
        }
        b += 1;
    }
    None
}

// ---------- inodes ----------

fn inode_csum(ino: u32, raw: &[u8], extra: u16) -> (c: u32)
    requires
        raw@.len() == 256,
        extra <= 128,
    ensures
        c == model::inode_csum(ino, raw@, extra),
{
    let mut t = copy_of(raw);
    zero_range(&mut t, 124, 2);
    zero_range(&mut t, 130, 2);
    let len: usize = 128 + extra as usize;
    crc32c(seed_of(ino), &t[0..len])
}

/// The block of the inode table that holds inode `ino`.
fn inode_block(d: &[u8], ino: u32) -> (b: u32)
    requires
        d@.len() == 64,
        ino >= 1,
    ensures
        b == model::inode_block(d@, ino),
{
    let idx: u32 = (ino - 1) % 8192;
    ((r32(d, 8) as u64 + (idx * 256 / 4096) as u64) % 0x1_0000_0000) as u32
}

fn inode_off(ino: u32) -> (o: usize)
    requires
        ino >= 1,
    ensures
        o == model::inode_off(ino),
        o + 256 <= 4096,
{
    let idx: u32 = (ino - 1) % 8192;
    (idx * 256 % 4096) as usize
}

/// Reads inode `ino` and checks its checksum.
pub(crate) fn inode_load(fs: &Fs, ino: u32) -> (r: Result<Vec<u8>, FsErr>)
    requires
        fs.wf(),
        ino >= 1,
    ensures
        res_view(r) == model::inode_load(fs@, ino),
        r is Ok ==> r->Ok_0@.len() == 256,
{
    proof {
        reveal(model::inode_load);
    }
    let i = info(fs)?;
    let d = desc_read(fs, (ino - 1) / 8192)?;
    match read_block(fs, inode_block(&d, ino) as u64) {
        None => Err(FsErr::Io),
        Some(b) => {
            let raw = copy_range(&b, inode_off(ino), 256);
            let extra = r16(&raw, 128);
            if i.has_csum && extra > 0 {
                if extra > 128 {
                    return Err(FsErr::Io);
                }
                let want: u32 = r16(&raw, 124) as u32 + 0x1_0000 * (r16(&raw, 130) as u32);
                if want != inode_csum(ino, &raw, extra) {
                    return Err(FsErr::Io);
                }
            }
            Ok(raw)
        },
    }
}

/// Writes inode `ino` with its checksum.
pub(crate) fn inode_save(fs: &mut Fs, ino: u32, raw: &[u8]) -> (r: Result<(), FsErr>)
    requires
        old(fs).wf(),
        ino >= 1,
        raw@.len() == 256,
    ensures
        final(fs).wf(),
        (final(fs)@, r) == model::inode_save(old(fs)@, ino, raw@),
{
    proof {
        reveal(model::inode_save);
    }
    let i = info(fs)?;
    let d = desc_read(fs, (ino - 1) / 8192)?;
    match read_block(fs, inode_block(&d, ino) as u64) {
        None => Err(FsErr::Io),
        Some(mut b) => {
            let extra = r16(raw, 128);
            let mut t = copy_of(raw);
            if i.has_csum && extra > 0 {
                if extra > 128 {
                    return Err(FsErr::Io);
                }
                let c = inode_csum(ino, raw, extra);
                w16(&mut t, 124, (c % 0x1_0000) as u16);
                w16(&mut t, 130, (c / 0x1_0000) as u16);
            }
            put_bytes(&mut b, inode_off(ino), &t);
            if !write_block(fs, inode_block(&d, ino), &b) {
                return Err(FsErr::Io);
            }
            Ok(())
        },
    }
}

pub(crate) fn ino_size(raw: &[u8]) -> (n: u64)
    requires
        raw@.len() == 256,
    ensures
        n == model::ino_size(raw@),
{
    r32(raw, 4) as u64 + 0x1_0000_0000 * (r32(raw, 108) as u64)
}

pub(crate) fn is_dir_mode(raw: &[u8]) -> (r: bool)
    requires
        raw@.len() == 256,
    ensures
        r == model::is_dir_mode(raw@),
{
    r16(raw, 0) / 0x4000 % 2 == 1
}

pub(crate) fn is_reg_mode(raw: &[u8]) -> (r: bool)
    requires
        raw@.len() == 256,
    ensures
        r == model::is_reg_mode(raw@),
{
    r16(raw, 0) / 0x8000 % 2 == 1
}

pub(crate) fn ino_extents(raw: &[u8]) -> (ib: Vec<u8>)
    requires
        raw@.len() == 256,
    ensures
        ib@ == model::ino_extents(raw@),
        ib@.len() == 60,
{
    copy_range(raw, 40, 60)
}

pub(crate) fn new_inode(mode: u16, links: u16) -> (raw: Vec<u8>)
    ensures
        raw@ == model::new_inode(mode, links),
        raw@.len() == 256,
{
    let mut raw = zeros(256);
    w16(&mut raw, 0, mode);
    w16(&mut raw, 26, links);
    w32(&mut raw, 32, 0x0008_0000);
    w32(&mut raw, 36, 1);
    w16(&mut raw, 128, 32);
    w16(&mut raw, 132, 1);
    raw
}

pub(crate) fn one_extent(len: u16, phys: u32) -> (ib: Vec<u8>)
    ensures
        ib@ == model::one_extent(len, phys),
        ib@.len() == 60,
{
    let mut ib = zeros(60);
    w16(&mut ib, 0, EXTENT_MAGIC);
    w16(&mut ib, 2, 1);
    w16(&mut ib, 4, 4);
    w32(&mut ib, 12, 0);
    w16(&mut ib, 16, len);
    w16(&mut ib, 18, (phys / 0x1_0000) as u16);
    w32(&mut ib, 20, phys);
    ib
}

} // verus!
