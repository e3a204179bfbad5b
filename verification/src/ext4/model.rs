//! What the ext4 driver computes, as functions of the volume.
//!
//! Each function here takes the state of the mounted file system and says
//! what an operation returns and which state it leaves behind, on every path,
//! the failing ones as well.

use vstd::prelude::*;
use crate::bytes::{le32, put16, put32, splice, u16_at, u32_at, zero_bytes};
use crate::crc::crc_of;
use crate::fs::{shown, Ext4Info, FsErr, FsKind, FsView, JbdPend, JbdView, ListingView};
use crate::path::{components, parent_and_leaf};

verus! {

// ---------- block I/O ----------

/// The `i`-th sector of block `blk`.
pub open spec fn block_sector(s: FsView, blk: int, i: int) -> Option<Seq<u8>> {
    s.raw_read(8 * blk + i)
}

/// All eight sectors of the block can be read.
pub open spec fn block_there(s: FsView, blk: int) -> bool {
    forall|i: int| 0 <= i < 8 ==> (#[trigger] block_sector(s, blk, i)) is Some
}

/// The contents of a block on the disk.
pub open spec fn rb_raw(s: FsView, blk: int) -> Option<Seq<u8>> {
    if block_there(s, blk) {
        Some(Seq::new(4096, |k: int| block_sector(s, blk, k / 512)->0[k % 512]))
    } else {
        None
    }
}

/// Writes the sectors of a block from the `i`-th on; stops at the first that
/// cannot be written.
pub open spec fn wb_from(s: FsView, blk: int, data: Seq<u8>, i: int) -> (FsView, bool)
    decreases 8 - i,
{
    if i >= 8 {
        (s, true)
    } else {
        match s.raw_write(8 * blk + i, data.subrange(512 * i, 512 * i + 512)) {
            None => (s, false),
            Some(s1) => wb_from(s1, blk, data, i + 1),
        }
    }
}

/// Writes a block to the disk.
#[verifier::opaque]
pub open spec fn wb_raw(s: FsView, blk: int, data: Seq<u8>) -> (FsView, bool) {
    wb_from(s, blk, data, 0)
}

// ---------- the journal ----------

/// The slot that holds the newest copy of block `blk`, if it was logged.
pub open spec fn pend_pos(pend: Seq<JbdPend>, blk: int) -> Option<u32>
    decreases pend.len(),
{
    if pend.len() == 0 {
        None
    } else if pend[0].blk == blk {
        Some(pend[0].pos)
    } else {
        pend_pos(pend.skip(1), blk)
    }
}

/// What a read of block `blk` returns: the logged copy where there is one.
#[verifier::opaque]
pub open spec fn read_block(s: FsView, blk: int) -> Option<Seq<u8>> {
    match s.jbd {
        Some(j) => match pend_pos(j.pend, blk) {
            Some(p) => rb_raw(s, j.base + p),
            None => rb_raw(s, blk),
        },
        None => rb_raw(s, blk),
    }
}

pub open spec fn is_jbd_block(base: u32, blk: int) -> bool {
    base <= blk < base + 1024
}

/// Writes the destination numbers of the first `k` blocks behind the header.
pub open spec fn desc_numbers(b: Seq<u8>, dests: Seq<u32>, k: int) -> Seq<u8>
    decreases k,
{
    if k <= 0 {
        b
    } else {
        put32(desc_numbers(b, dests, k - 1), 16 + 4 * (k - 1), dests[k - 1])
    }
}

/// The descriptor block of a transaction: magic, type 2, sequence number,
/// block count, and the destinations of the blocks.
pub open spec fn descriptor(seq: u32, dests: Seq<u32>) -> Seq<u8> {
    desc_numbers(
        put32(
            put32(put32(put32(zero_bytes(4096), 0, 0xC03B_3998), 4, 2), 8, seq),
            12,
            dests.len() as u32,
        ),
        dests,
        dests.len() as int,
    )
}

/// The commit block of a transaction: magic, type 3, sequence number,
/// checksum, and block count.
pub open spec fn commit_record(seq: u32, chk: u32, n: u32) -> Seq<u8> {
    put32(
        put32(put32(put32(put32(zero_bytes(4096), 0, 0xC03B_3998), 4, 3), 8, seq), 12, chk),
        16,
        n,
    )
}

/// The checksum over the blocks `from + k .. from + n`, started from `acc`.
pub open spec fn chain_crc(s: FsView, from: int, k: int, n: int, acc: u32) -> Option<u32>
    decreases n - k,
{
    if k >= n {
        Some(acc)
    } else {
        match rb_raw(s, from + k) {
            None => None,
            Some(b) => chain_crc(s, from, k + 1, n, crc_of(acc, b)),
        }
    }
}

/// Copies the logged blocks `from + k ..` to their destinations.
pub open spec fn redo(s: FsView, from: int, dests: Seq<u32>, k: int) -> (FsView, bool)
    decreases dests.len() - k,
{
    if k >= dests.len() {
        (s, true)
    } else {
        match rb_raw(s, from + k) {
            None => (s, false),
            Some(b) => {
                let (s1, ok) = wb_raw(s, dests[k] as int, b);
                if !ok {
                    (s1, false)
                } else {
                    redo(s1, from, dests, k + 1)
                }
            },
        }
    }
}

/// The destinations of the pending blocks.
pub open spec fn dests_of(pend: Seq<JbdPend>) -> Seq<u32> {
    Seq::new(pend.len(), |k: int| pend[k].blk)
}

/// The journal state behind a transaction of `n` blocks.
pub open spec fn advance(j: JbdView, n: int) -> JbdView {
    JbdView {
        base: j.base,
        start: if j.start + 2 + n > 1023 {
            1
        } else {
            (j.start + 2 + n) as u32
        },
        seq: if j.seq == u32::MAX {
            0
        } else {
            (j.seq + 1) as u32
        },
        pend: Seq::empty(),
    }
}

/// A start slot behind which not even one block would fit stands for slot 1:
/// the ring starts over there, for the writer and for the reader.
pub open spec fn ring_slot(start: u32) -> u32 {
    if start + 2 > 1023 {
        1
    } else {
        start
    }
}

/// The journal with its start slot on the ring.
pub open spec fn wrapped(j: JbdView) -> JbdView {
    JbdView { start: ring_slot(j.start), ..j }
}

/// Stores the sequence number and the start slot in the journal superblock.
pub open spec fn write_super(s: FsView, j: JbdView) -> (FsView, Result<(), FsErr>) {
    match rb_raw(s, j.base as int) {
        None => (s, Err(FsErr::Io)),
        Some(sb) => {
            let (s1, ok) = wb_raw(s, j.base as int, put32(put32(sb, 8, j.seq), 12, j.start));
            if ok {
                (s1, Ok(()))
            } else {
                (s1, Err(FsErr::Io))
            }
        },
    }
}

/// Commits the pending blocks: descriptor, commit block, then the blocks
/// themselves, then the journal superblock.
#[verifier::opaque]
pub open spec fn commit_pending(s: FsView, j: JbdView) -> (FsView, Result<(), FsErr>) {
    let n = j.pend.len() as int;
    let dests = dests_of(j.pend);
    let d = descriptor(j.seq, dests);
    let from = j.base + j.start + 1;
    match chain_crc(s, from, 0, n, crc_of(0xFFFF_FFFF, d)) {
        None => (s, Err(FsErr::Io)),
        Some(chk) => {
            let (s1, ok1) = wb_raw(s, j.base + j.start, d);
            if !ok1 {
                (s1, Err(FsErr::Io))
            } else {
                let (s2, ok2) = wb_raw(s1, from + n, commit_record(j.seq, chk, n as u32));
                if !ok2 {
                    (s2, Err(FsErr::Io))
                } else {
                    let (s3, ok3) = redo(s2, from, dests, 0);
                    if !ok3 {
                        (s3, Err(FsErr::Io))
                    } else {
                        let j4 = advance(j, n);
                        write_super(FsView { jbd: Some(j4), ..s3 }, j4)
                    }
                }
            }
        },
    }
}

pub open spec fn jbd_commit(s: FsView) -> (FsView, Result<(), FsErr>) {
    match s.jbd {
        None => (s, Ok(())),
        Some(j) => if j.pend.len() == 0 {
            (s, Ok(()))
        } else {
            commit_pending(s, j)
        },
    }
}

/// Logs a block that is not pending yet. When the transaction would grow
/// past the last slot it is committed first, and an empty transaction that
/// does not fit behind the start slot starts over at slot 1.
#[verifier::opaque]
pub open spec fn log_block(s: FsView, j: JbdView, blk: int, data: Seq<u8>) -> (FsView, bool) {
    let full = j.pend.len() > 0 && (j.pend.len() == 1020 || j.start + j.pend.len() + 2 > 1023);
    let (s1, r) = if full {
        commit_pending(s, j)
    } else {
        (s, Ok::<(), FsErr>(()))
    };
    if r is Err {
        (s1, false)
    } else {
        let j1 = s1.jbd->0;
        let j2 = if j1.pend.len() == 0 {
            wrapped(j1)
        } else {
            j1
        };
        let pos = j2.start + 1 + j2.pend.len();
        let (s3, ok) = wb_raw(FsView { jbd: Some(j2), ..s1 }, j2.base + pos, data);
        if !ok {
            (s3, false)
        } else {
            let p = JbdPend { blk: blk as u32, pos: pos as u32 };
            (FsView { jbd: Some(JbdView { pend: j2.pend.push(p), ..j2 }), ..s3 }, true)
        }
    }
}

#[verifier::opaque]
pub open spec fn write_block(s: FsView, blk: int, data: Seq<u8>) -> (FsView, bool) {
    match s.jbd {
        Some(j) => if is_jbd_block(j.base, blk) {
            wb_raw(s, blk, data)
        } else {
            match pend_pos(j.pend, blk) {
                Some(p) => wb_raw(s, j.base + p, data),
                None => log_block(s, j, blk, data),
            }
        },
        None => wb_raw(s, blk, data),
    }
}

/// What stands in the journal at a slot.
pub enum Txn {
    /// The slots cannot be read.
    Fault,
    /// No complete transaction with the expected sequence number.
    End,
    /// A committed transaction for these blocks.
    Redo(Seq<u32>),
}

/// The destinations that a descriptor block names.
pub open spec fn desc_dests(d: Seq<u8>, n: nat) -> Seq<u32> {
    Seq::new(n, |k: int| u32_at(d, 16 + 4 * k))
}

#[verifier::opaque]
pub open spec fn txn_at(s: FsView, base: u32, start: u32, seq: u32) -> Txn {
    if start + 2 > 1024 {
        Txn::End
    } else {
        match rb_raw(s, base + start) {
            None => Txn::Fault,
            Some(d) => {
                let n = u32_at(d, 12);
                if u32_at(d, 0) != 0xC03B_3998 || u32_at(d, 4) != 2 || u32_at(d, 8) != seq {
                    Txn::End
                } else if n > 1020 || start + 2 + n > 1024 {
                    Txn::End
                } else {
                    match rb_raw(s, base + start + 1 + n) {
                        None => Txn::Fault,
                        Some(c) => if u32_at(c, 0) != 0xC03B_3998 || u32_at(c, 4) != 3 || u32_at(
                            c,
                            8,
                        ) != seq {
                            Txn::End
                        } else {
                            match chain_crc(
                                s,
                                base + start + 1,
                                0,
                                n as int,
                                crc_of(0xFFFF_FFFF, d),
                            ) {
                                None => Txn::Fault,
                                Some(chk) => if u32_at(c, 12) != chk {
                                    Txn::End
                                } else {
                                    Txn::Redo(desc_dests(d, n as nat))
                                },
                            }
                        },
                    }
                }
            },
        }
    }
}

/// Applies the committed transactions that the journal holds, in order, each
/// from the slot on at which it was logged.
pub open spec fn replay(s: FsView, j0: JbdView) -> (FsView, JbdView, Result<(), FsErr>)
    decreases u32::MAX - j0.seq,
{
    let j = wrapped(j0);
    match txn_at(s, j.base, j.start, j.seq) {
        Txn::Fault => (s, j, Err(FsErr::Io)),
        Txn::End => (s, j, Ok(())),
        Txn::Redo(dests) => {
            let (s1, ok) = redo(s, j.base + j.start + 1, dests, 0);
            if !ok || j.seq == u32::MAX {
                (s1, j, Err(FsErr::Io))
            } else {
                replay(s1, advance(j, dests.len() as int))
            }
        },
    }
}

// ---------- superblock ----------

/// The superblock: 1024 bytes at offset 1024 of block 0.
pub open spec fn sb_read(s: FsView) -> Result<Seq<u8>, FsErr> {
    match read_block(s, 0) {
        None => Err(FsErr::Io),
        Some(b) => Ok(b.subrange(1024, 2048)),
    }
}

/// `sb` with its checksum field set.
pub open spec fn sb_with_csum(sb: Seq<u8>) -> Seq<u8> {
    let z = splice(sb, 628, zero_bytes(4));
    put32(z, 628, crc_of(0xFFFF_FFFF, z))
}

#[verifier::opaque]
pub open spec fn sb_write(s: FsView, sb: Seq<u8>) -> (FsView, Result<(), FsErr>) {
    match s.ext {
        None => (s, Err(FsErr::NotFormatted)),
        Some(i) => {
            let t = if i.has_csum {
                sb_with_csum(sb)
            } else {
                sb
            };
            match read_block(s, 0) {
                None => (s, Err(FsErr::Io)),
                Some(b) => {
                    let (s1, ok) = write_block(s, 0, splice(b, 1024, t));
                    if ok {
                        (s1, Ok(()))
                    } else {
                        (s1, Err(FsErr::Io))
                    }
                },
            }
        },
    }
}

pub open spec fn sb_free_blocks(sb: Seq<u8>) -> u64 {
    (u32_at(sb, 12) + 0x1_0000_0000 * u32_at(sb, 340)) as u64
}

/// `sb` with its free block count changed by `delta`, but not below zero.
pub open spec fn sb_bump_blocks(sb: Seq<u8>, delta: int) -> Seq<u8> {
    let cur = sb_free_blocks(sb) as int;
    let next = if cur >= 0x8000_0000_0000_0000 || cur + delta < 0 {
        0
    } else {
        cur + delta
    };
    put32(
        put32(sb, 12, (next % 0x1_0000_0000) as u32),
        340,
        (next / 0x1_0000_0000 % 0x1_0000_0000) as u32,
    )
}

/// `sb` with its free inode count changed by `delta`, within 32 bits.
pub open spec fn sb_bump_inodes(sb: Seq<u8>, delta: int) -> Seq<u8> {
    let next = u32_at(sb, 16) + delta;
    put32(
        sb,
        16,
        if next < 0 {
            0
        } else if next > u32::MAX {
            u32::MAX
        } else {
            next as u32
        },
    )
}

pub open spec fn update_sb_free_blocks(s: FsView, delta: int) -> (FsView, Result<(), FsErr>) {
    match sb_read(s) {
        Err(e) => (s, Err(e)),
        Ok(sb) => sb_write(s, sb_bump_blocks(sb, delta)),
    }
}

pub open spec fn update_sb_free_inodes(s: FsView, delta: int) -> (FsView, Result<(), FsErr>) {
    match sb_read(s) {
        Err(e) => (s, Err(e)),
        Ok(sb) => sb_write(s, sb_bump_inodes(sb, delta)),
    }
}

// ---------- group descriptors ----------

pub open spec fn desc_block_of(g: int) -> int {
    1 + g * 64 / 4096
}

pub open spec fn desc_off_of(g: int) -> int {
    g * 64 % 4096
}

pub open spec fn uuid() -> Seq<u8> {
    seq![83u8, 79, 76, 65, 82, 79, 83, 45, 69, 88, 84, 52, 45, 50, 54, 49]
}

#[verifier::opaque]
pub open spec fn desc_read(s: FsView, g: int) -> Result<Seq<u8>, FsErr> {
    match read_block(s, desc_block_of(g)) {
        None => Err(FsErr::Io),
        Some(b) => Ok(b.subrange(desc_off_of(g), desc_off_of(g) + 64)),
    }
}

pub open spec fn desc_csum(g: int, d: Seq<u8>) -> u16 {
    let seed = crc_of(crc_of(0xFFFF_FFFF, uuid()), le32(g as u32));
    (crc_of(seed, splice(d, 30, zero_bytes(2))) % 0x1_0000) as u16
}

#[verifier::opaque]
pub open spec fn desc_write(s: FsView, g: int, d: Seq<u8>) -> (FsView, Result<(), FsErr>) {
    match read_block(s, desc_block_of(g)) {
        None => (s, Err(FsErr::Io)),
        Some(b) => {
            let (s1, ok) = write_block(
                s,
                desc_block_of(g),
                splice(b, desc_off_of(g), put16(d, 30, desc_csum(g, d))),
            );
            if ok {
                (s1, Ok(()))
            } else {
                (s1, Err(FsErr::Io))
            }
        },
    }
}

/// A count whose low half stands at `lo` and whose high half stands at `hi`.
pub open spec fn split_count(d: Seq<u8>, lo: int, hi: int) -> u64 {
    (u16_at(d, lo) + 0x1_0000 * u16_at(d, hi)) as u64
}

pub open spec fn set_split_count(d: Seq<u8>, lo: int, hi: int, v: u64) -> Seq<u8> {
    put16(put16(d, lo, (v % 0x1_0000) as u16), hi, (v / 0x1_0000 % 0x1_0000) as u16)
}

pub open spec fn bitmap_csum(data: Seq<u8>) -> u16 {
    (crc_of(crc_of(0xFFFF_FFFF, uuid()), data) % 0x1_0000) as u16
}

pub open spec fn with_bitmap_csums(d: Seq<u8>, bmap: Seq<u8>, imap: Seq<u8>) -> Seq<u8> {
    splice(
        put16(put16(d, 24, bitmap_csum(bmap)), 26, bitmap_csum(imap)),
        56,
        zero_bytes(4),
    )
}

// ---------- bitmaps ----------

/// The value of bit `b % 8` in a byte.
pub open spec fn bit_mask(b: int) -> u8 {
    let k = b % 8;
    if k == 0 {
        1
    } else if k == 1 {
        2
    } else if k == 2 {
        4
    } else if k == 3 {
        8
    } else if k == 4 {
        16
    } else if k == 5 {
        32
    } else if k == 6 {
        64
    } else {
        128
    }
}

pub open spec fn bit_set(bm: Seq<u8>, b: int) -> bool {
    bm[b / 8] / bit_mask(b) % 2 == 1
}

pub open spec fn with_bit(bm: Seq<u8>, b: int) -> Seq<u8> {
    if bit_set(bm, b) {
        bm
    } else {
        bm.update(b / 8, (bm[b / 8] + bit_mask(b)) as u8)
    }
}

pub open spec fn without_bit(bm: Seq<u8>, b: int) -> Seq<u8> {
    if bit_set(bm, b) {
        bm.update(b / 8, (bm[b / 8] - bit_mask(b)) as u8)
    } else {
        bm
    }
}

/// The lowest clear bit of `bm` from `b` on, below `n`.
pub open spec fn clear_from(bm: Seq<u8>, b: int, n: int) -> Option<int>
    decreases n - b,
{
    if b >= n {
        None
    } else if !bit_set(bm, b) {
        Some(b)
    } else {
        clear_from(bm, b + 1, n)
    }
}

// ---------- inodes ----------

pub open spec fn inode_csum(ino: u32, raw: Seq<u8>, extra: u16) -> u32 {
    let seed = crc_of(crc_of(0xFFFF_FFFF, uuid()), le32(ino));
    let t = splice(splice(raw, 124, zero_bytes(2)), 130, zero_bytes(2));
    crc_of(seed, t.subrange(0, 128 + extra))
}

/// The block of the inode table that holds inode `ino`.
pub open spec fn inode_block(d: Seq<u8>, ino: u32) -> int {
    (u32_at(d, 8) + (ino - 1) % 8192 * 256 / 4096) % 0x1_0000_0000
}

pub open spec fn inode_off(ino: u32) -> int {
    (ino - 1) % 8192 * 256 % 4096
}

/// The stored checksum of an inode.
pub open spec fn inode_stored_csum(raw: Seq<u8>) -> u32 {
    (u16_at(raw, 124) + 0x1_0000 * u16_at(raw, 130)) as u32
}

#[verifier::opaque]
pub open spec fn inode_load(s: FsView, ino: u32) -> Result<Seq<u8>, FsErr> {
    match s.ext {
        None => Err(FsErr::NotFormatted),
        Some(i) => match desc_read(s, (ino - 1) / 8192) {
            Err(e) => Err(e),
            Ok(d) => match read_block(s, inode_block(d, ino)) {
                None => Err(FsErr::Io),
                Some(b) => {
                    let raw = b.subrange(inode_off(ino), inode_off(ino) + 256);
                    let extra = u16_at(raw, 128);
                    if i.has_csum && extra > 0 && (extra > 128 || inode_stored_csum(raw)
                        != inode_csum(ino, raw, extra)) {
                        Err(FsErr::Io)
                    } else {
                        Ok(raw)
                    }
                },
            },
        },
    }
}

/// `raw` with its checksum fields set.
pub open spec fn inode_with_csum(ino: u32, raw: Seq<u8>) -> Seq<u8> {
    let c = inode_csum(ino, raw, u16_at(raw, 128));
    put16(put16(raw, 124, (c % 0x1_0000) as u16), 130, (c / 0x1_0000) as u16)
}

#[verifier::opaque]
pub open spec fn inode_save(s: FsView, ino: u32, raw: Seq<u8>) -> (FsView, Result<(), FsErr>) {
    match s.ext {
        None => (s, Err(FsErr::NotFormatted)),
        Some(i) => match desc_read(s, (ino - 1) / 8192) {
            Err(e) => (s, Err(e)),
            Ok(d) => match read_block(s, inode_block(d, ino)) {
                None => (s, Err(FsErr::Io)),
                Some(b) => {
                    let extra = u16_at(raw, 128);
                    if i.has_csum && extra > 128 {
                        (s, Err(FsErr::Io))
                    } else {
                        let t = if i.has_csum && extra > 0 {
                            inode_with_csum(ino, raw)
                        } else {
                            raw
                        };
                        let (s1, ok) = write_block(
                            s,
                            inode_block(d, ino),
                            splice(b, inode_off(ino), t),
                        );
                        if ok {
                            (s1, Ok(()))
                        } else {
                            (s1, Err(FsErr::Io))
                        }
                    }
                },
            },
        },
    }
}

pub open spec fn ino_size(raw: Seq<u8>) -> u64 {
    (u32_at(raw, 4) + 0x1_0000_0000 * u32_at(raw, 108)) as u64
}

/// The mode says that the inode is a directory.
pub open spec fn is_dir_mode(raw: Seq<u8>) -> bool {
    u16_at(raw, 0) / 0x4000 % 2 == 1
}

/// The mode says that the inode is a regular file.
pub open spec fn is_reg_mode(raw: Seq<u8>) -> bool {
    u16_at(raw, 0) / 0x8000 % 2 == 1
}

pub open spec fn ino_extents(raw: Seq<u8>) -> Seq<u8> {
    raw.subrange(40, 100)
}

/// A fresh inode: no blocks, the extents flag, 32 extra bytes.
pub open spec fn new_inode(mode: u16, links: u16) -> Seq<u8> {
    put16(
        put16(
            put32(put32(put16(put16(zero_bytes(256), 0, mode), 26, links), 32, 0x0008_0000), 36, 1),
            128,
            32,
        ),
        132,
        1,
    )
}

/// An extent area with one extent: `len` blocks from `phys` on.
pub open spec fn one_extent(len: u16, phys: u32) -> Seq<u8> {
    put32(
        put16(
            put16(
                put32(
                    put16(put16(put16(zero_bytes(60), 0, 0xF30A), 2, 1), 4, 4),
                    12,
                    0,
                ),
                16,
                len,
            ),
            18,
            (phys / 0x1_0000) as u16,
        ),
        20,
        phys,
    )
}

// ---------- extents ----------

/// The first physical block of the extent entry at offset `o`.
pub open spec fn extent_start(d: Seq<u8>, o: int) -> u32 {
    u32_at(d, o + 8) | ((u16_at(d, o + 6) as u32 * 0x1_0000) as u32)
}

pub open spec fn extent_len(d: Seq<u8>, o: int) -> int {
    (u16_at(d, o + 4) % 0x8000) as int
}

/// The physical block of `logical` among the leaf entries from the `e`-th on.
pub open spec fn leaf_find(d: Seq<u8>, logical: u32, e: int) -> Option<u32>
    decreases u16_at(d, 2) - e,
{
    let o = 12 + 12 * e;
    if e >= u16_at(d, 2) || o + 12 > d.len() {
        None
    } else if u32_at(d, o) <= logical < u32_at(d, o) + extent_len(d, o) {
        let p = extent_start(d, o) + (logical - u32_at(d, o));
        if p <= u32::MAX {
            Some(p as u32)
        } else {
            None
        }
    } else {
        leaf_find(d, logical, e + 1)
    }
}

/// The child of an index node that covers `logical`: that of the last of the
/// entries from the `e`-th on that starts at or before it.
pub open spec fn index_find(
    d: Seq<u8>,
    logical: u32,
    e: int,
    found: Option<u32>,
) -> Option<u32>
    decreases u16_at(d, 2) - e,
{
    let o = 12 + 12 * e;
    if e >= u16_at(d, 2) {
        found
    } else if o + 4 > d.len() {
        None
    } else if u32_at(d, o) <= logical {
        if o + 8 > d.len() {
            None
        } else {
            index_find(d, logical, e + 1, Some(u32_at(d, o + 4)))
        }
    } else {
        index_find(d, logical, e + 1, found)
    }
}

/// The number of nodes after which a walk down an extent tree must have met a
/// node twice.
pub open spec fn tree_fuel() -> nat {
    0x1_0000_0001
}

/// Follows the extent tree from the node `d`, through at most `fuel` nodes.
pub open spec fn extent_walk(s: FsView, d: Seq<u8>, logical: u32, fuel: nat) -> Option<u32>
    decreases fuel,
{
    if fuel == 0 || u16_at(d, 0) != 0xF30A {
        None
    } else if u16_at(d, 6) == 0 {
        leaf_find(d, logical, 0)
    } else {
        match index_find(d, logical, 0, None) {
            None => None,
            Some(child) => match read_block(s, child as int) {
                None => None,
                Some(b) => extent_walk(s, b, logical, (fuel - 1) as nat),
            },
        }
    }
}

/// The physical block of the logical block of a file.
#[verifier::opaque]
pub open spec fn extent_map(s: FsView, hdr: Seq<u8>, logical: u32) -> Option<u32> {
    extent_walk(s, hdr, logical, tree_fuel())
}

/// The extent area of an inode, made ready where it holds no extent header.
pub open spec fn extent_area(raw: Seq<u8>) -> Seq<u8> {
    let ib = ino_extents(raw);
    if u16_at(ib, 0) != 0xF30A {
        put16(put16(put16(put16(zero_bytes(60), 0, 0xF30A), 2, 0), 4, 4), 6, 0)
    } else {
        ib
    }
}

/// `raw` with the physical block `phys` appended to its extents.
#[verifier::opaque]
pub open spec fn extent_append(raw: Seq<u8>, phys: u32) -> Result<Seq<u8>, FsErr> {
    let ib = extent_area(raw);
    let entries = u16_at(ib, 2) as int;
    if u16_at(ib, 6) != 0 || entries > 4 {
        Err(FsErr::Unsupported)
    } else {
        let o = 12 + 12 * (entries - 1);
        let last = if entries > 0 {
            u32_at(ib, o) + extent_len(ib, o)
        } else {
            0
        };
        if last > u32::MAX {
            Err(FsErr::Unsupported)
        } else if entries > 0 && extent_start(ib, o) + extent_len(ib, o) == phys && extent_len(
            ib,
            o,
        ) < 0x7FFF {
            Ok(splice(raw, 40, put16(ib, o + 4, (extent_len(ib, o) + 1) as u16)))
        } else if entries >= 4 {
            Err(FsErr::Unsupported)
        } else {
            let p = 12 + 12 * entries;
            let ib2 = put32(
                put16(
                    put16(put32(ib, p, last as u32), p + 4, 1),
                    p + 6,
                    (phys / 0x1_0000) as u16,
                ),
                p + 8,
                phys,
            );
            Ok(splice(raw, 40, put16(ib2, 2, (entries + 1) as u16)))
        }
    }
}

/// Frees the blocks `from + k .. from + n`.
pub open spec fn free_run(s: FsView, from: int, k: int, n: int) -> (FsView, Result<(), FsErr>)
    decreases n - k,
{
    if k >= n {
        (s, Ok(()))
    } else if from + k > u32::MAX {
        (s, Err(FsErr::Io))
    } else {
        let (s1, r) = free_block(s, (from + k) as u32);
        match r {
            Err(e) => (s1, Err(e)),
            Ok(()) => free_run(s1, from, k + 1, n),
        }
    }
}

/// Frees the blocks of the extents from the `e`-th on.
pub open spec fn free_entries(s: FsView, ib: Seq<u8>, e: int) -> (FsView, Result<(), FsErr>)
    decreases u16_at(ib, 2) - e,
{
    let o = 12 + 12 * e;
    if e >= u16_at(ib, 2) {
        (s, Ok(()))
    } else if o + 12 > 60 {
        (s, Err(FsErr::Io))
    } else {
        let (s1, r) = free_run(s, extent_start(ib, o) as int, 0, extent_len(ib, o));
        match r {
            Err(x) => (s1, Err(x)),
            Ok(()) => free_entries(s1, ib, e + 1),
        }
    }
}

/// Frees every block that the extents of an inode name.
#[verifier::opaque]
pub open spec fn free_extents(s: FsView, raw: Seq<u8>) -> (FsView, Result<(), FsErr>) {
    let ib = ino_extents(raw);
    if u16_at(ib, 0) != 0xF30A {
        (s, Ok(()))
    } else if u16_at(ib, 6) != 0 {
        (s, Err(FsErr::Unsupported))
    } else {
        free_entries(s, ib, 0)
    }
}

// ---------- allocation ----------

/// The number of blocks of group `g`.
pub open spec fn group_blocks(i: Ext4Info, g: int) -> int {
    let rest = i.total_blocks - g * 32768;
    if rest < 0 {
        0
    } else if rest > 32768 {
        32768
    } else {
        rest
    }
}

/// Marks bit `bit` of group `g` used and counts it.
#[verifier::opaque]
pub open spec fn take_block(
    s: FsView,
    g: int,
    d: Seq<u8>,
    bmap: Seq<u8>,
    bit: int,
) -> (FsView, Result<u32, FsErr>) {
    let bm = with_bit(bmap, bit);
    let (s1, ok) = write_block(s, u32_at(d, 0) as int, bm);
    if !ok {
        (s1, Err(FsErr::Io))
    } else {
        match read_block(s1, u32_at(d, 4) as int) {
            None => (s1, Err(FsErr::Io)),
            Some(imap) => {
                let d1 = with_bitmap_csums(d, bm, imap);
                let cur = split_count(d1, 12, 44);
                if cur == 0 {
                    (s1, Err(FsErr::NoSpace))
                } else {
                    let (s2, r2) = desc_write(s1, g, set_split_count(d1, 12, 44, (cur - 1) as u64));
                    match r2 {
                        Err(e) => (s2, Err(e)),
                        Ok(()) => {
                            let (s3, r3) = update_sb_free_blocks(s2, -1);
                            match r3 {
                                Err(e) => (s3, Err(e)),
                                Ok(()) => (s3, Ok((g * 32768 + bit) as u32)),
                            }
                        },
                    }
                }
            },
        }
    }
}

/// Takes the first free block from group `g` on.
pub open spec fn alloc_block_from(s: FsView, i: Ext4Info, g: int) -> (FsView, Result<u32, FsErr>)
    decreases i.groups - g,
{
    if g >= i.groups {
        (s, Err(FsErr::NoSpace))
    } else {
        match desc_read(s, g) {
            Err(e) => (s, Err(e)),
            Ok(d) => match read_block(s, u32_at(d, 0) as int) {
                None => (s, Err(FsErr::Io)),
                Some(bmap) => match clear_from(bmap, 0, group_blocks(i, g)) {
                    None => alloc_block_from(s, i, g + 1),
                    Some(bit) => take_block(s, g, d, bmap, bit),
                },
            },
        }
    }
}

/// Takes the first free block of the volume.
#[verifier::opaque]
pub open spec fn alloc_block(s: FsView) -> (FsView, Result<u32, FsErr>) {
    match s.ext {
        None => (s, Err(FsErr::NotFormatted)),
        Some(i) => alloc_block_from(s, i, 0),
    }
}

#[verifier::opaque]
pub open spec fn free_block(s: FsView, blk: u32) -> (FsView, Result<(), FsErr>) {
    let g = blk as int / 32768;
    match desc_read(s, g) {
        Err(e) => (s, Err(e)),
        Ok(d) => match read_block(s, u32_at(d, 0) as int) {
            None => (s, Err(FsErr::Io)),
            Some(bmap) => {
                let bm = without_bit(bmap, blk as int % 32768);
                let (s1, ok) = write_block(s, u32_at(d, 0) as int, bm);
                if !ok {
                    (s1, Err(FsErr::Io))
                } else {
                    match read_block(s1, u32_at(d, 4) as int) {
                        None => (s1, Err(FsErr::Io)),
                        Some(imap) => {
                            let d1 = with_bitmap_csums(d, bm, imap);
                            let (s2, r2) = desc_write(
                                s1,
                                g,
                                set_split_count(
                                    d1,
                                    12,
                                    44,
                                    (split_count(d1, 12, 44) + 1) as u64,
                                ),
                            );
                            match r2 {
                                Err(e) => (s2, Err(e)),
                                Ok(()) => update_sb_free_blocks(s2, 1),
                            }
                        },
                    }
                }
            },
        },
    }
}

/// Marks inode bit `bit` of group `g` used and counts it.
#[verifier::opaque]
pub open spec fn take_inode(
    s: FsView,
    g: int,
    d: Seq<u8>,
    imap: Seq<u8>,
    bit: int,
) -> (FsView, Result<u32, FsErr>) {
    let im = with_bit(imap, bit);
    let (s1, ok) = write_block(s, u32_at(d, 4) as int, im);
    if !ok {
        (s1, Err(FsErr::Io))
    } else {
        match read_block(s1, u32_at(d, 0) as int) {
            None => (s1, Err(FsErr::Io)),
            Some(bmap) => {
                let d1 = with_bitmap_csums(d, bmap, im);
                let cur = split_count(d1, 14, 46);
                if cur == 0 {
                    (s1, Err(FsErr::NoSpace))
                } else {
                    let (s2, r2) = desc_write(s1, g, set_split_count(d1, 14, 46, (cur - 1) as u64));
                    match r2 {
                        Err(e) => (s2, Err(e)),
                        Ok(()) => {
                            let (s3, r3) = update_sb_free_inodes(s2, -1);
                            match r3 {
                                Err(e) => (s3, Err(e)),
                                Ok(()) => (s3, Ok((g * 8192 + bit + 1) as u32)),
                            }
                        },
                    }
                }
            },
        }
    }
}

pub open spec fn alloc_inode_from(s: FsView, i: Ext4Info, g: int) -> (FsView, Result<u32, FsErr>)
    decreases i.groups - g,
{
    if g >= i.groups {
        (s, Err(FsErr::NoSpace))
    } else {
        match desc_read(s, g) {
            Err(e) => (s, Err(e)),
            Ok(d) => match read_block(s, u32_at(d, 4) as int) {
                None => (s, Err(FsErr::Io)),
                Some(imap) => match clear_from(imap, 0, 8192) {
                    None => alloc_inode_from(s, i, g + 1),
                    Some(bit) => take_inode(s, g, d, imap, bit),
                },
            },
        }
    }
}

/// Takes the first free inode of the volume.
#[verifier::opaque]
pub open spec fn alloc_inode(s: FsView) -> (FsView, Result<u32, FsErr>) {
    match s.ext {
        None => (s, Err(FsErr::NotFormatted)),
        Some(i) => alloc_inode_from(s, i, 0),
    }
}

#[verifier::opaque]
pub open spec fn free_inode(s: FsView, ino: u32) -> (FsView, Result<(), FsErr>) {
    let g = (ino - 1) / 8192;
    match desc_read(s, g) {
        Err(e) => (s, Err(e)),
        Ok(d) => match read_block(s, u32_at(d, 4) as int) {
            None => (s, Err(FsErr::Io)),
            Some(imap) => {
                let im = without_bit(imap, (ino - 1) % 8192);
                let (s1, ok) = write_block(s, u32_at(d, 4) as int, im);
                if !ok {
                    (s1, Err(FsErr::Io))
                } else {
                    match read_block(s1, u32_at(d, 0) as int) {
                        None => (s1, Err(FsErr::Io)),
                        Some(bmap) => {
                            let d1 = with_bitmap_csums(d, bmap, im);
                            let (s2, r2) = desc_write(
                                s1,
                                g,
                                set_split_count(
                                    d1,
                                    14,
                                    46,
                                    (split_count(d1, 14, 46) + 1) as u64,
                                ),
                            );
                            match r2 {
                                Err(e) => (s2, Err(e)),
                                Ok(()) => update_sb_free_inodes(s2, 1),
                            }
                        },
                    }
                }
            },
        },
    }
}

/// Changes the directory count of group `g` by `delta`, but not below zero.
#[verifier::opaque]
pub open spec fn bump_used_dirs(s: FsView, g: int, delta: int) -> (FsView, Result<(), FsErr>) {
    match desc_read(s, g) {
        Err(e) => (s, Err(e)),
        Ok(d) => {
            let next = split_count(d, 16, 48) + delta;
            desc_write(
                s,
                g,
                set_split_count(
                    d,
                    16,
                    48,
                    if next < 0 {
                        0
                    } else {
                        next as u64
                    },
                ),
            )
        },
    }
}

// ---------- directories ----------

/// A used entry of a directory.
#[verifier::ext_equal]
pub struct Entry {
    pub ino: u32,
    pub ftype: u8,
    pub name: Seq<u8>,
}

/// The used entries of a directory block from offset `o` on, and whether the
/// run of entries ends in one whose name leaves the block.
pub open spec fn block_entries(b: Seq<u8>, o: int) -> (Seq<Entry>, bool)
    decreases 4096 - o,
{
    let rec = u16_at(b, o + 4) as int;
    if o + 8 > 4096 || rec == 0 || o + rec > 4096 {
        (Seq::empty(), false)
    } else if u32_at(b, o) == 0 {
        block_entries(b, o + rec)
    } else {
        let nl = b[o + 6] as int;
        if o + 8 + nl > 4096 {
            (Seq::empty(), true)
        } else {
            let e = Entry {
                ino: u32_at(b, o),
                ftype: b[o + 7],
                name: b.subrange(o + 8, o + 8 + nl),
            };
            let (rest, bad) = block_entries(b, o + rec);
            (seq![e] + rest, bad)
        }
    }
}

/// The logical block number of a file offset.
pub open spec fn logical_of(off: int) -> u32 {
    (off / 4096 % 0x1_0000_0000) as u32
}

/// The block of a file that holds the offset `off`.
pub open spec fn file_block(s: FsView, ib: Seq<u8>, off: int) -> Option<(u32, Seq<u8>)> {
    match extent_map(s, ib, logical_of(off)) {
        None => None,
        Some(p) => match read_block(s, p as int) {
            None => None,
            Some(b) => Some((p, b)),
        },
    }
}

/// The used entries of the directory blocks from offset `off` on, and the
/// error that the walk ends in, if it does.
pub open spec fn entries_from(
    s: FsView,
    ib: Seq<u8>,
    off: int,
    size: int,
) -> (Seq<Entry>, Option<FsErr>)
    decreases size + 4096 - off,
{
    if off >= size {
        (Seq::empty(), None)
    } else {
        match file_block(s, ib, off) {
            None => (Seq::empty(), Some(FsErr::Io)),
            Some((p, b)) => {
                let (es, bad) = block_entries(b, 0);
                if bad {
                    (es, Some(FsErr::Io))
                } else {
                    let (rest, err) = entries_from(s, ib, off + 4096, size);
                    (es + rest, err)
                }
            },
        }
    }
}

/// The used entries of directory `dir`, and the error that the walk ends in.
#[verifier::opaque]
pub open spec fn dir_entries(s: FsView, dir: u32) -> (Seq<Entry>, Option<FsErr>) {
    match inode_load(s, dir) {
        Err(e) => (Seq::empty(), Some(e)),
        Ok(raw) => if !is_dir_mode(raw) {
            (Seq::empty(), Some(FsErr::NotDir))
        } else {
            entries_from(s, ino_extents(raw), 0, ino_size(raw) as int)
        },
    }
}

/// The first of the entries that has the name.
pub open spec fn entry_named(es: Seq<Entry>, name: Seq<u8>) -> Option<Entry>
    decreases es.len(),
{
    if es.len() == 0 {
        None
    } else if es[0].name == name {
        Some(es[0])
    } else {
        entry_named(es.skip(1), name)
    }
}

/// The inode and the type of the entry `name` of directory `dir`.
#[verifier::opaque]
pub open spec fn lookup_dir(s: FsView, dir: u32, name: Seq<u8>) -> Result<(u32, u8), FsErr> {
    let (es, err) = dir_entries(s, dir);
    match entry_named(es, name) {
        Some(e) => Ok((e.ino, e.ftype)),
        None => match err {
            Some(x) => Err(x),
            None => Err(FsErr::NotFound),
        },
    }
}

/// A character that may stand in a name.
pub open spec fn name_char(c: char) -> bool {
    0x20 <= c as u32 && (c as u32) < 0x80 && c != '/'
}

/// The bytes of a name: 1 to 255 printable ASCII characters, none a slash.
pub open spec fn name_bytes(comp: Seq<char>) -> Result<Seq<u8>, FsErr> {
    if comp.len() == 0 || comp.len() > 255 || exists|i: int|
        0 <= i < comp.len() && !name_char(#[trigger] comp[i]) {
        Err(FsErr::BadName)
    } else {
        Ok(Seq::new(comp.len(), |i: int| comp[i] as u8))
    }
}

/// Follows directory names from directory `dir`.
pub open spec fn follow(s: FsView, dir: u32, names: Seq<Seq<char>>) -> Result<u32, FsErr>
    decreases names.len(),
{
    if names.len() == 0 {
        Ok(dir)
    } else {
        match name_bytes(names[0]) {
            Err(e) => Err(e),
            Ok(n) => match lookup_dir(s, dir, n) {
                Err(e) => Err(e),
                Ok((i, ft)) => if ft != 2 {
                    Err(FsErr::NotDir)
                } else {
                    follow(s, i, names.skip(1))
                },
            },
        }
    }
}

/// Follows the names of a current directory from directory `dir`.
pub open spec fn follow_parts(s: FsView, dir: u32, parts: Seq<Seq<u8>>) -> Result<u32, FsErr>
    decreases parts.len(),
{
    if parts.len() == 0 {
        Ok(dir)
    } else {
        match lookup_dir(s, dir, parts[0]) {
            Err(e) => Err(e),
            Ok((i, ft)) => if ft != 2 {
                Err(FsErr::NotDir)
            } else {
                follow_parts(s, i, parts.skip(1))
            },
        }
    }
}

/// The directory that a path names, from the root or the current directory.
#[verifier::opaque]
pub open spec fn resolve_from_cwd(s: FsView, path: Seq<char>) -> Result<u32, FsErr> {
    if path.len() > 0 && path[0] == '/' {
        follow(s, 2, components(path))
    } else {
        match follow_parts(s, 2, s.cwd) {
            Err(e) => Err(e),
            Ok(d) => follow(s, d, components(path)),
        }
    }
}

pub open spec fn check_dir(s: FsView, parts: Seq<Seq<u8>>) -> Result<(), FsErr> {
    match follow_parts(s, 2, parts) {
        Err(e) => Err(e),
        Ok(d) => Ok(()),
    }
}

/// The directory and the name that a path stands for.
#[verifier::opaque]
pub open spec fn target(s: FsView, path: Seq<char>) -> Result<(u32, Seq<u8>), FsErr> {
    let (parent, leaf) = parent_and_leaf(path);
    match resolve_from_cwd(s, parent) {
        Err(e) => Err(e),
        Ok(p) => match name_bytes(leaf) {
            Err(e) => Err(e),
            Ok(n) => Ok((p, n)),
        },
    }
}

pub open spec fn align4(v: int) -> int {
    (v + 3) / 4 * 4
}

/// The first slot of a directory block, from offset `o` on, that has room for
/// `need` bytes: its offset and its size.
pub open spec fn slot_in_block(b: Seq<u8>, o: int, need: int) -> Option<(int, int)>
    decreases 4096 - o,
{
    let ino = u32_at(b, o);
    let rec = u16_at(b, o + 4) as int;
    if o + 8 > 4096 {
        None
    } else if ino == 0 && rec == 0 {
        if 4096 - o >= need {
            Some((o, 4096 - o))
        } else {
            None
        }
    } else if rec == 0 || o + rec > 4096 {
        None
    } else if ino == 0 && rec >= need {
        Some((o, rec))
    } else {
        slot_in_block(b, o + rec, need)
    }
}

/// The first slot of a directory, from file offset `off` on: the block, the
/// offset in it, and the size.
pub open spec fn slot_from(
    s: FsView,
    ib: Seq<u8>,
    off: int,
    size: int,
    need: int,
) -> Result<(u32, int, int), FsErr>
    decreases size + 4096 - off,
{
    if off >= size {
        Err(FsErr::NoSpace)
    } else {
        match file_block(s, ib, off) {
            None => Err(FsErr::Io),
            Some((p, b)) => match slot_in_block(b, 0, need) {
                Some((o, n)) => Ok((p, o, n)),
                None => slot_from(s, ib, off + 4096, size, need),
            },
        }
    }
}

#[verifier::opaque]
pub open spec fn dir_find_slot(s: FsView, dir: u32, need: int) -> Result<(u32, int, int), FsErr> {
    match inode_load(s, dir) {
        Err(e) => Err(e),
        Ok(raw) => slot_from(s, ino_extents(raw), 0, ino_size(raw) as int, need),
    }
}

/// `raw` with its size set.
pub open spec fn with_size(raw: Seq<u8>, size: int) -> Seq<u8> {
    put32(
        put32(raw, 4, (size % 0x1_0000_0000) as u32),
        108,
        (size / 0x1_0000_0000 % 0x1_0000_0000) as u32,
    )
}

/// Adds a zeroed block at the end of a directory.
#[verifier::opaque]
pub open spec fn dir_grow(s: FsView, dir: u32) -> (FsView, Result<(), FsErr>) {
    match inode_load(s, dir) {
        Err(e) => (s, Err(e)),
        Ok(raw) => {
            let (s1, r1) = alloc_block(s);
            match r1 {
                Err(e) => (s1, Err(e)),
                Ok(blk) => {
                    let (s2, ok) = write_block(s1, blk as int, zero_bytes(4096));
                    if !ok {
                        (s2, Err(FsErr::Io))
                    } else {
                        match extent_append(raw, blk) {
                            Err(e) => (s2, Err(e)),
                            Ok(raw2) => inode_save(
                                s2,
                                dir,
                                put32(
                                    with_size(raw2, ino_size(raw2) + 4096),
                                    28,
                                    ((u32_at(raw2, 28) + 8) % 0x1_0000_0000) as u32,
                                ),
                            ),
                        }
                    }
                },
            }
        },
    }
}

/// `b` with a directory entry at offset `o`.
pub open spec fn put_entry(
    b: Seq<u8>,
    o: int,
    ino: u32,
    name: Seq<u8>,
    ftype: u8,
    rec: int,
) -> Seq<u8> {
    splice(
        put16(put32(b, o, ino), o + 4, rec as u16).update(o + 6, name.len() as u8).update(
            o + 7,
            ftype,
        ),
        o + 8,
        name,
    )
}

/// A slot with room for `need` bytes; the directory grows where it has none.
#[verifier::opaque]
pub open spec fn make_slot(s: FsView, dir: u32, need: int) -> (FsView, Result<
    (u32, int, int),
    FsErr,
>) {
    match dir_find_slot(s, dir, need) {
        Ok(x) => (s, Ok(x)),
        Err(e) => if e != FsErr::NoSpace {
            (s, Err(e))
        } else {
            let (s1, r1) = dir_grow(s, dir);
            match r1 {
                Err(x) => (s1, Err(x)),
                Ok(()) => (s1, dir_find_slot(s1, dir, need)),
            }
        },
    }
}

/// `b` with an entry put into the slot of `avail` bytes at `off`; what the
/// entry leaves over becomes an unused entry where it can hold one.
pub open spec fn fill_slot(
    b: Seq<u8>,
    off: int,
    avail: int,
    need: int,
    child: u32,
    name: Seq<u8>,
    ftype: u8,
) -> Seq<u8> {
    if avail - need >= 8 {
        put_entry(
            put_entry(b, off, child, name, ftype, need),
            off + need,
            0,
            Seq::empty(),
            0,
            avail - need,
        )
    } else {
        put_entry(b, off, child, name, ftype, avail)
    }
}

#[verifier::opaque]
pub open spec fn dir_add(s: FsView, dir: u32, name: Seq<u8>, child: u32, ftype: u8) -> (
    FsView,
    Result<(), FsErr>,
) {
    let need = align4(8 + name.len() as int);
    let (s1, r1) = make_slot(s, dir, need);
    match r1 {
        Err(e) => (s1, Err(e)),
        Ok((phys, off, avail)) => match read_block(s1, phys as int) {
            None => (s1, Err(FsErr::Io)),
            Some(b) => {
                let (s2, ok) = write_block(
                    s1,
                    phys as int,
                    fill_slot(b, off, avail, need, child, name, ftype),
                );
                if ok {
                    (s2, Ok(()))
                } else {
                    (s2, Err(FsErr::Io))
                }
            },
        },
    }
}

/// The offset of the first used entry with the name, from offset `o` on.
pub open spec fn entry_off(b: Seq<u8>, o: int, name: Seq<u8>) -> Option<int>
    decreases 4096 - o,
{
    let rec = u16_at(b, o + 4) as int;
    if o + 8 > 4096 || rec == 0 || o + rec > 4096 {
        None
    } else if u32_at(b, o) != 0 && b[o + 6] == name.len() && o + 8 + name.len() <= 4096
        && b.subrange(o + 8, o + 8 + name.len()) == name {
        Some(o)
    } else {
        entry_off(b, o + rec, name)
    }
}

pub open spec fn del_from(s: FsView, ib: Seq<u8>, off: int, size: int, name: Seq<u8>) -> (
    FsView,
    Result<(), FsErr>,
)
    decreases size + 4096 - off,
{
    if off >= size {
        (s, Err(FsErr::NotFound))
    } else {
        match file_block(s, ib, off) {
            None => (s, Err(FsErr::Io)),
            Some((p, b)) => match entry_off(b, 0, name) {
                Some(o) => {
                    let (s1, ok) = write_block(s, p as int, splice(b, o, zero_bytes(4)));
                    if ok {
                        (s1, Ok(()))
                    } else {
                        (s1, Err(FsErr::Io))
                    }
                },
                None => del_from(s, ib, off + 4096, size, name),
            },
        }
    }
}

/// Marks the first entry with the name unused.
#[verifier::opaque]
pub open spec fn dir_del(s: FsView, dir: u32, name: Seq<u8>) -> (FsView, Result<(), FsErr>) {
    match inode_load(s, dir) {
        Err(e) => (s, Err(e)),
        Ok(raw) => del_from(s, ino_extents(raw), 0, ino_size(raw) as int, name),
    }
}

// ---------- file data ----------

pub open spec fn min_int(a: int, b: int) -> int {
    if a <= b {
        a
    } else {
        b
    }
}

/// The bytes `at .. want` of a file, up to the first block that cannot be
/// read, and whether there is such a block.
pub open spec fn data_from(s: FsView, ib: Seq<u8>, at: int, want: int) -> (Seq<u8>, bool)
    decreases want - at,
{
    if at >= want {
        (Seq::empty(), false)
    } else {
        match file_block(s, ib, at) {
            None => (Seq::empty(), true),
            Some((p, b)) => {
                let n = min_int(want - at, 4096);
                let (rest, bad) = data_from(s, ib, at + n, want);
                (b.subrange(0, n) + rest, bad)
            },
        }
    }
}

/// The data of file `ino` that fits `room` bytes: what was read, and the error
/// if it could not be read whole.
#[verifier::opaque]
pub open spec fn file_data(s: FsView, ino: u32, room: int) -> (Seq<u8>, Option<FsErr>) {
    match inode_load(s, ino) {
        Err(e) => (Seq::empty(), Some(e)),
        Ok(raw) => if !is_reg_mode(raw) {
            (Seq::empty(), Some(FsErr::IsDir))
        } else {
            let (d, bad) = data_from(s, ino_extents(raw), 0, min_int(ino_size(raw) as int, room));
            (
                d,
                if bad {
                    Some(FsErr::Io)
                } else {
                    None
                },
            )
        },
    }
}

// ---------- commands ----------

/// The inode of the regular file that a path names.
pub open spec fn find_file(s: FsView, path: Seq<char>) -> Result<u32, FsErr> {
    match target(s, path) {
        Err(e) => Err(e),
        Ok((p, n)) => match lookup_dir(s, p, n) {
            Err(e) => Err(e),
            Ok((ino, ft)) => if ft != 1 {
                Err(FsErr::IsDir)
            } else {
                Ok(ino)
            },
        },
    }
}

/// The data of the file that a path names.
pub open spec fn read_file(s: FsView, path: Seq<char>, room: int) -> (Seq<u8>, Option<FsErr>) {
    match find_file(s, path) {
        Err(e) => (Seq::empty(), Some(e)),
        Ok(ino) => file_data(s, ino, room),
    }
}

#[verifier::opaque]
pub open spec fn touch(s: FsView, path: Seq<char>) -> (FsView, Result<(), FsErr>) {
    match target(s, path) {
        Err(e) => (s, Err(e)),
        Ok((p, n)) => if lookup_dir(s, p, n) is Ok {
            (s, Ok(()))
        } else {
            let (s1, r1) = alloc_inode(s);
            match r1 {
                Err(e) => (s1, Err(e)),
                Ok(ino) => {
                    let (s2, r2) = inode_save(s1, ino, new_inode(0x81A4, 1));
                    match r2 {
                        Err(e) => (s2, Err(e)),
                        Ok(()) => dir_add(s2, p, n, ino, 1),
                    }
                },
            }
        },
    }
}

/// The first block of a fresh directory: the entries `.` and `..`.
pub open spec fn dot_block(ino: u32, parent: u32) -> Seq<u8> {
    put_entry(
        put_entry(zero_bytes(4096), 0, ino, seq![46u8], 2, 12),
        12,
        parent,
        seq![46u8, 46u8],
        2,
        4084,
    )
}

/// The inode of a directory of one block.
pub open spec fn dir_inode(links: u16, blk: u32) -> Seq<u8> {
    splice(put32(put32(new_inode(0x41ED, links), 4, 4096), 28, 8), 40, one_extent(1, blk))
}

/// Writes the first block and the inode of a fresh directory.
#[verifier::opaque]
pub open spec fn write_new_dir(s: FsView, ino: u32, blk: u32, parent: u32) -> (
    FsView,
    Result<(), FsErr>,
) {
    let (s1, ok) = write_block(s, blk as int, dot_block(ino, parent));
    if !ok {
        (s1, Err(FsErr::Io))
    } else {
        inode_save(s1, ino, dir_inode(2, blk))
    }
}

/// Changes the link count of inode `ino`: up by one, or down by one but not
/// below zero.
#[verifier::opaque]
pub open spec fn bump_links(s: FsView, ino: u32, up: bool) -> (FsView, Result<(), FsErr>) {
    match inode_load(s, ino) {
        Err(e) => (s, Err(e)),
        Ok(raw) => {
            let l = u16_at(raw, 26);
            let l2 = if up {
                ((l + 1) % 0x1_0000) as u16
            } else if l == 0 {
                0
            } else {
                (l - 1) as u16
            };
            inode_save(s, ino, put16(raw, 26, l2))
        },
    }
}

#[verifier::opaque]
pub open spec fn mkdir(s: FsView, path: Seq<char>) -> (FsView, Result<(), FsErr>) {
    match target(s, path) {
        Err(e) => (s, Err(e)),
        Ok((p, n)) => if lookup_dir(s, p, n) is Ok {
            (s, Err(FsErr::Exists))
        } else {
            let (s1, r1) = alloc_inode(s);
            match r1 {
                Err(e) => (s1, Err(e)),
                Ok(nino) => {
                    let (s2, r2) = alloc_block(s1);
                    match r2 {
                        Err(e) => (s2, Err(e)),
                        Ok(dblk) => {
                            let (s3, r3) = write_new_dir(s2, nino, dblk, p);
                            match r3 {
                                Err(e) => (s3, Err(e)),
                                Ok(()) => {
                                    let (s4, r4) = dir_add(s3, p, n, nino, 2);
                                    match r4 {
                                        Err(e) => (s4, Err(e)),
                                        Ok(()) => {
                                            let (s5, r5) = bump_links(s4, p, true);
                                            match r5 {
                                                Err(e) => (s5, Err(e)),
                                                Ok(()) => bump_used_dirs(
                                                    s5,
                                                    (nino - 1) / 8192,
                                                    1,
                                                ),
                                            }
                                        },
                                    }
                                },
                            }
                        },
                    }
                },
            }
        },
    }
}

/// `raw` as an empty regular file with one link.
pub open spec fn emptied(raw: Seq<u8>) -> Seq<u8> {
    put16(
        splice(
            put32(put32(put32(put16(raw, 0, 0x81A4), 4, 0), 108, 0), 28, 0),
            40,
            zero_bytes(60),
        ),
        26,
        1,
    )
}

/// The block that holds the data from offset `at` on, padded with zeros.
pub open spec fn data_block(data: Seq<u8>, at: int) -> Seq<u8> {
    let n = min_int(data.len() - at, 4096);
    splice(zero_bytes(4096), 0, data.subrange(at, at + n))
}

/// Writes the data from offset `at` on to fresh blocks and appends them to
/// the extents of `raw`.
pub open spec fn append_data(s: FsView, raw: Seq<u8>, data: Seq<u8>, at: int) -> (
    FsView,
    Seq<u8>,
    Result<(), FsErr>,
)
    decreases data.len() + 4096 - at,
{
    if at >= data.len() {
        (s, raw, Ok(()))
    } else {
        let (s1, r1) = alloc_block(s);
        match r1 {
            Err(e) => (s1, raw, Err(e)),
            Ok(blk) => {
                let (s2, ok) = write_block(s1, blk as int, data_block(data, at));
                if !ok {
                    (s2, raw, Err(FsErr::Io))
                } else {
                    match extent_append(raw, blk) {
                        Err(e) => (s2, raw, Err(e)),
                        Ok(raw2) => append_data(s2, raw2, data, at + 4096),
                    }
                }
            },
        }
    }
}

/// The inode of a file whose data were appended to the extents of `raw`.
pub open spec fn filled(raw: Seq<u8>, len: int) -> Seq<u8> {
    put16(
        put32(
            put32(raw, 4, (len % 0x1_0000_0000) as u32),
            28,
            ((len + 4095) / 4096 * 8 % 0x1_0000_0000) as u32,
        ),
        26,
        1,
    )
}

/// The inode of a file after a write that failed part of the way.
pub open spec fn abandoned(raw: Seq<u8>) -> Seq<u8> {
    put32(put32(splice(raw, 40, zero_bytes(60)), 108, 0), 28, 0)
}

/// Replaces the contents of file `ino`, whose inode is `raw0` and whose old
/// blocks are free, by `data`.
#[verifier::opaque]
pub open spec fn fill_file(s: FsView, ino: u32, raw0: Seq<u8>, data: Seq<u8>) -> (
    FsView,
    Result<(), FsErr>,
) {
    let raw = emptied(raw0);
    let (s1, r1) = inode_save(s, ino, raw);
    if data.len() == 0 || r1 is Err {
        (s1, r1)
    } else {
        let (s2, raw2, r2) = append_data(s1, raw, data, 0);
        match r2 {
            Ok(()) => inode_save(s2, ino, filled(raw2, data.len() as int)),
            Err(e) => {
                let (s3, r3) = free_extents(s2, raw2);
                match r3 {
                    Err(x) => (s3, Err(x)),
                    Ok(()) => {
                        let (s4, r4) = inode_save(s3, ino, abandoned(raw2));
                        match r4 {
                            Err(x) => (s4, Err(x)),
                            Ok(()) => (s4, Err(e)),
                        }
                    },
                }
            },
        }
    }
}

#[verifier::opaque]
pub open spec fn write_file(s: FsView, path: Seq<char>, data: Seq<u8>) -> (
    FsView,
    Result<(), FsErr>,
) {
    match target(s, path) {
        Err(e) => (s, Err(e)),
        Ok((p, n)) => match lookup_dir(s, p, n) {
            Ok((ino, ft)) => if ft != 1 {
                (s, Err(FsErr::IsDir))
            } else {
                match inode_load(s, ino) {
                    Err(e) => (s, Err(e)),
                    Ok(raw) => {
                        let (s1, r1) = free_extents(s, raw);
                        match r1 {
                            Err(e) => (s1, Err(e)),
                            Ok(()) => fill_file(s1, ino, raw, data),
                        }
                    },
                }
            },
            Err(_) => {
                let (s1, r1) = alloc_inode(s);
                match r1 {
                    Err(e) => (s1, Err(e)),
                    Ok(ino) => {
                        let (s2, r2) = dir_add(s1, p, n, ino, 1);
                        match r2 {
                            Err(e) => (s2, Err(e)),
                            Ok(()) => fill_file(s2, ino, new_inode(0x81A4, 1), data),
                        }
                    },
                }
            },
        },
    }
}

/// Frees the blocks and the inode of `ino` and removes the entry `name`.
#[verifier::opaque]
pub open spec fn unlink(s: FsView, dir: u32, name: Seq<u8>, ino: u32) -> (
    FsView,
    Result<(), FsErr>,
) {
    match inode_load(s, ino) {
        Err(e) => (s, Err(e)),
        Ok(raw) => {
            let (s1, r1) = free_extents(s, raw);
            match r1 {
                Err(e) => (s1, Err(e)),
                Ok(()) => {
                    let (s2, r2) = free_inode(s1, ino);
                    match r2 {
                        Err(e) => (s2, Err(e)),
                        Ok(()) => dir_del(s2, dir, name),
                    }
                },
            }
        },
    }
}

#[verifier::opaque]
pub open spec fn rm(s: FsView, path: Seq<char>) -> (FsView, Result<(), FsErr>) {
    match target(s, path) {
        Err(e) => (s, Err(e)),
        Ok((p, n)) => match lookup_dir(s, p, n) {
            Err(e) => (s, Err(e)),
            Ok((ino, ft)) => if ft != 1 {
                (s, Err(FsErr::IsDir))
            } else {
                unlink(s, p, n, ino)
            },
        },
    }
}

/// The name is `.` or `..`.
pub open spec fn is_dot_name(name: Seq<u8>) -> bool {
    name == seq![46u8] || name == seq![46u8, 46u8]
}

/// Some entry has a name other than `.` and `..`.
pub open spec fn has_other_names(es: Seq<Entry>) -> bool {
    exists|i: int| 0 <= i < es.len() && !is_dot_name(#[trigger] es[i].name)
}

#[verifier::opaque]
pub open spec fn rmdir(s: FsView, path: Seq<char>) -> (FsView, Result<(), FsErr>) {
    match target(s, path) {
        Err(e) => (s, Err(e)),
        Ok((p, n)) => match lookup_dir(s, p, n) {
            Err(e) => (s, Err(e)),
            Ok((ino, ft)) => if ft != 2 {
                (s, Err(FsErr::NotDir))
            } else {
                let (es, err) = dir_entries(s, ino);
                if has_other_names(es) {
                    (s, Err(FsErr::NotEmpty))
                } else {
                    match err {
                        Some(e) => (s, Err(e)),
                        None => {
                            let (s1, r1) = unlink(s, p, n, ino);
                            match r1 {
                                Err(e) => (s1, Err(e)),
                                Ok(()) => {
                                    let (s2, r2) = bump_links(s1, p, false);
                                    match r2 {
                                        Err(e) => (s2, Err(e)),
                                        Ok(()) => bump_used_dirs(s2, (ino - 1) / 8192, -1),
                                    }
                                },
                            }
                        },
                    }
                }
            },
        },
    }
}

#[verifier::opaque]
pub open spec fn mv(s: FsView, old_path: Seq<char>, new_path: Seq<char>) -> (
    FsView,
    Result<(), FsErr>,
) {
    match target(s, old_path) {
        Err(e) => (s, Err(e)),
        Ok((op, on)) => match lookup_dir(s, op, on) {
            Err(e) => (s, Err(e)),
            Ok((ino, ft)) => match target(s, new_path) {
                Err(e) => (s, Err(e)),
                Ok((np, nn)) => if lookup_dir(s, np, nn) is Ok {
                    (s, Err(FsErr::Exists))
                } else {
                    let (s1, r1) = dir_add(s, np, nn, ino, ft);
                    match r1 {
                        Err(e) => (s1, Err(e)),
                        Ok(()) => dir_del(s1, op, on),
                    }
                },
            },
        },
    }
}

/// What `ls` shows of an entry: the first 64 characters of the name, the
/// type, and the size that the inode holds, or 0 where it cannot be read.
pub open spec fn listing_of(s: FsView, e: Entry) -> ListingView {
    ListingView {
        name: Seq::new(min_int(e.name.len() as int, 64) as nat, |i: int| shown(e.name[i])),
        is_dir: e.ftype == 2,
        size: match inode_load(s, e.ino) {
            Ok(raw) => Some(ino_size(raw)),
            Err(_) => Some(0),
        },
    }
}

/// The lines of a directory listing, and how the listing ends.
pub open spec fn ls(s: FsView, path: Seq<char>) -> (Seq<ListingView>, Result<(), FsErr>) {
    match resolve_from_cwd(s, path) {
        Err(e) => (Seq::empty(), Err(e)),
        Ok(d) => {
            let (es, err) = dir_entries(s, d);
            (
                Seq::new(es.len(), |i: int| listing_of(s, es[i])),
                match err {
                    Some(e) => Err(e),
                    None => Ok(()),
                },
            )
        },
    }
}

/// What `cat` shows, the first 8192 bytes of a file, and how it ends.
pub open spec fn cat(s: FsView, path: Seq<char>) -> (Seq<char>, Result<(), FsErr>) {
    match read_file(s, path, 8192) {
        (d, None) => (Seq::new(d.len(), |i: int| shown(d[i])), Ok(())),
        (_, Some(e)) => (Seq::empty(), Err(e)),
    }
}

// ---------- mount ----------

/// The journal as its superblock describes it, with nothing pending.
pub open spec fn journal_at(base: u32, sb: Seq<u8>) -> JbdView {
    let start = u32_at(sb, 12);
    JbdView {
        base,
        start: if start == 0 || start + 2 > 1023 {
            1
        } else {
            start
        },
        seq: u32_at(sb, 8),
        pend: Seq::empty(),
    }
}

/// Finds the journal, applies its committed transactions and arms it; a
/// volume without one is written to directly.
#[verifier::opaque]
pub open spec fn jbd_init(s: FsView) -> (FsView, Result<(), FsErr>) {
    match inode_load(s, 8) {
        Err(e) => (s, Err(e)),
        Ok(raw) => match extent_map(s, ino_extents(raw), 0) {
            None => (FsView { jbd: None, ..s }, Ok(())),
            Some(base) => match rb_raw(s, base as int) {
                None => (s, Err(FsErr::Io)),
                Some(sb) => if u32_at(sb, 0) != 0xC03B_3998 {
                    (FsView { jbd: None, ..s }, Ok(()))
                } else {
                    let j = journal_at(base, sb);
                    let (s1, j1, r) = replay(s, j);
                    match r {
                        Err(e) => (s1, Err(e)),
                        Ok(()) => (FsView { jbd: Some(j1), ..s1 }, Ok(())),
                    }
                },
            },
        },
    }
}

/// What a superblock says of the volume, if the driver can work with it.
pub open spec fn super_info(sb: Seq<u8>) -> Result<Ext4Info, FsErr> {
    let total = u32_at(sb, 4) + 0x1_0000_0000 * u32_at(sb, 332);
    let bpg = u32_at(sb, 32);
    let has_csum = u32_at(sb, 96) & 0x400 != 0;
    if u16_at(sb, 56) != 0xEF53 {
        Err(FsErr::NotFormatted)
    } else if u32_at(sb, 96) & 0xFFFF_FB3D != 0 || u32_at(sb, 100) & 0xFFFF_FDEF != 0 {
        Err(FsErr::Unsupported)
    } else if has_csum && u32_at(sb, 628) != crc_of(0xFFFF_FFFF, splice(sb, 628, zero_bytes(4))) {
        Err(FsErr::Io)
    } else if u32_at(sb, 24) != 2 || bpg == 0 || bpg > 32768 {
        Err(FsErr::Unsupported)
    } else {
        let groups = (total + bpg - 1) / (bpg as int) % 0x1_0000_0000;
        if groups == 0 || groups > 1024 {
            Err(FsErr::Unsupported)
        } else {
            Ok(
                Ext4Info {
                    groups: groups as u32,
                    total_blocks: (total % 0x1_0000_0000) as u32,
                    has_csum,
                },
            )
        }
    }
}

#[verifier::opaque]
pub open spec fn mount_at(s: FsView, base: u32) -> (FsView, Result<(), FsErr>) {
    let s1 = FsView { base, ..s };
    match read_block(s1, 0) {
        None => (s1, Err(FsErr::Io)),
        Some(b) => match super_info(b.subrange(1024, 2048)) {
            Err(e) => (s1, Err(e)),
            Ok(i) => {
                let (s2, r2) = jbd_init(FsView { ext: Some(i), ..s1 });
                match r2 {
                    Err(e) => (s2, Err(e)),
                    Ok(()) => (FsView { mount: Some(FsKind::Ext4), ..s2 }, Ok(())),
                }
            },
        },
    }
}

} // verus!
