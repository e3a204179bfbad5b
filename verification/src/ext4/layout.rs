//! What a fresh ext4 volume holds, and the order in which it is written.
//!
//! Every group of 32768 blocks starts with a copy of the superblock, the
//! descriptor table, the two bitmaps and the inode table.

use vstd::prelude::*;
use crate::bytes::{put16, put32, splice, zero_bytes};
use crate::ext4::model;
use crate::fs::{Ext4Info, FsErr, FsView};

verus! {

/// The number of groups of a volume.
pub open spec fn group_count(total: int) -> int {
    (total + 32767) / 32768
}

/// The number of blocks of the descriptor table.
pub open spec fn desc_blocks(groups: int) -> int {
    (groups * 64 + 4095) / 4096
}

/// The number of blocks of a group that are not for data: superblock,
/// descriptor table, two bitmaps, 512 blocks of inodes, and one spare.
pub open spec fn meta_blocks(groups: int) -> int {
    516 + desc_blocks(groups)
}

/// The byte of a bitmap whose bits start at `b`, where the bits below `lo` and
/// those from `hi` on are set.
pub open spec fn edge_byte(b: int, lo: int, hi: int, k: int) -> int
    decreases k,
{
    if k <= 0 {
        0
    } else {
        edge_byte(b, lo, hi, k - 1) + (if b + k - 1 < lo || b + k - 1 >= hi {
            model::bit_mask(k - 1) as int
        } else {
            0
        })
    }
}

/// A bitmap block whose bits below `lo` and from `hi` on are set.
pub open spec fn edge_bitmap(lo: int, hi: int) -> Seq<u8> {
    Seq::new(4096, |i: int| edge_byte(8 * i, lo, hi, 8) as u8)
}

/// The block bitmap of group `g`: the metadata and what lies beyond the end
/// of the volume are used.
pub open spec fn fresh_bmap(i: Ext4Info, g: int) -> Seq<u8> {
    edge_bitmap(meta_blocks(i.groups as int), model::group_blocks(i, g))
}

/// The inode bitmap of group `g`: the first ten inodes are reserved.
pub open spec fn fresh_imap(g: int) -> Seq<u8> {
    edge_bitmap(
        if g == 0 {
            10
        } else {
            0
        },
        32768,
    )
}

/// The descriptor of group `g` without its checksum.
pub open spec fn bare_desc(i: Ext4Info, g: int) -> Seq<u8> {
    let db = desc_blocks(i.groups as int);
    let start = g * 32768;
    let n = model::group_blocks(i, g);
    let meta = meta_blocks(i.groups as int);
    let free = if n < meta {
        0
    } else {
        n - meta
    };
    let d1 = put32(
        put32(put32(zero_bytes(64), 0, (start + 1 + db) as u32), 4, (start + 2 + db) as u32),
        8,
        (start + 3 + db) as u32,
    );
    let d2 = model::set_split_count(
        model::set_split_count(d1, 12, 44, free as u64),
        14,
        46,
        if g == 0 {
            8182
        } else {
            8192
        },
    );
    put16(
        put16(d2, 24, model::bitmap_csum(fresh_bmap(i, g))),
        26,
        model::bitmap_csum(fresh_imap(g)),
    )
}

pub open spec fn fresh_desc(i: Ext4Info, g: int) -> Seq<u8> {
    put16(bare_desc(i, g), 30, model::desc_csum(g, bare_desc(i, g)))
}

/// Block `t` of the descriptor table, filled for the groups below `n`.
pub open spec fn table_block(i: Ext4Info, t: int, n: int) -> Seq<u8> {
    Seq::new(
        4096,
        |k: int|
            if t * 64 + k / 64 < n {
                fresh_desc(i, t * 64 + k / 64)[k % 64]
            } else {
                0u8
            },
    )
}

pub open spec fn volume_name() -> Seq<u8> {
    seq![83u8, 79, 76, 65, 82, 79, 83, 32, 32, 32, 32, 32, 32, 32, 32, 32]
}

/// The superblock without its checksum.
pub open spec fn fresh_super(i: Ext4Info) -> Seq<u8> {
    let a = put32(
        put32(
            put32(
                put32(zero_bytes(1024), 0, (i.groups * 8192) as u32),
                4,
                i.total_blocks,
            ),
            12,
            (i.total_blocks - meta_blocks(i.groups as int) * i.groups) as u32,
        ),
        16,
        (i.groups * 8192 - 10) as u32,
    );
    let b = put32(put32(put32(put32(put32(a, 24, 2), 28, 2), 32, 32768), 36, 32768), 40, 8192);
    let c = put32(put16(put16(put16(b, 54, 0xFFFF), 56, 0xEF53), 58, 1), 76, 1);
    let d = put32(put32(put16(put32(c, 84, 11), 88, 256), 96, 0x4C2), 100, 0x210);
    let e = put32(splice(splice(d, 104, model::uuid()), 120, volume_name()), 280, 8);
    put16(put16(put32(put16(e.update(308, 1), 310, 64), 324, 1024), 344, 28), 346, 32).update(
        370,
        1,
    )
}

/// The first block of the journal area.
pub open spec fn journal_super() -> Seq<u8> {
    put32(
        put32(
            put32(
                put32(
                    put32(put32(put32(zero_bytes(4096), 0, 0xC03B_3998), 4, 1), 8, 1),
                    64,
                    4096,
                ),
                68,
                1024,
            ),
            72,
            1,
        ),
        76,
        1023,
    )
}

/// The inode of the journal, whose blocks start at `blk`.
pub open spec fn journal_inode(blk: u32) -> Seq<u8> {
    splice(
        put32(put32(model::new_inode(0x8180, 1), 4, 0x40_0000), 28, 8192),
        40,
        model::one_extent(1024, blk),
    )
}

/// The names of the directories that a fresh volume holds.
pub open spec fn seeds() -> Seq<Seq<u8>> {
    seq![
        seq![101u8, 116, 99],
        seq![114u8, 111, 111, 116],
        seq![104u8, 111, 109, 101],
        seq![117u8, 115, 114],
        seq![98u8, 111, 111, 116],
        seq![116u8, 109, 112],
    ]
}

/// The offset of the `k`-th entry of the root directory.
pub open spec fn seed_off(k: int) -> int
    decreases k,
{
    if k <= 0 {
        0
    } else {
        seed_off(k - 1) + model::align4(8 + seeds()[k - 1].len() as int)
    }
}

/// The block of the root directory with its first `k` entries; the last of
/// the six takes the rest of the block.
pub open spec fn root_block(inos: Seq<u32>, k: int) -> Seq<u8>
    decreases k,
{
    if k <= 0 {
        zero_bytes(4096)
    } else {
        let o = seed_off(k - 1);
        model::put_entry(
            root_block(inos, k - 1),
            o,
            inos[k - 1],
            seeds()[k - 1],
            2,
            if k == 6 {
                4096 - o
            } else {
                model::align4(8 + seeds()[k - 1].len() as int)
            },
        )
    }
}

// ---------- the steps ----------

/// Zeroes the blocks `from + k .. from + n`.
pub open spec fn zero_run(s: FsView, from: int, k: int, n: int) -> (FsView, bool)
    decreases n - k,
{
    if k >= n {
        (s, true)
    } else {
        let (s1, ok) = model::write_block(s, from + k, zero_bytes(4096));
        if ok {
            zero_run(s1, from, k + 1, n)
        } else {
            (s1, false)
        }
    }
}

/// Zeroes the metadata of the groups from `g` on.
pub open spec fn zero_groups(s: FsView, i: Ext4Info, g: int) -> (FsView, bool)
    decreases i.groups - g,
{
    if g >= i.groups {
        (s, true)
    } else {
        let (s1, ok) = zero_run(s, g * 32768, 0, meta_blocks(i.groups as int));
        if ok {
            zero_groups(s1, i, g + 1)
        } else {
            (s1, false)
        }
    }
}

/// Writes the bitmaps of the groups from `g` on.
pub open spec fn write_bitmaps(s: FsView, i: Ext4Info, g: int) -> (FsView, bool)
    decreases i.groups - g,
{
    if g >= i.groups {
        (s, true)
    } else {
        let at = g * 32768 + desc_blocks(i.groups as int);
        let (s1, ok1) = model::write_block(s, at + 1, fresh_bmap(i, g));
        if !ok1 {
            (s1, false)
        } else {
            let (s2, ok2) = model::write_block(s1, at + 2, fresh_imap(g));
            if !ok2 {
                (s2, false)
            } else {
                write_bitmaps(s2, i, g + 1)
            }
        }
    }
}

/// Writes the descriptor table from its block `t` on, behind block `at`.
pub open spec fn write_table(s: FsView, i: Ext4Info, at: int, t: int) -> (FsView, bool)
    decreases desc_blocks(i.groups as int) - t,
{
    if t >= desc_blocks(i.groups as int) {
        (s, true)
    } else {
        let (s1, ok) = model::write_block(s, at + 1 + t, table_block(i, t, i.groups as int));
        if ok {
            write_table(s1, i, at, t + 1)
        } else {
            (s1, false)
        }
    }
}

/// Writes the copies of the superblock and the descriptor table to the groups
/// from `g` on.
pub open spec fn write_backups(s: FsView, i: Ext4Info, g: int) -> (FsView, bool)
    decreases i.groups - g,
{
    if g >= i.groups {
        (s, true)
    } else {
        match model::read_block(s, 0) {
            None => (s, false),
            Some(b) => {
                let (s1, ok1) = model::write_block(s, g * 32768, b);
                if !ok1 {
                    (s1, false)
                } else {
                    let (s2, ok2) = write_table(s1, i, g * 32768, 0);
                    if !ok2 {
                        (s2, false)
                    } else {
                        write_backups(s2, i, g + 1)
                    }
                }
            },
        }
    }
}

/// Everything of a fresh volume up to the first allocation.
#[verifier::opaque]
pub open spec fn write_metadata(s: FsView, i: Ext4Info) -> (FsView, Result<(), FsErr>) {
    let (s1, ok1) = zero_groups(s, i, 0);
    if !ok1 {
        (s1, Err(FsErr::Io))
    } else {
        let (s2, ok2) = write_bitmaps(s1, i, 0);
        if !ok2 {
            (s2, Err(FsErr::Io))
        } else {
            let (s3, ok3) = write_table(s2, i, 0, 0);
            if !ok3 {
                (s3, Err(FsErr::Io))
            } else {
                let (s4, r4) = model::sb_write(FsView { ext: Some(i), ..s3 }, fresh_super(i));
                match r4 {
                    Err(e) => (s4, Err(e)),
                    Ok(()) => {
                        let (s5, ok5) = write_backups(s4, i, 1);
                        if ok5 {
                            (s5, Ok(()))
                        } else {
                            (s5, Err(FsErr::Io))
                        }
                    },
                }
            }
        }
    }
}

/// Takes `n` blocks.
pub open spec fn alloc_many(s: FsView, n: int) -> (FsView, Result<(), FsErr>)
    decreases n,
{
    if n <= 0 {
        (s, Ok(()))
    } else {
        let (s1, r1) = model::alloc_block(s);
        match r1 {
            Err(e) => (s1, Err(e)),
            Ok(_) => alloc_many(s1, n - 1),
        }
    }
}

/// Reserves the journal area and writes its first block and its inode.
#[verifier::opaque]
pub open spec fn make_journal(s: FsView) -> (FsView, Result<(), FsErr>) {
    let (s1, r1) = model::alloc_block(s);
    match r1 {
        Err(e) => (s1, Err(e)),
        Ok(blk) => {
            let (s2, ok) = model::write_block(s1, blk as int, journal_super());
            if !ok {
                (s2, Err(FsErr::Io))
            } else {
                let (s3, r3) = alloc_many(s2, 1023);
                match r3 {
                    Err(e) => (s3, Err(e)),
                    Ok(()) => model::inode_save(s3, 8, journal_inode(blk)),
                }
            }
        },
    }
}

/// Makes one empty directory below the root, without an entry for it.
#[verifier::opaque]
pub open spec fn make_seed(s: FsView) -> (FsView, Result<u32, FsErr>) {
    let (s1, r1) = model::alloc_inode(s);
    match r1 {
        Err(e) => (s1, Err(e)),
        Ok(ino) => {
            let (s2, r2) = model::alloc_block(s1);
            match r2 {
                Err(e) => (s2, Err(e)),
                Ok(blk) => {
                    let (s3, r3) = model::write_new_dir(s2, ino, blk, 2);
                    match r3 {
                        Err(e) => (s3, Err(e)),
                        Ok(()) => {
                            let (s4, r4) = model::bump_used_dirs(s3, 0, 1);
                            match r4 {
                                Err(e) => (s4, Err(e)),
                                Ok(()) => (s4, Ok(ino)),
                            }
                        },
                    }
                },
            }
        },
    }
}

/// Makes the directories that are still missing from the list of inodes.
pub open spec fn make_seeds(s: FsView, inos: Seq<u32>) -> (FsView, Result<Seq<u32>, FsErr>)
    decreases 6 - inos.len(),
{
    if inos.len() >= 6 {
        (s, Ok(inos))
    } else {
        let (s1, r1) = make_seed(s);
        match r1 {
            Err(e) => (s1, Err(e)),
            Ok(ino) => make_seeds(s1, inos.push(ino)),
        }
    }
}

/// Writes the root directory.
#[verifier::opaque]
pub open spec fn make_root(s: FsView, inos: Seq<u32>) -> (FsView, Result<(), FsErr>) {
    let (s1, r1) = model::alloc_block(s);
    match r1 {
        Err(e) => (s1, Err(e)),
        Ok(blk) => {
            let (s2, ok) = model::write_block(s1, blk as int, root_block(inos, 6));
            if !ok {
                (s2, Err(FsErr::Io))
            } else {
                let (s3, r3) = model::inode_save(s2, 2, model::dir_inode(8, blk));
                match r3 {
                    Err(e) => (s3, Err(e)),
                    Ok(()) => model::bump_used_dirs(s3, 0, 1),
                }
            }
        },
    }
}

/// The size and the features of a fresh volume on a disk of `sectors` sectors.
pub open spec fn fresh_info(sectors: u64) -> Result<Ext4Info, FsErr> {
    let total = sectors as int / 8 % 0x1_0000_0000;
    if total < 8192 {
        Err(FsErr::NoSpace)
    } else if group_count(total) > 1024 {
        Err(FsErr::Unsupported)
    } else {
        Ok(
            Ext4Info {
                groups: group_count(total) as u32,
                total_blocks: total as u32,
                has_csum: true,
            },
        )
    }
}

/// Writes a fresh volume and mounts it.
#[verifier::opaque]
pub open spec fn mkfs_at(s: FsView, base: u32) -> (FsView, Result<(), FsErr>) {
    let s0 = FsView { jbd: None, base, ..s };
    match s.dev {
        None => (s0, Err(FsErr::NoDevice)),
        Some(sectors) => match fresh_info(sectors) {
            Err(e) => (s0, Err(e)),
            Ok(i) => {
                let (s1, r1) = write_metadata(s0, i);
                match r1 {
                    Err(e) => (s1, Err(e)),
                    Ok(()) => {
                        let (s2, r2) = make_journal(s1);
                        match r2 {
                            Err(e) => (s2, Err(e)),
                            Ok(()) => {
                                let (s3, r3) = make_seeds(s2, Seq::empty());
                                match r3 {
                                    Err(e) => (s3, Err(e)),
                                    Ok(inos) => {
                                        let (s4, r4) = make_root(s3, inos);
                                        match r4 {
                                            Err(e) => (s4, Err(e)),
                                            Ok(()) => model::mount_at(s4, base),
                                        }
                                    },
                                }
                            },
                        }
                    },
                }
            },
        },
    }
}

} // verus!
