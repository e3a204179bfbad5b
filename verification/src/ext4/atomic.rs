//! A command as a whole: all that it changes goes through the journal, so that
//! a disk that stops in the middle of it holds, once the journal has been
//! replayed, what it held before.

use vstd::prelude::*;
use crate::bytes::{put16, put32, splice, u16_at, u32_at, zero_bytes};
use crate::crc::crc_of;
use crate::ext4::crash::{cut, journal_agrees, recovered, replay_ends, unused};
use crate::ext4::journal::wb_keeps_state;
use crate::ext4::laws::{
    committed_reach, log_ok, pend_found, raw_same, same_volume, written_block_reads_back,
};
use crate::ext4::model::{
    abandoned, advance, align4, alloc_block, alloc_block_from, alloc_inode, alloc_inode_from,
    append_data, block_sector, block_there, bump_links, bump_used_dirs, chain_crc, clear_from,
    commit_pending, commit_record, data_block, del_from, desc_block_of, desc_csum, desc_off_of,
    desc_read, desc_write, descriptor, dests_of, dir_add, dir_del, dir_grow, dir_inode, dot_block,
    emptied, entry_off, extent_append, extent_len, extent_start, file_block, fill_file, fill_slot,
    filled, free_block, free_entries, free_extents, free_inode, free_run, group_blocks, ino_extents,
    ino_size, inode_block, inode_load, inode_off, inode_save, inode_with_csum, is_jbd_block,
    journal_at, log_block, lookup_dir, make_slot, mkdir, mv, new_inode, pend_pos, rb_raw,
    read_block, redo, rm, rmdir, sb_bump_blocks, sb_bump_inodes, sb_read, sb_with_csum, sb_write,
    set_split_count, split_count, take_block, take_inode, target, touch, unlink,
    update_sb_free_blocks, update_sb_free_inodes, wb_raw, with_bit, with_bitmap_csums, with_size,
    without_bit, wrapped, write_block, write_file, write_new_dir,
};
use crate::ext4::raw::{block_log, block_written, carried_out};
use crate::fs::{Ext4Info, FsView, JbdView};

verus! {

// ---------- commands as block writes ----------

/// The volume after these block writes, one after the other.
pub open spec fn run(s: FsView, ws: Seq<(int, Seq<u8>)>) -> FsView
    decreases ws.len(),
{
    if ws.len() == 0 {
        s
    } else {
        write_block(run(s, ws.drop_last()), ws.last().0, ws.last().1).0
    }
}

/// What lies between the two is a row of block writes.
pub open spec fn by_writes(s: FsView, t: FsView) -> bool {
    exists|ws: Seq<(int, Seq<u8>)>| #[trigger] run(s, ws) == t
}

proof fn run_both(s: FsView, a: Seq<(int, Seq<u8>)>, b: Seq<(int, Seq<u8>)>)
    ensures
        run(run(s, a), b) == run(s, a + b),
    decreases b.len(),
{
    if b.len() == 0 {
        assert(a + b =~= a);
    } else {
        run_both(s, a, b.drop_last());
        assert((a + b).drop_last() =~= a + b.drop_last());
        assert((a + b).last() == b.last());
    }
}

proof fn none(s: FsView)
    ensures
        by_writes(s, s),
{
    assert(run(s, Seq::empty()) == s);
}

proof fn one(s: FsView, blk: int, data: Seq<u8>)
    ensures
        by_writes(s, write_block(s, blk, data).0),
{
    let ws = seq![(blk, data)];
    assert(ws.drop_last() =~= Seq::empty());
    assert(run(s, Seq::empty()) == s);
    assert(run(s, ws) == write_block(s, blk, data).0);
}

proof fn both(s: FsView, t: FsView, u: FsView)
    requires
        by_writes(s, t),
        by_writes(t, u),
    ensures
        by_writes(s, u),
{
    let a = choose|ws: Seq<(int, Seq<u8>)>| #[trigger] run(s, ws) == t;
    let b = choose|ws: Seq<(int, Seq<u8>)>| #[trigger] run(t, ws) == u;
    run_both(s, a, b);
    assert(run(s, a + b) == u);
}

proof fn sb_write_runs(s: FsView, sb: Seq<u8>)
    ensures
        by_writes(s, sb_write(s, sb).0),
{
    reveal(sb_write);
    none(s);
    if let (Some(i), Some(b)) = (s.ext, read_block(s, 0)) {
        let t = if i.has_csum {
            sb_with_csum(sb)
        } else {
            sb
        };
        one(s, 0, splice(b, 1024, t));
    }
}

proof fn free_blocks_runs(s: FsView, delta: int)
    ensures
        by_writes(s, update_sb_free_blocks(s, delta).0),
{
    none(s);
    if let Ok(sb) = sb_read(s) {
        sb_write_runs(s, sb_bump_blocks(sb, delta));
    }
}

proof fn free_inodes_runs(s: FsView, delta: int)
    ensures
        by_writes(s, update_sb_free_inodes(s, delta).0),
{
    none(s);
    if let Ok(sb) = sb_read(s) {
        sb_write_runs(s, sb_bump_inodes(sb, delta));
    }
}

proof fn desc_write_runs(s: FsView, g: int, d: Seq<u8>)
    ensures
        by_writes(s, desc_write(s, g, d).0),
{
    reveal(desc_write);
    none(s);
    if let Some(b) = read_block(s, desc_block_of(g)) {
        one(s, desc_block_of(g), splice(b, desc_off_of(g), put16(d, 30, desc_csum(g, d))));
    }
}

proof fn inode_save_runs(s: FsView, ino: u32, raw: Seq<u8>)
    ensures
        by_writes(s, inode_save(s, ino, raw).0),
{
    reveal(inode_save);
    none(s);
    if let (Some(i), Ok(d)) = (s.ext, desc_read(s, (ino - 1) / 8192)) {
        if let Some(b) = read_block(s, inode_block(d, ino)) {
            let t = if i.has_csum && u16_at(raw, 128) > 0 {
                inode_with_csum(ino, raw)
            } else {
                raw
            };
            one(s, inode_block(d, ino), splice(b, inode_off(ino), t));
        }
    }
}

proof fn take_block_runs(s: FsView, g: int, d: Seq<u8>, bmap: Seq<u8>, bit: int)
    ensures
        by_writes(s, take_block(s, g, d, bmap, bit).0),
{
    reveal(take_block);
    let bm = with_bit(bmap, bit);
    one(s, u32_at(d, 0) as int, bm);
    let (s1, ok) = write_block(s, u32_at(d, 0) as int, bm);
    if let Some(imap) = read_block(s1, u32_at(d, 4) as int) {
        let d1 = with_bitmap_csums(d, bm, imap);
        let e = set_split_count(d1, 12, 44, (split_count(d1, 12, 44) - 1) as u64);
        desc_write_runs(s1, g, e);
        let s2 = desc_write(s1, g, e).0;
        both(s, s1, s2);
        free_blocks_runs(s2, -1);
        both(s, s2, update_sb_free_blocks(s2, -1).0);
    }
}

proof fn alloc_block_from_runs(s: FsView, i: Ext4Info, g: int)
    ensures
        by_writes(s, alloc_block_from(s, i, g).0),
    decreases i.groups - g,
{
    none(s);
    if g < i.groups {
        if let Ok(d) = desc_read(s, g) {
            if let Some(bmap) = read_block(s, u32_at(d, 0) as int) {
                match clear_from(bmap, 0, group_blocks(i, g)) {
                    None => alloc_block_from_runs(s, i, g + 1),
                    Some(bit) => take_block_runs(s, g, d, bmap, bit),
                }
            }
        }
    }
}

proof fn alloc_block_runs(s: FsView)
    ensures
        by_writes(s, alloc_block(s).0),
{
    reveal(alloc_block);
    none(s);
    if let Some(i) = s.ext {
        alloc_block_from_runs(s, i, 0);
    }
}

proof fn free_block_runs(s: FsView, blk: u32)
    ensures
        by_writes(s, free_block(s, blk).0),
{
    reveal(free_block);
    none(s);
    let g = blk as int / 32768;
    if let Ok(d) = desc_read(s, g) {
        if let Some(bmap) = read_block(s, u32_at(d, 0) as int) {
            let bm = without_bit(bmap, blk as int % 32768);
            one(s, u32_at(d, 0) as int, bm);
            let s1 = write_block(s, u32_at(d, 0) as int, bm).0;
            if let Some(imap) = read_block(s1, u32_at(d, 4) as int) {
                let d1 = with_bitmap_csums(d, bm, imap);
                let e = set_split_count(d1, 12, 44, (split_count(d1, 12, 44) + 1) as u64);
                desc_write_runs(s1, g, e);
                let s2 = desc_write(s1, g, e).0;
                both(s, s1, s2);
                free_blocks_runs(s2, 1);
                both(s, s2, update_sb_free_blocks(s2, 1).0);
            }
        }
    }
}

proof fn take_inode_runs(s: FsView, g: int, d: Seq<u8>, imap: Seq<u8>, bit: int)
    ensures
        by_writes(s, take_inode(s, g, d, imap, bit).0),
{
    reveal(take_inode);
    let im = with_bit(imap, bit);
    one(s, u32_at(d, 4) as int, im);
    let s1 = write_block(s, u32_at(d, 4) as int, im).0;
    if let Some(bmap) = read_block(s1, u32_at(d, 0) as int) {
        let d1 = with_bitmap_csums(d, bmap, im);
        let e = set_split_count(d1, 14, 46, (split_count(d1, 14, 46) - 1) as u64);
        desc_write_runs(s1, g, e);
        let s2 = desc_write(s1, g, e).0;
        both(s, s1, s2);
        free_inodes_runs(s2, -1);
        both(s, s2, update_sb_free_inodes(s2, -1).0);
    }
}

proof fn alloc_inode_from_runs(s: FsView, i: Ext4Info, g: int)
    ensures
        by_writes(s, alloc_inode_from(s, i, g).0),
    decreases i.groups - g,
{
    none(s);
    if g < i.groups {
        if let Ok(d) = desc_read(s, g) {
            if let Some(imap) = read_block(s, u32_at(d, 4) as int) {
                match clear_from(imap, 0, 8192) {
                    None => alloc_inode_from_runs(s, i, g + 1),
                    Some(bit) => take_inode_runs(s, g, d, imap, bit),
                }
            }
        }
    }
}

proof fn alloc_inode_runs(s: FsView)
    ensures
        by_writes(s, alloc_inode(s).0),
{
    reveal(alloc_inode);
    none(s);
    if let Some(i) = s.ext {
        alloc_inode_from_runs(s, i, 0);
    }
}

proof fn free_inode_runs(s: FsView, ino: u32)
    ensures
        by_writes(s, free_inode(s, ino).0),
{
    reveal(free_inode);
    none(s);
    let g = (ino - 1) / 8192;
    if let Ok(d) = desc_read(s, g) {
        if let Some(imap) = read_block(s, u32_at(d, 4) as int) {
            let im = without_bit(imap, (ino - 1) % 8192);
            one(s, u32_at(d, 4) as int, im);
            let s1 = write_block(s, u32_at(d, 4) as int, im).0;
            if let Some(bmap) = read_block(s1, u32_at(d, 0) as int) {
                let d1 = with_bitmap_csums(d, bmap, im);
                let e = set_split_count(d1, 14, 46, (split_count(d1, 14, 46) + 1) as u64);
                desc_write_runs(s1, g, e);
                let s2 = desc_write(s1, g, e).0;
                both(s, s1, s2);
                free_inodes_runs(s2, 1);
                both(s, s2, update_sb_free_inodes(s2, 1).0);
            }
        }
    }
}

proof fn bump_used_dirs_runs(s: FsView, g: int, delta: int)
    ensures
        by_writes(s, bump_used_dirs(s, g, delta).0),
{
    reveal(bump_used_dirs);
    none(s);
    if let Ok(d) = desc_read(s, g) {
        let next = split_count(d, 16, 48) + delta;
        let v = if next < 0 {
            0
        } else {
            next as u64
        };
        desc_write_runs(s, g, set_split_count(d, 16, 48, v));
    }
}

proof fn free_run_runs(s: FsView, from: int, k: int, n: int)
    ensures
        by_writes(s, free_run(s, from, k, n).0),
    decreases n - k,
{
    none(s);
    if k < n && from + k <= u32::MAX {
        let blk = (from + k) as u32;
        free_block_runs(s, blk);
        let s1 = free_block(s, blk).0;
        free_run_runs(s1, from, k + 1, n);
        both(s, s1, free_run(s1, from, k + 1, n).0);
    }
}

proof fn free_entries_runs(s: FsView, ib: Seq<u8>, e: int)
    ensures
        by_writes(s, free_entries(s, ib, e).0),
    decreases u16_at(ib, 2) - e,
{
    none(s);
    let o = 12 + 12 * e;
    if e < u16_at(ib, 2) && o + 12 <= 60 {
        let from = extent_start(ib, o) as int;
        let n = extent_len(ib, o);
        free_run_runs(s, from, 0, n);
        let s1 = free_run(s, from, 0, n).0;
        free_entries_runs(s1, ib, e + 1);
        both(s, s1, free_entries(s1, ib, e + 1).0);
    }
}

proof fn free_extents_runs(s: FsView, raw: Seq<u8>)
    ensures
        by_writes(s, free_extents(s, raw).0),
{
    reveal(free_extents);
    none(s);
    free_entries_runs(s, ino_extents(raw), 0);
}

proof fn dir_grow_runs(s: FsView, dir: u32)
    ensures
        by_writes(s, dir_grow(s, dir).0),
{
    reveal(dir_grow);
    none(s);
    if let Ok(raw) = inode_load(s, dir) {
        alloc_block_runs(s);
        let (s1, r1) = alloc_block(s);
        if let Ok(blk) = r1 {
            one(s1, blk as int, zero_bytes(4096));
            let s2 = write_block(s1, blk as int, zero_bytes(4096)).0;
            both(s, s1, s2);
            if let Ok(raw2) = extent_append(raw, blk) {
                let r = put32(
                    with_size(raw2, ino_size(raw2) + 4096),
                    28,
                    ((u32_at(raw2, 28) + 8) % 0x1_0000_0000) as u32,
                );
                inode_save_runs(s2, dir, r);
                both(s, s2, inode_save(s2, dir, r).0);
            }
        }
    }
}

proof fn make_slot_runs(s: FsView, dir: u32, need: int)
    ensures
        by_writes(s, make_slot(s, dir, need).0),
{
    reveal(make_slot);
    none(s);
    dir_grow_runs(s, dir);
}

proof fn dir_add_runs(s: FsView, dir: u32, name: Seq<u8>, child: u32, ftype: u8)
    ensures
        by_writes(s, dir_add(s, dir, name, child, ftype).0),
{
    reveal(dir_add);
    let need = align4(8 + name.len() as int);
    make_slot_runs(s, dir, need);
    let (s1, r1) = make_slot(s, dir, need);
    if let Ok((phys, off, avail)) = r1 {
        if let Some(b) = read_block(s1, phys as int) {
            let c = fill_slot(b, off, avail, need, child, name, ftype);
            one(s1, phys as int, c);
            both(s, s1, write_block(s1, phys as int, c).0);
        }
    }
}

proof fn del_from_runs(s: FsView, ib: Seq<u8>, off: int, size: int, name: Seq<u8>)
    ensures
        by_writes(s, del_from(s, ib, off, size, name).0),
    decreases size + 4096 - off,
{
    none(s);
    if off < size {
        if let Some((p, b)) = file_block(s, ib, off) {
            match entry_off(b, 0, name) {
                Some(o) => one(s, p as int, splice(b, o, zero_bytes(4))),
                None => del_from_runs(s, ib, off + 4096, size, name),
            }
        }
    }
}

proof fn dir_del_runs(s: FsView, dir: u32, name: Seq<u8>)
    ensures
        by_writes(s, dir_del(s, dir, name).0),
{
    reveal(dir_del);
    none(s);
    if let Ok(raw) = inode_load(s, dir) {
        del_from_runs(s, ino_extents(raw), 0, ino_size(raw) as int, name);
    }
}

proof fn append_data_runs(s: FsView, raw: Seq<u8>, data: Seq<u8>, at: int)
    ensures
        by_writes(s, append_data(s, raw, data, at).0),
    decreases data.len() + 4096 - at,
{
    none(s);
    if at < data.len() {
        alloc_block_runs(s);
        let (s1, r1) = alloc_block(s);
        if let Ok(blk) = r1 {
            let b = data_block(data, at);
            one(s1, blk as int, b);
            let s2 = write_block(s1, blk as int, b).0;
            both(s, s1, s2);
            if let Ok(raw2) = extent_append(raw, blk) {
                append_data_runs(s2, raw2, data, at + 4096);
                both(s, s2, append_data(s2, raw2, data, at + 4096).0);
            }
        }
    }
}

proof fn fill_file_runs(s: FsView, ino: u32, raw0: Seq<u8>, data: Seq<u8>)
    ensures
        by_writes(s, fill_file(s, ino, raw0, data).0),
{
    reveal(fill_file);
    let raw = emptied(raw0);
    inode_save_runs(s, ino, raw);
    let s1 = inode_save(s, ino, raw).0;
    append_data_runs(s1, raw, data, 0);
    let (s2, raw2, r2) = append_data(s1, raw, data, 0);
    both(s, s1, s2);
    match r2 {
        Ok(()) => {
            let f = filled(raw2, data.len() as int);
            inode_save_runs(s2, ino, f);
            both(s, s2, inode_save(s2, ino, f).0);
        },
        Err(e) => {
            free_extents_runs(s2, raw2);
            let s3 = free_extents(s2, raw2).0;
            both(s, s2, s3);
            inode_save_runs(s3, ino, abandoned(raw2));
            both(s, s3, inode_save(s3, ino, abandoned(raw2)).0);
        },
    }
}

/// All that writing a file changes goes through block writes, whether it
/// succeeds or not.
pub proof fn write_file_runs(s: FsView, path: Seq<char>, data: Seq<u8>)
    ensures
        by_writes(s, write_file(s, path, data).0),
{
    reveal(write_file);
    none(s);
    if let Ok((p, n)) = target(s, path) {
        match lookup_dir(s, p, n) {
            Ok((ino, ft)) => {
                if let Ok(raw) = inode_load(s, ino) {
                    free_extents_runs(s, raw);
                    let s1 = free_extents(s, raw).0;
                    fill_file_runs(s1, ino, raw, data);
                    both(s, s1, fill_file(s1, ino, raw, data).0);
                }
            },
            Err(_) => {
                alloc_inode_runs(s);
                let (s1, r1) = alloc_inode(s);
                if let Ok(ino) = r1 {
                    dir_add_runs(s1, p, n, ino, 1);
                    let s2 = dir_add(s1, p, n, ino, 1).0;
                    both(s, s1, s2);
                    fill_file_runs(s2, ino, new_inode(0x81A4, 1), data);
                    both(s, s2, fill_file(s2, ino, new_inode(0x81A4, 1), data).0);
                }
            },
        }
    }
}

pub proof fn touch_runs(s: FsView, path: Seq<char>)
    ensures
        by_writes(s, touch(s, path).0),
{
    reveal(touch);
    none(s);
    if let Ok((p, n)) = target(s, path) {
        alloc_inode_runs(s);
        let (s1, r1) = alloc_inode(s);
        if let Ok(ino) = r1 {
            inode_save_runs(s1, ino, new_inode(0x81A4, 1));
            let s2 = inode_save(s1, ino, new_inode(0x81A4, 1)).0;
            both(s, s1, s2);
            dir_add_runs(s2, p, n, ino, 1);
            both(s, s2, dir_add(s2, p, n, ino, 1).0);
        }
    }
}

proof fn write_new_dir_runs(s: FsView, ino: u32, blk: u32, parent: u32)
    ensures
        by_writes(s, write_new_dir(s, ino, blk, parent).0),
{
    reveal(write_new_dir);
    one(s, blk as int, dot_block(ino, parent));
    let s1 = write_block(s, blk as int, dot_block(ino, parent)).0;
    inode_save_runs(s1, ino, dir_inode(2, blk));
    both(s, s1, inode_save(s1, ino, dir_inode(2, blk)).0);
}

proof fn bump_links_runs(s: FsView, ino: u32, up: bool)
    ensures
        by_writes(s, bump_links(s, ino, up).0),
{
    reveal(bump_links);
    none(s);
    if let Ok(raw) = inode_load(s, ino) {
        let l = u16_at(raw, 26);
        let l2 = if up {
            ((l + 1) % 0x1_0000) as u16
        } else if l == 0 {
            0
        } else {
            (l - 1) as u16
        };
        inode_save_runs(s, ino, put16(raw, 26, l2));
    }
}

pub proof fn mkdir_runs(s: FsView, path: Seq<char>)
    ensures
        by_writes(s, mkdir(s, path).0),
{
    reveal(mkdir);
    none(s);
    if let Ok((p, n)) = target(s, path) {
        alloc_inode_runs(s);
        let (s1, r1) = alloc_inode(s);
        if let Ok(x) = r1 {
            alloc_block_runs(s1);
            let (s2, r2) = alloc_block(s1);
            both(s, s1, s2);
            if let Ok(blk) = r2 {
                write_new_dir_runs(s2, x, blk, p);
                let s3 = write_new_dir(s2, x, blk, p).0;
                both(s, s2, s3);
                dir_add_runs(s3, p, n, x, 2);
                let s4 = dir_add(s3, p, n, x, 2).0;
                both(s, s3, s4);
                bump_links_runs(s4, p, true);
                let s5 = bump_links(s4, p, true).0;
                both(s, s4, s5);
                bump_used_dirs_runs(s5, (x - 1) / 8192, 1);
                both(s, s5, bump_used_dirs(s5, (x - 1) / 8192, 1).0);
            }
        }
    }
}

proof fn unlink_runs(s: FsView, dir: u32, name: Seq<u8>, ino: u32)
    ensures
        by_writes(s, unlink(s, dir, name, ino).0),
{
    reveal(unlink);
    none(s);
    if let Ok(raw) = inode_load(s, ino) {
        free_extents_runs(s, raw);
        let s1 = free_extents(s, raw).0;
        free_inode_runs(s1, ino);
        let s2 = free_inode(s1, ino).0;
        both(s, s1, s2);
        dir_del_runs(s2, dir, name);
        both(s, s2, dir_del(s2, dir, name).0);
    }
}

pub proof fn rm_runs(s: FsView, path: Seq<char>)
    ensures
        by_writes(s, rm(s, path).0),
{
    reveal(rm);
    none(s);
    if let Ok((p, n)) = target(s, path) {
        if let Ok((ino, ft)) = lookup_dir(s, p, n) {
            unlink_runs(s, p, n, ino);
        }
    }
}

pub proof fn rmdir_runs(s: FsView, path: Seq<char>)
    ensures
        by_writes(s, rmdir(s, path).0),
{
    reveal(rmdir);
    none(s);
    if let Ok((p, n)) = target(s, path) {
        if let Ok((ino, ft)) = lookup_dir(s, p, n) {
            unlink_runs(s, p, n, ino);
            let s1 = unlink(s, p, n, ino).0;
            bump_links_runs(s1, p, false);
            let s2 = bump_links(s1, p, false).0;
            both(s, s1, s2);
            bump_used_dirs_runs(s2, (ino - 1) / 8192, -1);
            both(s, s2, bump_used_dirs(s2, (ino - 1) / 8192, -1).0);
        }
    }
}

pub proof fn mv_runs(s: FsView, from: Seq<char>, to: Seq<char>)
    ensures
        by_writes(s, mv(s, from, to).0),
{
    reveal(mv);
    none(s);
    if let (Ok((op, on)), Ok((np, nn))) = (target(s, from), target(s, to)) {
        if let Ok((ino, ft)) = lookup_dir(s, op, on) {
            dir_add_runs(s, np, nn, ino, ft);
            let s1 = dir_add(s, np, nn, ino, ft).0;
            dir_del_runs(s1, op, on);
            both(s, s1, dir_del(s1, op, on).0);
        }
    }
}

// ---------- writes that are only logged ----------

/// The transaction in progress has room for the block.
pub open spec fn roomy(j: JbdView, blk: int) -> bool {
    ||| pend_pos(j.pend, blk) is Some
    ||| j.pend.len() == 0
    ||| j.pend.len() < 1020 && j.start + j.pend.len() + 2 <= 1023
}

/// The block write succeeds and is logged in the transaction in progress.
pub open spec fn is_logged(s: FsView, blk: int, data: Seq<u8>) -> bool {
    &&& s.jbd is Some
    &&& 0 <= blk <= u32::MAX
    &&& !is_jbd_block(s.jbd->0.base, blk)
    &&& data.len() == 4096
    &&& write_block(s, blk, data).1
    &&& roomy(s.jbd->0, blk)
}

/// The block writes all go into one transaction.
pub open spec fn calm(s: FsView, ws: Seq<(int, Seq<u8>)>) -> bool
    decreases ws.len(),
{
    ws.len() > 0 ==> {
        &&& calm(s, ws.drop_last())
        &&& is_logged(run(s, ws.drop_last()), ws.last().0, ws.last().1)
    }
}

/// The sector lies in a slot of the journal behind slot `start`.
pub open spec fn in_slots(s: FsView, base: int, start: int, l: int) -> bool {
    8 * (base + start + 1) <= l - s.base < 8 * (base + 1024)
}

/// The block lies outside the slots of the journal behind slot `start`.
pub open spec fn beyond_slots(base: int, start: int, b: int) -> bool {
    b <= base + start || b >= base + 1024
}

/// What logging does: the disk changes in the slots behind the start of the
/// transaction, and nowhere else.
pub open spec fn only_logs(s: FsView, t: FsView) -> bool {
    let j0 = s.jbd->0;
    let j = t.jbd->0;
    &&& same_volume(s, t)
    &&& t.jbd is Some
    &&& log_ok(j)
    &&& j.seq == j0.seq
    &&& j0.pend.len() > 0 ==> j.start == j0.start && j.pend.len() > 0
    &&& j.pend.len() == 0 ==> t == s
    &&& t.disk.log.len() >= s.disk.log.len()
    &&& forall|i: int| 0 <= i < s.disk.log.len() ==> #[trigger] t.disk.log[i] == s.disk.log[i]
    &&& forall|i: int|
        s.disk.log.len() <= i < t.disk.log.len() ==> in_slots(
            s,
            j.base as int,
            j.start as int,
            (#[trigger] t.disk.log[i]).0,
        )
    &&& forall|b: int|
        beyond_slots(j.base as int, j.start as int, b) ==> #[trigger] rb_raw(t, b) == rb_raw(s, b)
}

/// A block write that goes to one slot of the journal.
proof fn slot_log(s: FsView, t: FsView, base: int, slot: int, data: Seq<u8>)
    requires
        data.len() == 4096,
        wb_raw(s, base + slot, data).1,
        t.disk == wb_raw(s, base + slot, data).0.disk,
        t.base == s.base,
        t.dev == s.dev,
    ensures
        t.disk.log.len() == s.disk.log.len() + 8,
        forall|i: int| 0 <= i < s.disk.log.len() ==> #[trigger] t.disk.log[i] == s.disk.log[i],
        forall|i: int|
            s.disk.log.len() <= i < t.disk.log.len() ==> 8 * (base + slot) <= (
            #[trigger] t.disk.log[i]).0 - s.base < 8 * (base + slot + 1),
        forall|b: int| b != base + slot ==> #[trigger] rb_raw(t, b) == rb_raw(s, b),
{
    let u = wb_raw(s, base + slot, data).0;
    block_written(s, base + slot, data);
    raw_same(u, t);
    assert forall|i: int| s.disk.log.len() <= i < t.disk.log.len() implies 8 * (base + slot) <= (
    #[trigger] t.disk.log[i]).0 - s.base < 8 * (base + slot + 1) by {
        let k = i - s.disk.log.len();
        assert(t.disk.log[i] == block_log(s, base + slot, data)[k]);
    }
}

/// One block is logged.
proof fn one_logged(s: FsView, blk: int, data: Seq<u8>)
    requires
        s.jbd is Some,
        log_ok(s.jbd->0),
        is_logged(s, blk, data),
    ensures
        only_logs(s, write_block(s, blk, data).0),
        write_block(s, blk, data).0.jbd->0.pend.len() > 0,
{
    let j = s.jbd->0;
    let t = write_block(s, blk, data).0;
    written_block_reads_back(s, blk, data);
    reveal(write_block);
    pend_found(j.pend, blk);
    match pend_pos(j.pend, blk) {
        Some(q) => {
            slot_log(s, t, j.base as int, q as int, data);
            block_written(s, j.base + q, data);
        },
        None => {
            reveal(log_block);
            let j2 = if j.pend.len() == 0 {
                wrapped(j)
            } else {
                j
            };
            let s2 = FsView { jbd: Some(j2), ..s };
            raw_same(s, s2);
            let pos = j2.start + 1 + j2.pend.len();
            slot_log(s2, t, j2.base as int, pos as int, data);
            block_written(s2, j2.base + pos, data);
        },
    }
}

/// Block writes that go into one transaction leave every block of the volume
/// as it was on the disk, and the journal's superblock too.
pub proof fn calm_writes_only_log(s: FsView, ws: Seq<(int, Seq<u8>)>)
    requires
        s.jbd is Some,
        log_ok(s.jbd->0),
        calm(s, ws),
    ensures
        only_logs(s, run(s, ws)),
    decreases ws.len(),
{
    if ws.len() > 0 {
        let t = run(s, ws.drop_last());
        calm_writes_only_log(s, ws.drop_last());
        let (blk, data) = ws.last();
        one_logged(t, blk, data);
        let u = run(s, ws);
        let j0 = s.jbd->0;
        let j1 = t.jbd->0;
        let j = u.jbd->0;
        if j1.pend.len() == 0 {
            assert(t == s);
        } else {
            assert(j.start == j1.start);
            assert forall|i: int| s.disk.log.len() <= i < u.disk.log.len() implies in_slots(
                s,
                j.base as int,
                j.start as int,
                (#[trigger] u.disk.log[i]).0,
            ) by {
                if i < t.disk.log.len() {
                    assert(u.disk.log[i] == t.disk.log[i]);
                }
            }
            assert forall|i: int| 0 <= i < s.disk.log.len() implies #[trigger] u.disk.log[i]
                == s.disk.log[i] by {
                assert(u.disk.log[i] == t.disk.log[i]);
            }
            assert forall|b: int| beyond_slots(j.base as int, j.start as int, b) implies #[trigger] rb_raw(
                u,
                b,
            ) == rb_raw(s, b) by {
                assert(rb_raw(t, b) == rb_raw(s, b));
            }
        }
    }
}

// ---------- a cut before the commit ----------

proof fn carried_keeps(sec: Map<int, Seq<u8>>, ws: Seq<(int, Seq<u8>)>, p: int, l: int)
    requires
        forall|i: int| 0 <= i < p ==> (#[trigger] ws[i]).0 != l,
    ensures
        carried_out(sec, ws, p).dom().contains(l) == sec.dom().contains(l),
        carried_out(sec, ws, p)[l] == sec[l],
    decreases p,
{
    if p > 0 {
        carried_keeps(sec, ws, p - 1, l);
        assert(ws[p - 1].0 != l);
    }
}

/// A disk that stops while blocks are logged holds every other block as it was.
proof fn cut_keeps(s: FsView, t: FsView, p: int, b: int)
    requires
        only_logs(s, t),
        0 <= p <= t.disk.log.len() - s.disk.log.len(),
        beyond_slots(t.jbd->0.base as int, t.jbd->0.start as int, b),
    ensures
        rb_raw(cut(s, t, p), b) == rb_raw(s, b),
{
    let c = cut(s, t, p);
    let j = t.jbd->0;
    let ws = t.disk.log.skip(s.disk.log.len() as int);
    assert forall|i: int| 0 <= i < 8 implies #[trigger] block_sector(c, b, i) == block_sector(s, b, i) by {
        let l = s.base + 8 * b + i;
        assert forall|k: int| 0 <= k < p implies (#[trigger] ws[k]).0 != l by {
            let e = t.disk.log[s.disk.log.len() + k];
            assert(ws[k] == e);
            assert(in_slots(s, j.base as int, j.start as int, e.0));
        }
        carried_keeps(s.disk.sec, ws, p, l);
    }
    assert forall|i: int| 0 <= i < 8 implies (#[trigger] block_sector(s, b, i)) is Some
        == block_sector(c, b, i) is Some by {
        assert(block_sector(c, b, i) == block_sector(s, b, i));
    }
    assert(block_there(c, b) == block_there(s, b)) by {
        if block_there(s, b) {
            assert forall|i: int| 0 <= i < 8 implies (#[trigger] block_sector(c, b, i)) is Some by {
                assert(block_sector(s, b, i) is Some);
            }
        }
        if block_there(c, b) {
            assert forall|i: int| 0 <= i < 8 implies (#[trigger] block_sector(s, b, i)) is Some by {
                assert(block_sector(c, b, i) is Some);
            }
        }
    }
    if block_there(s, b) {
        assert(rb_raw(c, b)->0 =~= rb_raw(s, b)->0) by {
            assert forall|k: int| 0 <= k < 4096 implies rb_raw(c, b)->0[k] == rb_raw(s, b)->0[k] by {
                assert(block_sector(c, b, k / 512) == block_sector(s, b, k / 512));
            }
        }
    }
}

/// A command that is cut short before its commit leaves no trace: whatever
/// part of its writes reached the disk, the replayed journal gives every block
/// as it was before the command. What holds of a cut in the commit itself says
/// [`crate::ext4::crash::commit_is_atomic`].
pub proof fn unfinished_command_leaves_no_trace(s: FsView, ws: Seq<(int, Seq<u8>)>, p: int)
    requires
        s.jbd is Some,
        log_ok(s.jbd->0),
        s.jbd->0.pend.len() == 0,
        calm(s, ws),
        ({
            let t = run(s, ws);
            let j = t.jbd->0;
            &&& j.pend.len() > 0
            &&& journal_agrees(t, j)
            &&& commit_pending(t, j).1 is Ok
            &&& 0 <= p <= t.disk.log.len() - s.disk.log.len()
        }),
    ensures
        ({
            let (r, e) = recovered(cut(s, run(s, ws), p), s.jbd->0.base);
            &&& e is Ok
            &&& forall|b: int|
                !is_jbd_block(s.jbd->0.base, b) ==> #[trigger] rb_raw(r, b) == read_block(s, b)
        }),
{
    let t = run(s, ws);
    let j0 = s.jbd->0;
    let j = t.jbd->0;
    let c = cut(s, t, p);
    calm_writes_only_log(s, ws);
    committed_reach(t, j);
    let base = j.base as int;
    cut_keeps(s, t, p, base);
    cut_keeps(s, t, p, base + j.start);
    assert(rb_raw(t, base) == rb_raw(s, base));
    assert(rb_raw(t, base + j.start) == rb_raw(s, base + j.start));
    let sb = rb_raw(c, base)->0;
    let j1 = journal_at(j.base, sb);
    assert(j1.start == j.start && j1.seq == j.seq);
    assert(unused(t, j.base, j.start as int, j.seq as int));
    replay_ends(c, j1);
    assert forall|b: int| !is_jbd_block(j0.base, b) implies #[trigger] rb_raw(c, b) == read_block(s, b) by {
        cut_keeps(s, t, p, b);
        reveal(read_block);
    }
}

// ---------- the mount ----------

proof fn raw_keeps_mount(s: FsView, blk: int, data: Seq<u8>)
    ensures
        wb_raw(s, blk, data).0.mount == s.mount,
{
    reveal(wb_raw);
    wb_keeps_state(s, blk, data, 0);
}

proof fn redo_keeps_mount(s: FsView, from: int, dests: Seq<u32>, k: int)
    requires
        0 <= k,
    ensures
        redo(s, from, dests, k).0.mount == s.mount,
    decreases dests.len() - k,
{
    if k < dests.len() {
        if let Some(b) = rb_raw(s, from + k) {
            raw_keeps_mount(s, dests[k] as int, b);
            redo_keeps_mount(wb_raw(s, dests[k] as int, b).0, from, dests, k + 1);
        }
    }
}

proof fn commit_keeps_mount(s: FsView, j: JbdView)
    ensures
        commit_pending(s, j).0.mount == s.mount,
{
    reveal(commit_pending);
    let n = j.pend.len() as int;
    let dests = dests_of(j.pend);
    let d = descriptor(j.seq, dests);
    let from = j.base + j.start + 1;
    if let Some(chk) = chain_crc(s, from, 0, n, crc_of(0xFFFF_FFFF, d)) {
        raw_keeps_mount(s, j.base + j.start, d);
        let s1 = wb_raw(s, j.base + j.start, d).0;
        let c = commit_record(j.seq, chk, n as u32);
        raw_keeps_mount(s1, from + n, c);
        let s2 = wb_raw(s1, from + n, c).0;
        redo_keeps_mount(s2, from, dests, 0);
        let j4 = advance(j, n);
        let s4 = FsView { jbd: Some(j4), ..redo(s2, from, dests, 0).0 };
        if let Some(sb) = rb_raw(s4, j4.base as int) {
            raw_keeps_mount(s4, j4.base as int, put32(put32(sb, 8, j4.seq), 12, j4.start));
        }
    }
}

proof fn write_keeps_mount(s: FsView, blk: int, data: Seq<u8>)
    ensures
        write_block(s, blk, data).0.mount == s.mount,
{
    reveal(write_block);
    raw_keeps_mount(s, blk, data);
    if let Some(j) = s.jbd {
        if let Some(p) = pend_pos(j.pend, blk) {
            raw_keeps_mount(s, j.base + p, data);
        }
        reveal(log_block);
        commit_keeps_mount(s, j);
        let full = j.pend.len() > 0 && (j.pend.len() == 1020 || j.start + j.pend.len() + 2 > 1023);
        let s1 = if full {
            commit_pending(s, j).0
        } else {
            s
        };
        let j1 = s1.jbd->0;
        let j2 = if j1.pend.len() == 0 {
            wrapped(j1)
        } else {
            j1
        };
        let pos = j2.start + 1 + j2.pend.len();
        raw_keeps_mount(FsView { jbd: Some(j2), ..s1 }, j2.base + pos, data);
    }
}

/// Block writes leave the kind of volume that is mounted.
pub proof fn writes_keep_mount(s: FsView, ws: Seq<(int, Seq<u8>)>)
    ensures
        run(s, ws).mount == s.mount,
    decreases ws.len(),
{
    if ws.len() > 0 {
        writes_keep_mount(s, ws.drop_last());
        write_keeps_mount(run(s, ws.drop_last()), ws.last().0, ws.last().1);
    }
}

} // verus!
