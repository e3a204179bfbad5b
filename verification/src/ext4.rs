//! ext4 driver: metadata checksums, 64-bit, extents; no htree, no flex_bg.

use vstd::prelude::*;
use crate::bytes;
use crate::bytes::{copy_range, put_bytes, r16, r32, w16, w32, zero_range, zeros};
use crate::crc::crc32c;
use crate::ext4::dir::{
    dir_add, dir_del, file_block, list_view, lookup_dir, resolve_from_cwd, target, walk_cwd,
    walk_dir, write_dir_entry, DirEnt,
};
use crate::ext4::extent::{
    alloc_block, alloc_inode, bump_used_dirs, extent_append, extent_map, free_extents, free_inode,
};
use crate::ext4::journal::{read_block, read_block_raw, replay, write_block};
use crate::ext4::volume::{
    ino_extents, ino_size, inode_load, inode_save, is_reg_mode, new_inode, one_extent,
};
use crate::fs::{
    listing_view, show_bytes, Cwd, Ext4Info, Fs, FsErr, FsKind, FsView, JbdState, JbdView, Listing,
};

pub mod atomic;
pub mod contents;
pub mod counts;
pub mod crash;
pub mod dir;
pub mod entries;
pub mod erasing;
pub mod extent;
pub mod files;
pub mod format;
pub mod fresh;
pub mod inodes;
pub mod journal;
pub mod keeping;
pub mod laws;
pub mod layout;
pub mod making;
pub mod model;
pub mod moving;
pub mod naming;
pub mod order;
pub mod raw;
pub mod removal;
pub mod runs;
pub mod seeds;
pub mod settled;
pub mod shortage;
pub mod space;
pub mod supply;
pub mod tree;
pub mod volume;

verus! {

const DIR_FT_FILE: u8 = 1;

const DIR_FT_DIR: u8 = 2;

const MODE_FILE: u16 = 0x81A4;

const MODE_DIR: u16 = 0x41ED;

const INODE_JOURNAL: u32 = 8;

const IPG: u32 = 8192;

const JBD_MAGIC: u32 = 0xC03B_3998;

/// The number of block groups of the mounted volume.
pub fn groups(fs: &Fs) -> (n: u32)
    ensures
        n == (match fs@.ext {
            Some(i) => i.groups,
            None => 0,
        }),
{
    match fs.ext {
        Some(i) => i.groups,
        None => 0,
    }
}

/// Commits the running transaction; called at the end of every command that
/// changes the file system.
pub fn jbd_commit(fs: &mut Fs) -> (r: Result<(), FsErr>)
    requires
        old(fs).wf(),
    ensures
        final(fs).wf(),
        (final(fs)@, r) == model::jbd_commit(old(fs)@),
{
    journal::commit(fs)
}

/// The directory that the names lead to is there.
pub fn check_dir(fs: &Fs, cwd: &Cwd) -> (r: Result<(), FsErr>)
    requires
        fs.wf(),
    ensures
        r == model::check_dir(fs@, cwd@),
{
    walk_cwd(fs, cwd)?;
    Ok(())
}

// ---------- mount ----------

/// Finds the journal, applies its committed transactions and arms it.
fn jbd_init(fs: &mut Fs) -> (r: Result<(), FsErr>)
    requires
        old(fs).wf(),
    ensures
        final(fs).wf(),
        (final(fs)@, r) == model::jbd_init(old(fs)@),
{
    proof {
        reveal(model::jbd_init);
    }
    let raw = inode_load(fs, INODE_JOURNAL)?;
    let ib = ino_extents(&raw);
    let base = match extent_map(fs, &ib, 0) {
        None => {
            fs.jbd = None;
            return Ok(());
        },
        Some(b) => b,
    };
    let sb = match read_block_raw(fs, base as u64) {
        None => return Err(FsErr::Io),
        Some(b) => b,
    };
    if r32(&sb, 0) != JBD_MAGIC {
        fs.jbd = None;
        return Ok(());
    }
    let mut start: u32 = r32(&sb, 12);
    if start == 0 || start >= 1022 {
        start = 1;
    }
    let mut j = JbdState { base, start, seq: r32(&sb, 8), pend: Vec::new() };
    assert(j@ =~= JbdView { base, start, seq: j.seq, pend: Seq::empty() });
    replay(fs, &mut j)?;
    let ghost before = fs@;
    fs.jbd = Some(j);
    assert(fs@ =~= FsView { jbd: fs@.jbd, ..before });
    Ok(())
}

/// What a superblock says of the volume, if the driver can work with it.
fn super_info(sb: &[u8]) -> (r: Result<Ext4Info, FsErr>)
    requires
        sb@.len() == 1024,
    ensures
        r == model::super_info(sb@),
        r is Ok ==> 1 <= r->Ok_0.groups <= 1024,
{
    if r16(sb, 56) != 0xEF53 {
        return Err(FsErr::NotFormatted);
    }
    let incompat: u32 = r32(sb, 96);
    if incompat & 0xFFFF_FB3D != 0 || r32(sb, 100) & 0xFFFF_FDEF != 0 {
        return Err(FsErr::Unsupported);
    }
    let has_csum: bool = incompat & 0x400 != 0;
    if has_csum {
        let mut t = bytes::copy_of(sb);
        zero_range(&mut t, 628, 4);
        if crc32c(0xFFFF_FFFF, &t) != r32(sb, 628) {
            return Err(FsErr::Io);
        }
    }
    let bpg: u32 = r32(sb, 32);
    if r32(sb, 24) != 2 || bpg == 0 || bpg > 32768 {
        return Err(FsErr::Unsupported);
    }
    let total: u128 = r32(sb, 4) as u128 + 0x1_0000_0000 * (r32(sb, 332) as u128);
    let groups: u128 = (total + bpg as u128 - 1) / (bpg as u128) % 0x1_0000_0000;
    if groups == 0 || groups > 1024 {
        return Err(FsErr::Unsupported);
    }
    Ok(
        Ext4Info {
            groups: groups as u32,
            total_blocks: (total % 0x1_0000_0000) as u32,
            has_csum,
        },
    )
}

/// Mounts the volume that starts at sector `base`.
pub fn mount_at(fs: &mut Fs, base: u32) -> (r: Result<(), FsErr>)
    requires
        old(fs).wf(),
    ensures
        final(fs).wf(),
        (final(fs)@, r) == model::mount_at(old(fs)@, base),
{
    proof {
        reveal(model::mount_at);
    }
    fs.base = base;
    assert(fs@ =~= FsView { base, ..old(fs)@ });
    let b = match read_block(fs, 0) {
        None => return Err(FsErr::Io),
        Some(b) => b,
    };
    let info = super_info(&copy_range(&b, 1024, 1024))?;
    let ghost s1 = fs@;
    fs.ext = Some(info);
    assert(fs@ =~= FsView { ext: Some(info), ..s1 });
    jbd_init(fs)?;
    let ghost s2 = fs@;
    fs.mount = Some(FsKind::Ext4);
    assert(fs@ =~= FsView { mount: Some(FsKind::Ext4), ..s2 });
    Ok(())
}

// ---------- public commands ----------

/// The lines of a directory listing, and how the listing ends.
pub fn ls(fs: &Fs, path: &[char]) -> (r: (Vec<Listing>, Result<(), FsErr>))
    requires
        fs.wf(),
    ensures
        (listing_view(r.0@), r.1) == model::ls(fs@, path@),
{
    let mut out: Vec<Listing> = Vec::new();
    assert(listing_view(out@) =~= Seq::empty());
    let dir = match resolve_from_cwd(fs, path) {
        Err(e) => return (out, Err(e)),
        Ok(d) => d,
    };
    let (es, err) = walk_dir(fs, dir);
    let mut k: usize = 0;
    while k < es.len()
        invariant
            fs.wf(),
            k <= es@.len(),
            dir::list_used(es@),
            listing_view(out@) == Seq::new(
                k as nat,
                |i: int| model::listing_of(fs@, list_view(es@)[i]),
            ),
        decreases es@.len() - k,
    {
        let e = &es[k];
        let n: usize = if e.name.len() > 64 {
            64
        } else {
            e.name.len()
        };
        let name = show_bytes(&copy_range(&e.name, 0, n));
        let size: u64 = match inode_load(fs, e.ino) {
            Ok(raw) => ino_size(&raw),
            Err(_) => 0,
        };
        let ghost ev = e@;
        let l = Listing { name, is_dir: e.ftype == DIR_FT_DIR, size: Some(size) };
        assert(l@ =~= model::listing_of(fs@, ev));
        let ghost before = listing_view(out@);
        out.push(l);
        assert(listing_view(out@) =~= before.push(l@));
        k += 1;
        assert(listing_view(out@) =~= Seq::new(
            k as nat,
            |i: int| model::listing_of(fs@, list_view(es@)[i]),
        ));
    }
    match err {
        Some(e) => (out, Err(e)),
        None => (out, Ok(())),
    }
}

/// Reads the data of file `ino` into `out`, as much as fits.
fn read_file_data(fs: &Fs, ino: u32, out: &mut [u8]) -> (r: Result<usize, FsErr>)
    requires
        fs.wf(),
        ino >= 1,
    ensures
        final(out)@ == bytes::splice(
            old(out)@,
            0,
            model::file_data(fs@, ino, old(out)@.len() as int).0,
        ),
        r == (match model::file_data(fs@, ino, old(out)@.len() as int) {
            (d, None) => Ok::<usize, FsErr>(d.len() as usize),
            (_, Some(e)) => Err(e),
        }),
{
    proof {
        reveal(model::file_data);
    }
    let room: usize = out.len();
    assert(bytes::splice(out@, 0, Seq::empty()) =~= out@);
    let raw = inode_load(fs, ino)?;
    if !is_reg_mode(&raw) {
        return Err(FsErr::IsDir);
    }
    let size: u64 = ino_size(&raw);
    let want: usize = if size < room as u64 {
        size as usize
    } else {
        room
    };
    let ib = ino_extents(&raw);
    let mut at: usize = 0;
    let ghost all = model::data_from(fs@, ib@, 0, want as int);
    let ghost mut got: Seq<u8> = Seq::empty();
    assert(got + all.0 =~= all.0);
    while at < want
        invariant
            fs.wf(),
            ib@.len() == 60,
            at <= want <= room,
            at < want ==> at % 4096 == 0,
            old(out)@.len() == room,
            got.len() == at,
            out@ == bytes::splice(old(out)@, 0, got),
            all == (got + model::data_from(fs@, ib@, at as int, want as int).0, model::data_from(
                fs@,
                ib@,
                at as int,
                want as int,
            ).1),
            model::file_data(fs@, ino, room as int) == (
                all.0,
                if all.1 {
                    Some(FsErr::Io)
                } else {
                    None::<FsErr>
                },
            ),
        decreases want - at,
    {
        match file_block(fs, &ib, at as u64) {
            None => {
                assert(got + Seq::<u8>::empty() =~= got);
                return Err(FsErr::Io);
            },
            Some((p, b)) => {
                let n: usize = if want - at < 4096 {
                    want - at
                } else {
                    4096
                };
                put_bytes(out, at, &b[0..n]);
                proof {
                    let part = b@.subrange(0, n as int);
                    let rest = model::data_from(fs@, ib@, at + n, want as int).0;
                    assert(got + (part + rest) =~= (got + part) + rest);
                    got = got + part;
                    assert(out@ =~= bytes::splice(old(out)@, 0, got));
                }
                at += n;
            },
        }
    }
    assert(got + Seq::<u8>::empty() =~= got);
    Ok(at)
}

/// The inode of the regular file that a path names.
fn find_file(fs: &Fs, path: &[char]) -> (r: Result<u32, FsErr>)
    requires
        fs.wf(),
    ensures
        r == model::find_file(fs@, path@),
        r is Ok ==> r->Ok_0 >= 1,
{
    let (p, name) = target(fs, path)?;
    let (ino, ft) = lookup_dir(fs, p, &name)?;
    if ft != DIR_FT_FILE {
        return Err(FsErr::IsDir);
    }
    Ok(ino)
}

/// Reads a file into `out`, as much as fits; returns the number of bytes.
pub fn read_file(fs: &Fs, path: &[char], out: &mut [u8]) -> (r: Result<usize, FsErr>)
    requires
        fs.wf(),
    ensures
        final(out)@ == bytes::splice(
            old(out)@,
            0,
            model::read_file(fs@, path@, old(out)@.len() as int).0,
        ),
        model::read_file(fs@, path@, old(out)@.len() as int).0.len() <= old(out)@.len(),
        r == (match model::read_file(fs@, path@, old(out)@.len() as int) {
            (d, None) => Ok::<usize, FsErr>(d.len() as usize),
            (_, Some(e)) => Err(e),
        }),
{
    assert(bytes::splice(out@, 0, Seq::empty()) =~= out@);
    proof {
        data_fits(fs@, path@, out@.len() as int);
    }
    let ino = find_file(fs, path)?;
    read_file_data(fs, ino, out)
}

/// What `cat` shows of a file, and how it ends.
pub fn cat(fs: &Fs, path: &[char]) -> (r: (Vec<char>, Result<(), FsErr>))
    requires
        fs.wf(),
    ensures
        (r.0@, r.1) == model::cat(fs@, path@),
{
    let mut buf = zeros(8192);
    proof {
        data_fits(fs@, path@, 8192);
    }
    match read_file(fs, path, &mut buf) {
        Err(e) => {
            let none: Vec<char> = Vec::new();
            assert(none@ =~= Seq::empty());
            (none, Err(e))
        },
        Ok(n) => {
            let part = copy_range(&buf, 0, n);
            assert(part@ =~= model::read_file(fs@, path@, 8192).0);
            (show_bytes(&part), Ok(()))
        },
    }
}

/// A read returns no more than fits.
pub proof fn data_fits(s: FsView, path: Seq<char>, room: int)
    requires
        room >= 0,
        s.wf(),
    ensures
        model::read_file(s, path, room).0.len() <= room,
{
    reveal(model::file_data);
    match model::find_file(s, path) {
        Err(_) => {},
        Ok(ino) => match model::inode_load(s, ino) {
            Err(_) => {},
            Ok(raw) => {
                data_from_fits(
                    s,
                    model::ino_extents(raw),
                    0,
                    model::min_int(model::ino_size(raw) as int, room),
                );
            },
        },
    }
}

proof fn data_from_fits(s: FsView, ib: Seq<u8>, at: int, want: int)
    requires
        0 <= at <= want,
        s.wf(),
    ensures
        model::data_from(s, ib, at, want).0.len() <= want - at,
    decreases want - at,
{
    if at < want {
        match model::file_block(s, ib, at) {
            None => {},
            Some((p, b)) => {
                reveal(model::read_block);
                let n = model::min_int(want - at, 4096);
                assert(b.len() == 4096);
                data_from_fits(s, ib, at + n, want);
            },
        }
    }
}

/// Makes an empty file, if there is no entry of that name yet.
pub fn touch(fs: &mut Fs, path: &[char]) -> (r: Result<(), FsErr>)
    requires
        old(fs).wf(),
    ensures
        final(fs).wf(),
        (final(fs)@, r) == model::touch(old(fs)@, path@),
{
    proof {
        reveal(model::touch);
    }
    let (p, name) = target(fs, path)?;
    if lookup_dir(fs, p, &name).is_ok() {
        return Ok(());
    }
    let ino = alloc_inode(fs)?;
    inode_save(fs, ino, &new_inode(MODE_FILE, 1))?;
    dir_add(fs, p, &name, ino, DIR_FT_FILE)
}

/// Writes the first block and the inode of a fresh directory.
pub(crate) fn write_new_dir(fs: &mut Fs, ino: u32, blk: u32, parent: u32) -> (r: Result<(), FsErr>)
    requires
        old(fs).wf(),
        ino >= 1,
    ensures
        final(fs).wf(),
        (final(fs)@, r) == model::write_new_dir(old(fs)@, ino, blk, parent),
{
    proof {
        reveal(model::write_new_dir);
    }
    let mut b = zeros(4096);
    let dot: Vec<u8> = vec![46u8];
    let dotdot: Vec<u8> = vec![46u8, 46u8];
    assert(dot@ =~= seq![46u8]);
    assert(dotdot@ =~= seq![46u8, 46u8]);
    write_dir_entry(&mut b, 0, ino, &dot, DIR_FT_DIR, 12);
    write_dir_entry(&mut b, 12, parent, &dotdot, DIR_FT_DIR, 4084);
    if !write_block(fs, blk, &b) {
        return Err(FsErr::Io);
    }
    let raw = dir_inode(2, blk);
    inode_save(fs, ino, &raw)
}

/// The inode of a directory of one block.
pub(crate) fn dir_inode(links: u16, blk: u32) -> (raw: Vec<u8>)
    ensures
        raw@ == model::dir_inode(links, blk),
        raw@.len() == 256,
{
    let mut raw = new_inode(MODE_DIR, links);
    w32(&mut raw, 4, 4096);
    w32(&mut raw, 28, 8);
    put_bytes(&mut raw, 40, &one_extent(1, blk));
    raw
}

/// Changes the link count of inode `ino` by one.
fn bump_links(fs: &mut Fs, ino: u32, up: bool) -> (r: Result<(), FsErr>)
    requires
        old(fs).wf(),
        ino >= 1,
    ensures
        final(fs).wf(),
        (final(fs)@, r) == model::bump_links(old(fs)@, ino, up),
{
    proof {
        reveal(model::bump_links);
    }
    let mut raw = inode_load(fs, ino)?;
    let links: u16 = r16(&raw, 26);
    let next: u16 = if up {
        ((links as u32 + 1) % 0x1_0000) as u16
    } else if links == 0 {
        0
    } else {
        links - 1
    };
    w16(&mut raw, 26, next);
    inode_save(fs, ino, &raw)
}

/// Makes an empty directory.
pub fn mkdir(fs: &mut Fs, path: &[char]) -> (r: Result<(), FsErr>)
    requires
        old(fs).wf(),
    ensures
        final(fs).wf(),
        (final(fs)@, r) == model::mkdir(old(fs)@, path@),
{
    proof {
        reveal(model::mkdir);
    }
    let (p, name) = target(fs, path)?;
    if lookup_dir(fs, p, &name).is_ok() {
        return Err(FsErr::Exists);
    }
    let nino = alloc_inode(fs)?;
    let dblk = alloc_block(fs)?;
    write_new_dir(fs, nino, dblk, p)?;
    dir_add(fs, p, &name, nino, DIR_FT_DIR)?;
    bump_links(fs, p, true)?;
    bump_used_dirs(fs, (nino - 1) / IPG, true)
}

/// Writes `data` to fresh blocks and appends them to the extents of `raw`.
fn append_data(fs: &mut Fs, raw: &mut Vec<u8>, data: &[u8]) -> (r: Result<(), FsErr>)
    requires
        old(fs).wf(),
        old(raw)@.len() == 256,
    ensures
        final(fs).wf(),
        final(raw)@.len() == 256,
        (final(fs)@, final(raw)@, r) == model::append_data(old(fs)@, old(raw)@, data@, 0),
{
    let total: usize = data.len();
    let mut at: usize = 0;
    while at < total
        invariant
            fs.wf(),
            raw@.len() == 256,
            at <= total == data@.len(),
            model::append_data(
                fs@,
                raw@,
                data@,
                if at == total && total % 4096 != 0 {
                    at - total % 4096 + 4096
                } else {
                    at as int
                },
            ) == model::append_data(old(fs)@, old(raw)@, data@, 0),
            at < total ==> at % 4096 == 0,
        decreases total - at,
    {
        let n: usize = if total - at < 4096 {
            total - at
        } else {
            4096
        };
        let blk = alloc_block(fs)?;
        let mut b = zeros(4096);
        put_bytes(&mut b, 0, &data[at..at + n]);
        if !write_block(fs, blk, &b) {
            return Err(FsErr::Io);
        }
        extent_append(raw, blk)?;
        at += n;
    }
    Ok(())
}

/// Replaces the contents of file `ino`, whose old blocks are free, by `data`.
fn fill_file(fs: &mut Fs, ino: u32, raw0: Vec<u8>, data: &[u8]) -> (r: Result<(), FsErr>)
    requires
        old(fs).wf(),
        ino >= 1,
        raw0@.len() == 256,
    ensures
        final(fs).wf(),
        (final(fs)@, r) == model::fill_file(old(fs)@, ino, raw0@, data@),
{
    proof {
        reveal(model::fill_file);
    }
    let mut raw = raw0;
    w16(&mut raw, 0, MODE_FILE);
    w32(&mut raw, 4, 0);
    w32(&mut raw, 108, 0);
    w32(&mut raw, 28, 0);
    zero_range(&mut raw, 40, 60);
    w16(&mut raw, 26, 1);
    // an aborted write leaves a valid empty file behind
    inode_save(fs, ino, &raw)?;
    if data.len() == 0 {
        return Ok(());
    }
    match append_data(fs, &mut raw, data) {
        Ok(()) => {
            let len: u128 = data.len() as u128;
            w32(&mut raw, 4, (len % 0x1_0000_0000) as u32);
            w32(&mut raw, 28, ((len + 4095) / 4096 * 8 % 0x1_0000_0000) as u32);
            w16(&mut raw, 26, 1);
            inode_save(fs, ino, &raw)
        },
        Err(e) => {
            free_extents(fs, &raw)?;
            zero_range(&mut raw, 40, 60);
            w32(&mut raw, 108, 0);
            w32(&mut raw, 28, 0);
            inode_save(fs, ino, &raw)?;
            Err(e)
        },
    }
}

/// Writes a file: makes it where it is not there, replaces its contents where
/// it is.
pub fn write_file(fs: &mut Fs, path: &[char], data: &[u8]) -> (r: Result<(), FsErr>)
    requires
        old(fs).wf(),
    ensures
        final(fs).wf(),
        (final(fs)@, r) == model::write_file(old(fs)@, path@, data@),
{
    proof {
        reveal(model::write_file);
    }
    let (p, name) = target(fs, path)?;
    match lookup_dir(fs, p, &name) {
        Ok((ino, ft)) => {
            if ft != DIR_FT_FILE {
                return Err(FsErr::IsDir);
            }
            let raw = inode_load(fs, ino)?;
            free_extents(fs, &raw)?;
            fill_file(fs, ino, raw, data)
        },
        Err(_) => {
            let ino = alloc_inode(fs)?;
            dir_add(fs, p, &name, ino, DIR_FT_FILE)?;
            fill_file(fs, ino, new_inode(MODE_FILE, 1), data)
        },
    }
}

/// Frees the blocks and the inode of `ino` and removes the entry `name`.
fn unlink(fs: &mut Fs, dir: u32, name: &[u8], ino: u32) -> (r: Result<(), FsErr>)
    requires
        old(fs).wf(),
        dir >= 1,
        ino >= 1,
        name@.len() <= 255,
    ensures
        final(fs).wf(),
        (final(fs)@, r) == model::unlink(old(fs)@, dir, name@, ino),
{
    proof {
        reveal(model::unlink);
    }
    let raw = inode_load(fs, ino)?;
    free_extents(fs, &raw)?;
    free_inode(fs, ino)?;
    dir_del(fs, dir, name)
}

/// Removes a regular file.
pub fn rm(fs: &mut Fs, path: &[char]) -> (r: Result<(), FsErr>)
    requires
        old(fs).wf(),
    ensures
        final(fs).wf(),
        (final(fs)@, r) == model::rm(old(fs)@, path@),
{
    proof {
        reveal(model::rm);
    }
    let (p, name) = target(fs, path)?;
    let (ino, ft) = lookup_dir(fs, p, &name)?;
    if ft != DIR_FT_FILE {
        return Err(FsErr::IsDir);
    }
    unlink(fs, p, &name, ino)
}

/// Some entry has a name other than `.` and `..`.
fn has_other_names(es: &Vec<DirEnt>) -> (r: bool)
    ensures
        r == model::has_other_names(list_view(es@)),
{
    let dot: Vec<u8> = vec![46u8];
    let dotdot: Vec<u8> = vec![46u8, 46u8];
    assert(dot@ =~= seq![46u8]);
    assert(dotdot@ =~= seq![46u8, 46u8]);
    let mut k: usize = 0;
    while k < es.len()
        invariant
            k <= es@.len(),
            dot@ == seq![46u8],
            dotdot@ == seq![46u8, 46u8],
            forall|i: int|
                0 <= i < k ==> model::is_dot_name(#[trigger] list_view(es@)[i].name),
        decreases es@.len() - k,
    {
        if !bytes::same_bytes(&es[k].name, &dot) && !bytes::same_bytes(&es[k].name, &dotdot) {
            assert(!model::is_dot_name(list_view(es@)[k as int].name));
            return true;
        }
        k += 1;
    }
    false
}

/// Removes an empty directory.
pub fn rmdir(fs: &mut Fs, path: &[char]) -> (r: Result<(), FsErr>)
    requires
        old(fs).wf(),
    ensures
        final(fs).wf(),
        (final(fs)@, r) == model::rmdir(old(fs)@, path@),
{
    proof {
        reveal(model::rmdir);
    }
    let (p, name) = target(fs, path)?;
    let (ino, ft) = lookup_dir(fs, p, &name)?;
    if ft != DIR_FT_DIR {
        return Err(FsErr::NotDir);
    }
    let (es, err) = walk_dir(fs, ino);
    if has_other_names(&es) {
        return Err(FsErr::NotEmpty);
    }
    if let Some(e) = err {
        return Err(e);
    }
    unlink(fs, p, &name, ino)?;
    bump_links(fs, p, false)?;
    bump_used_dirs(fs, (ino - 1) / IPG, false)
}

/// Renames or moves an entry; never replaces one.
pub fn mv(fs: &mut Fs, old_path: &[char], new_path: &[char]) -> (r: Result<(), FsErr>)
    requires
        old(fs).wf(),
    ensures
        final(fs).wf(),
        (final(fs)@, r) == model::mv(old(fs)@, old_path@, new_path@),
{
    proof {
        reveal(model::mv);
    }
    let (op, oname) = target(fs, old_path)?;
    let (ino, ft) = lookup_dir(fs, op, &oname)?;
    let (np, nname) = target(fs, new_path)?;
    if lookup_dir(fs, np, &nname).is_ok() {
        return Err(FsErr::Exists);
    }
    dir_add(fs, np, &nname, ino, ft)?;
    dir_del(fs, op, &oname)
}

// ---------- mkfs ----------

/// Writes a fresh volume that starts at sector `base`, and mounts it.
pub fn mkfs_at(fs: &mut Fs, base: u32) -> (r: Result<(), FsErr>)
    requires
        old(fs).wf(),
    ensures
        final(fs).wf(),
        (final(fs)@, r) == layout::mkfs_at(old(fs)@, base),
{
    proof {
        reveal(layout::mkfs_at);
    }
    fs.jbd = None;
    fs.base = base;
    assert(fs@ =~= FsView { jbd: None, base, ..old(fs)@ });
    let sectors: u64 = match &fs.dev {
        None => return Err(FsErr::NoDevice),
        Some(d) => d.sectors,
    };
    let i = format::fresh_info(sectors)?;
    format::write_metadata(fs, i)?;
    format::make_journal(fs)?;
    let inos = format::make_seeds(fs)?;
    format::make_root(fs, &inos)?;
    mount_at(fs, base)
}

} // verus!
