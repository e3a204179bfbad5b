//! Directories: walking, name lookup, adding and removing entries.

use vstd::prelude::*;
use crate::bytes::{copy_range, put_bytes, r16, r32, same_bytes, w16, w32, zero_range, zeros};
use crate::ext4::extent::{alloc_block, extent_append, extent_map};
use crate::ext4::journal::{read_block, write_block};
use crate::ext4::model;
use crate::ext4::volume::{ino_extents, ino_size, inode_load, inode_save, is_dir_mode};
use crate::fs::{Cwd, Fs, FsErr};
use crate::path::{pop_comp, split_parent};
use crate::path;

verus! {

const INODE_ROOT: u32 = 2;

const DIR_FT_DIR: u8 = 2;

/// A used entry of a directory.
pub struct DirEnt {
    pub ino: u32,
    pub ftype: u8,
    pub name: Vec<u8>,
}

impl View for DirEnt {
    type V = model::Entry;

    open spec fn view(&self) -> model::Entry {
        model::Entry { ino: self.ino, ftype: self.ftype, name: self.name@ }
    }
}

/// The entries of a list.
pub open spec fn list_view(v: Seq<DirEnt>) -> Seq<model::Entry> {
    Seq::new(v.len(), |i: int| v[i]@)
}

/// No entry of the list names inode 0.
pub open spec fn list_used(v: Seq<DirEnt>) -> bool {
    forall|i: int| 0 <= i < v.len() ==> (#[trigger] v[i]).ino >= 1
}

/// Appends the used entries of a directory block; says whether the run of
/// entries ends in a damaged one.
fn block_entries(b: &[u8], out: &mut Vec<DirEnt>) -> (bad: bool)
    requires
        b@.len() == 4096,
        list_used(old(out)@),
    ensures
        list_view(final(out)@) == list_view(old(out)@) + model::block_entries(b@, 0).0,
        bad == model::block_entries(b@, 0).1,
        list_used(final(out)@),
{
    let mut o: usize = 0;
    assert(list_view(out@) + model::block_entries(b@, 0).0 =~= list_view(old(out)@)
        + model::block_entries(b@, 0).0);
    while o + 8 <= 4096
        invariant
            b@.len() == 4096,
            o <= 4096,
            list_used(out@),
            list_view(out@) + model::block_entries(b@, o as int).0 == list_view(old(out)@)
                + model::block_entries(b@, 0).0,
            model::block_entries(b@, o as int).1 == model::block_entries(b@, 0).1,
        decreases 4096 - o,
    {
        let ino: u32 = r32(b, o);
        let rec: usize = r16(b, o + 4) as usize;
        if rec == 0 || o + rec > 4096 {
            assert(list_view(out@) + Seq::<model::Entry>::empty() =~= list_view(out@));
            return false;
        }
        if ino != 0 {
            let nl: usize = b[o + 6] as usize;
            if o + 8 + nl > 4096 {
                assert(list_view(out@) + Seq::<model::Entry>::empty() =~= list_view(out@));
                return true;
            }
            let ghost before = list_view(out@);
            let e = DirEnt { ino, ftype: b[o + 7], name: copy_range(b, o + 8, nl) };
            let ghost ev = e@;
            out.push(e);
            proof {
                let rest = model::block_entries(b@, o + rec).0;
                assert(list_view(out@) =~= before.push(ev));
                assert(before + (seq![ev] + rest) =~= list_view(out@) + rest);
            }
        }
        o += rec;
    }
    assert(list_view(out@) + Seq::<model::Entry>::empty() =~= list_view(out@));
    false
}

/// The logical block number of a file offset.
fn logical_of(off: u64) -> (l: u32)
    ensures
        l == model::logical_of(off as int),
{
    (off / 4096 % 0x1_0000_0000) as u32
}

/// The number and the contents of the block that holds a file offset.
pub(crate) fn file_block(fs: &Fs, ib: &[u8], off: u64) -> (r: Option<(u32, Vec<u8>)>)
    requires
        fs.wf(),
        ib@.len() == 60,
    ensures
        match (r, model::file_block(fs@, ib@, off as int)) {
            (Some((p, b)), Some((q, m))) => p == q && b@ == m && m.len() == 4096,
            (None, None) => true,
            _ => false,
        },
{
    match extent_map(fs, ib, logical_of(off)) {
        None => None,
        Some(p) => match read_block(fs, p as u64) {
            None => None,
            Some(b) => Some((p, b)),
        },
    }
}

/// The used entries of directory `dir`, and the error that the walk ends in.
pub(crate) fn walk_dir(fs: &Fs, dir: u32) -> (r: (Vec<DirEnt>, Option<FsErr>))
    requires
        fs.wf(),
        dir >= 1,
    ensures
        (list_view(r.0@), r.1) == model::dir_entries(fs@, dir),
        list_used(r.0@),
{
    proof {
        reveal(model::dir_entries);
    }
    let mut out: Vec<DirEnt> = Vec::new();
    assert(list_view(out@) =~= Seq::empty());
    let raw = match inode_load(fs, dir) {
        Err(e) => return (out, Some(e)),
        Ok(raw) => raw,
    };
    if !is_dir_mode(&raw) {
        return (out, Some(FsErr::NotDir));
    }
    let size: u64 = ino_size(&raw);
    let ib = ino_extents(&raw);
    let mut off: u64 = 0;
    let mut done: bool = false;
    let ghost all = model::entries_from(fs@, ib@, 0, size as int);
    assert(list_view(out@) + all.0 =~= all.0);
    while !done && off < size
        invariant
            fs.wf(),
            ib@.len() == 60,
            list_used(out@),
            off % 4096 == 0,
            all == model::entries_from(fs@, ib@, 0, size as int),
            model::dir_entries(fs@, dir) == all,
            done ==> list_view(out@) == all.0 && all.1 is None,
            !done ==> list_view(out@) + model::entries_from(fs@, ib@, off as int, size as int).0
                == all.0 && all.1 == model::entries_from(fs@, ib@, off as int, size as int).1,
        decreases
                if done {
                    0
                } else {
                    size + 4097 - off
                },
    {
        match file_block(fs, &ib, off) {
            None => {
                assert(list_view(out@) + Seq::<model::Entry>::empty() =~= list_view(out@));
                return (out, Some(FsErr::Io));
            },
            Some((p, b)) => {
                let ghost before = list_view(out@);
                let ghost es = model::block_entries(b@, 0).0;
                let ghost rest = model::entries_from(fs@, ib@, off + 4096, size as int).0;
                let bad = block_entries(&b, &mut out);
                if bad {
                    return (out, Some(FsErr::Io));
                }
                assert(before + (es + rest) =~= list_view(out@) + rest);
                if off > u64::MAX - 4096 {
                    assert(list_view(out@) + Seq::<model::Entry>::empty() =~= list_view(out@));
                    done = true;
                } else {
                    off += 4096;
                }
            },
        }
    }
    assert(list_view(out@) + Seq::<model::Entry>::empty() =~= list_view(out@));
    (out, None)
}

/// The first entry with the name.
fn find_entry(es: &Vec<DirEnt>, name: &[u8]) -> (r: Option<(u32, u8)>)
    requires
        list_used(es@),
    ensures
        r == (match model::entry_named(list_view(es@), name@) {
            Some(e) => Some((e.ino, e.ftype)),
            None => None::<(u32, u8)>,
        }),
        r is Some ==> (r->0).0 >= 1,
{
    let mut k: usize = 0;
    let ghost all = list_view(es@);
    assert(all.skip(0) =~= all);
    while k < es.len()
        invariant
            k <= es@.len(),
            list_used(es@),
            all == list_view(es@),
            model::entry_named(all, name@) == model::entry_named(all.skip(k as int), name@),
        decreases es@.len() - k,
    {
        assert(all.skip(k as int)[0] == es@[k as int]@);
        assert(all.skip(k as int).skip(1) =~= all.skip(k + 1));
        if same_bytes(&es[k].name, name) {
            return Some((es[k].ino, es[k].ftype));
        }
        k += 1;
    }
    None
}

/// The inode and the type of the entry `name` of directory `dir`.
pub(crate) fn lookup_dir(fs: &Fs, dir: u32, name: &[u8]) -> (r: Result<(u32, u8), FsErr>)
    requires
        fs.wf(),
        dir >= 1,
    ensures
        r == model::lookup_dir(fs@, dir, name@),
        r is Ok ==> r->Ok_0.0 >= 1,
{
    proof {
        reveal(model::lookup_dir);
    }
    let (es, err) = walk_dir(fs, dir);
    match find_entry(&es, name) {
        Some(x) => Ok(x),
        None => match err {
            Some(e) => Err(e),
            None => Err(FsErr::NotFound),
        },
    }
}

/// The bytes of a name: 1 to 255 printable ASCII characters, none a slash.
pub(crate) fn name_bytes(comp: &[char]) -> (r: Result<Vec<u8>, FsErr>)
    ensures
        crate::fs::res_view(r) == model::name_bytes(comp@),
        r is Ok ==> 1 <= r->Ok_0@.len() <= 255,
{
    let n: usize = comp.len();
    if n == 0 || n > 255 {
        return Err(FsErr::BadName);
    }
    let mut out: Vec<u8> = Vec::new();
    let mut k: usize = 0;
    while k < n
        invariant
            k <= n <= 255,
            n == comp@.len(),
            n >= 1,
            out@.len() == k,
            forall|i: int| 0 <= i < k ==> model::name_char(#[trigger] comp@[i]),
            forall|i: int| 0 <= i < k ==> #[trigger] out@[i] == comp@[i] as u8,
        decreases n - k,
    {
        let c: char = comp[k];
        if (c as u32) >= 0x80 || (c as u32) < 0x20 || c == '/' {
            assert(!model::name_char(comp@[k as int]));
            return Err(FsErr::BadName);
        }
        out.push(c as u8);
        assert(model::name_char(comp@[k as int]));
        assert(out@[k as int] == comp@[k as int] as u8);
        k += 1;
    }
    assert(out@ =~= Seq::new(comp@.len(), |i: int| comp@[i] as u8));
    Ok(out)
}

/// Follows the directories that a path names from directory `dir`.
fn resolve(fs: &Fs, dir: u32, p: &[char]) -> (r: Result<u32, FsErr>)
    requires
        fs.wf(),
        dir >= 1,
    ensures
        r == model::follow(fs@, dir, path::components(p@)),
        r is Ok ==> r->Ok_0 >= 1,
{
    let mut ino: u32 = dir;
    let mut rest: &[char] = p;
    loop
        invariant
            fs.wf(),
            ino >= 1,
            model::follow(fs@, dir, path::components(p@)) == model::follow(
                fs@,
                ino,
                path::components(rest@),
            ),
        decreases rest@.len(),
    {
        match pop_comp(rest) {
            None => {
                return Ok(ino);
            },
            Some((comp, tail)) => {
                proof {
                    let all = path::components(rest@);
                    assert(all[0] == comp@);
                    assert(all.skip(1) =~= path::components(tail@));
                }
                let name = name_bytes(comp)?;
                let (i, ft) = lookup_dir(fs, ino, &name)?;
                if ft != DIR_FT_DIR {
                    return Err(FsErr::NotDir);
                }
                ino = i;
                rest = tail;
            },
        }
    }
}

/// Follows the names of a current directory from the root.
pub(crate) fn walk_cwd(fs: &Fs, cwd: &Cwd) -> (r: Result<u32, FsErr>)
    requires
        fs.wf(),
    ensures
        r == model::follow_parts(fs@, 2, cwd@),
        r is Ok ==> r->Ok_0 >= 1,
{
    let mut ino: u32 = INODE_ROOT;
    let mut k: usize = 0;
    assert(cwd@.skip(0) =~= cwd@);
    while k < cwd.parts.len()
        invariant
            fs.wf(),
            ino >= 1,
            k <= cwd@.len(),
            cwd@.len() == cwd.parts@.len(),
            model::follow_parts(fs@, 2, cwd@) == model::follow_parts(
                fs@,
                ino,
                cwd@.skip(k as int),
            ),
        decreases cwd@.len() - k,
    {
        assert(cwd@.skip(k as int)[0] == cwd.parts@[k as int]@);
        assert(cwd@.skip(k as int).skip(1) =~= cwd@.skip(k + 1));
        let (i, ft) = lookup_dir(fs, ino, &cwd.parts[k])?;
        if ft != DIR_FT_DIR {
            return Err(FsErr::NotDir);
        }
        ino = i;
        k += 1;
    }
    Ok(ino)
}

/// The directory that a path names, from the root or the current directory.
pub(crate) fn resolve_from_cwd(fs: &Fs, p: &[char]) -> (r: Result<u32, FsErr>)
    requires
        fs.wf(),
    ensures
        r == model::resolve_from_cwd(fs@, p@),
        r is Ok ==> r->Ok_0 >= 1,
{
    proof {
        reveal(model::resolve_from_cwd);
    }
    if p.len() > 0 && p[0] == '/' {
        resolve(fs, INODE_ROOT, p)
    } else {
        let d = walk_cwd(fs, &fs.cwd)?;
        resolve(fs, d, p)
    }
}

/// The directory and the name that a path stands for.
pub(crate) fn target(fs: &Fs, p: &[char]) -> (r: Result<(u32, Vec<u8>), FsErr>)
    requires
        fs.wf(),
    ensures
        match (r, model::target(fs@, p@)) {
            (Ok((d, n)), Ok((e, m))) => d == e && n@ == m && d >= 1 && 1 <= m.len() <= 255,
            (Err(e), Err(x)) => e == x,
            _ => false,
        },
{
    proof {
        reveal(model::target);
    }
    let (parent, leaf) = split_parent(p);
    let d = resolve_from_cwd(fs, parent)?;
    let n = name_bytes(leaf)?;
    Ok((d, n))
}

// ---------- entries ----------

fn slot_in_block(b: &[u8], need: usize) -> (r: Option<(usize, usize)>)
    requires
        b@.len() == 4096,
    ensures
        match (r, model::slot_in_block(b@, 0, need as int)) {
            (Some((o, n)), Some((p, m))) => o == p && n == m && o + n <= 4096 && n >= need && o + 8
                <= 4096,
            (None, None) => true,
            _ => false,
        },
{
    let mut o: usize = 0;
    while o + 8 <= 4096
        invariant
            b@.len() == 4096,
            o <= 4096,
            model::slot_in_block(b@, 0, need as int) == model::slot_in_block(
                b@,
                o as int,
                need as int,
            ),
        decreases 4096 - o,
    {
        let ino: u32 = r32(b, o);
        let rec: usize = r16(b, o + 4) as usize;
        if ino == 0 && rec == 0 {
            if 4096 - o >= need {
                return Some((o, 4096 - o));
            }
            return None;
        }
        if rec == 0 || o + rec > 4096 {
            return None;
        }
        if ino == 0 && rec >= need {
            return Some((o, rec));
        }
        o += rec;
    }
    None
}

/// Finds a slot with room for `need` bytes: the block, the offset in it, and
/// the size of the slot.
fn dir_find_slot(fs: &Fs, dir: u32, need: usize) -> (r: Result<(u32, usize, usize), FsErr>)
    requires
        fs.wf(),
        dir >= 1,
    ensures
        match (r, model::dir_find_slot(fs@, dir, need as int)) {
            (Ok((p, o, n)), Ok((q, x, m))) => p == q && o == x && n == m && o + n <= 4096 && n
                >= need && o + 8 <= 4096,
            (Err(e), Err(x)) => e == x,
            _ => false,
        },
{
    proof {
        reveal(model::dir_find_slot);
    }
    let raw = inode_load(fs, dir)?;
    let size: u64 = ino_size(&raw);
    let ib = ino_extents(&raw);
    let mut off: u64 = 0;
    while off < size
        invariant
            fs.wf(),
            ib@.len() == 60,
            model::dir_find_slot(fs@, dir, need as int) == model::slot_from(
                fs@,
                ib@,
                off as int,
                size as int,
                need as int,
            ),
        decreases size + 4096 - off,
    {
        match file_block(fs, &ib, off) {
            None => return Err(FsErr::Io),
            Some((p, b)) => {
                if let Some((o, n)) = slot_in_block(&b, need) {
                    return Ok((p, o, n));
                }
            },
        }
        if off > u64::MAX - 4096 {
            assert(model::slot_from(fs@, ib@, off + 4096, size as int, need as int) == Err::<
                (u32, int, int),
                FsErr,
            >(FsErr::NoSpace));
            return Err(FsErr::NoSpace);
        }
        off += 4096;
    }
    Err(FsErr::NoSpace)
}

/// Adds a zeroed block at the end of a directory.
fn dir_grow(fs: &mut Fs, dir: u32) -> (r: Result<(), FsErr>)
    requires
        old(fs).wf(),
        dir >= 1,
    ensures
        final(fs).wf(),
        (final(fs)@, r) == model::dir_grow(old(fs)@, dir),
{
    proof {
        reveal(model::dir_grow);
    }
    let mut raw = inode_load(fs, dir)?;
    let blk = alloc_block(fs)?;
    if !write_block(fs, blk, &zeros(4096)) {
        return Err(FsErr::Io);
    }
    extent_append(&mut raw, blk)?;
    let size: u128 = ino_size(&raw) as u128 + 4096;
    let blocks: u64 = r32(&raw, 28) as u64 + 8;
    w32(&mut raw, 4, (size % 0x1_0000_0000) as u32);
    w32(&mut raw, 108, (size / 0x1_0000_0000 % 0x1_0000_0000) as u32);
    w32(&mut raw, 28, (blocks % 0x1_0000_0000) as u32);
    inode_save(fs, dir, &raw)
}

/// Writes a directory entry at offset `o` of a block.
pub(crate) fn write_dir_entry(
    b: &mut Vec<u8>,
    o: usize,
    ino: u32,
    name: &[u8],
    ftype: u8,
    rec: usize,
)
    requires
        old(b)@.len() == 4096,
        o + 8 + name@.len() <= 4096,
        name@.len() <= 255,
        rec <= 4096,
    ensures
        final(b)@ == model::put_entry(old(b)@, o as int, ino, name@, ftype, rec as int),
        final(b)@.len() == 4096,
{
    w32(b, o, ino);
    w16(b, o + 4, rec as u16);
    b[o + 6] = name.len() as u8;
    b[o + 7] = ftype;
    put_bytes(b, o + 8, name);
}

pub(crate) fn align4(v: usize) -> (r: usize)
    requires
        v <= 4096,
    ensures
        r == model::align4(v as int),
        v <= r < v + 4,
{
    (v + 3) / 4 * 4
}

/// A slot with room for `need` bytes; the directory grows where it has none.
fn make_slot(fs: &mut Fs, dir: u32, need: usize) -> (r: Result<(u32, usize, usize), FsErr>)
    requires
        old(fs).wf(),
        dir >= 1,
    ensures
        final(fs).wf(),
        final(fs)@ == model::make_slot(old(fs)@, dir, need as int).0,
        match (r, model::make_slot(old(fs)@, dir, need as int).1) {
            (Ok((p, o, n)), Ok((q, x, m))) => p == q && o == x && n == m && o + n <= 4096 && n
                >= need && o + 8 <= 4096,
            (Err(e), Err(x)) => e == x,
            _ => false,
        },
{
    proof {
        reveal(model::make_slot);
    }
    match dir_find_slot(fs, dir, need) {
        Ok(x) => Ok(x),
        Err(e) => {
            if e != FsErr::NoSpace {
                return Err(e);
            }
            dir_grow(fs, dir)?;
            dir_find_slot(fs, dir, need)
        },
    }
}

pub(crate) fn dir_add(fs: &mut Fs, dir: u32, name: &[u8], child: u32, ftype: u8) -> (r: Result<
    (),
    FsErr,
>)
    requires
        old(fs).wf(),
        dir >= 1,
        name@.len() <= 255,
    ensures
        final(fs).wf(),
        (final(fs)@, r) == model::dir_add(old(fs)@, dir, name@, child, ftype),
{
    proof {
        reveal(model::dir_add);
    }
    let need: usize = align4(8 + name.len());
    let (phys, off, avail) = make_slot(fs, dir, need)?;
    let mut b = match read_block(fs, phys as u64) {
        None => return Err(FsErr::Io),
        Some(b) => b,
    };
    if avail - need >= 8 {
        write_dir_entry(&mut b, off, child, name, ftype, need);
        let none: Vec<u8> = Vec::new();
        assert(none@ =~= Seq::<u8>::empty());
        write_dir_entry(&mut b, off + need, 0, &none, 0, avail - need);
    } else {
        write_dir_entry(&mut b, off, child, name, ftype, avail);
    }
    if !write_block(fs, phys, &b) {
        return Err(FsErr::Io);
    }
    Ok(())
}

/// The offset of the first used entry with the name.
fn entry_off(b: &[u8], name: &[u8]) -> (r: Option<usize>)
    requires
        b@.len() == 4096,
        name@.len() <= 255,
    ensures
        match (r, model::entry_off(b@, 0, name@)) {
            (Some(o), Some(m)) => o == m && o + 8 <= 4096,
            (None, None) => true,
            _ => false,
        },
{
    let mut o: usize = 0;
    while o + 8 <= 4096
        invariant
            b@.len() == 4096,
            name@.len() <= 255,
            o <= 4096,
            model::entry_off(b@, 0, name@) == model::entry_off(b@, o as int, name@),
        decreases 4096 - o,
    {
        let rec: usize = r16(b, o + 4) as usize;
        if rec == 0 || o + rec > 4096 {
            return None;
        }
        let nl: usize = name.len();
        if r32(b, o) != 0 && b[o + 6] as usize == nl && o + 8 + nl <= 4096 && same_bytes(
            &b[o + 8..o + 8 + nl],
            name,
        ) {
            return Some(o);
        }
        o += rec;
    }
    None
}

/// Marks the first entry with the name unused.
pub(crate) fn dir_del(fs: &mut Fs, dir: u32, name: &[u8]) -> (r: Result<(), FsErr>)
    requires
        old(fs).wf(),
        dir >= 1,
        name@.len() <= 255,
    ensures
        final(fs).wf(),
        (final(fs)@, r) == model::dir_del(old(fs)@, dir, name@),
{
    proof {
        reveal(model::dir_del);
    }
    let raw = inode_load(fs, dir)?;
    let size: u64 = ino_size(&raw);
    let ib = ino_extents(&raw);
    let mut off: u64 = 0;
    while off < size
        invariant
            fs.wf(),
            fs@ == old(fs)@,
            ib@.len() == 60,
            name@.len() <= 255,
            model::dir_del(old(fs)@, dir, name@) == model::del_from(
                fs@,
                ib@,
                off as int,
                size as int,
                name@,
            ),
        decreases size + 4096 - off,
    {
        match file_block(fs, &ib, off) {
            None => return Err(FsErr::Io),
            Some((p, block)) => {
                let mut b = block;
                if let Some(o) = entry_off(&b, name) {
                    zero_range(&mut b, o, 4);
                    if !write_block(fs, p, &b) {
                        return Err(FsErr::Io);
                    }
                    return Ok(());
                }
            },
        }
        if off > u64::MAX - 4096 {
            assert(model::del_from(fs@, ib@, off + 4096, size as int, name@).1 == Err::<
                (),
                FsErr,
            >(FsErr::NotFound));
            return Err(FsErr::NotFound);
        }
        off += 4096;
    }
    Err(FsErr::NotFound)
}

} // verus!
