//! FAT32 driver: 8.3 names, no long names, files of up to 64 KiB.

use vstd::prelude::*;
use crate::bytes;
use crate::bytes::{put_bytes, r16, r32, w16, w32, zeros};
use crate::fat::dir::{
    add_entry, cluster_from_cwd, entry_view, find_free_slot, find_pos, list_view, look_up,
    match_in_dir, resolve_from_cwd, target, walk_dir, wipe_entry_at, write_entry_at, DirEntry,
};
use crate::fat::volume::{
    alloc_cluster, free_chain, goes_on, info, lower, part_83, read_clus, read_fat, sector_of,
    write_clus, write_fat,
};
use crate::fs::{
    listing_view, raw_read, raw_write, show_bytes, Cwd, FatInfo, Fs, FsErr, FsKind, FsView, Listing,
};

pub mod copies;
pub mod data;
pub mod dir;
pub mod erasing;
pub mod fresh;
pub mod keeping;
pub mod laws;
pub mod model;
pub mod moving;
pub mod slots;
pub mod sound;
pub mod table;
pub mod tidy;
pub mod tree;
pub mod volume;

verus! {

const ATTR_DIRECTORY: u8 = 0x10;

const ATTR_ARCHIVE: u8 = 0x20;

const FAT_EOC: u32 = 0x0FFF_FFF8;

pub const MAX_FILE: usize = 65536;

// ---------- mount ----------

/// What a boot sector says of the volume.
fn boot_info(b: &[u8]) -> (r: Result<FatInfo, FsErr>)
    requires
        b@.len() == 512,
    ensures
        r == model::boot_info(b@),
        r is Ok ==> model::info_wf(r->Ok_0),
{
    if b[510] != 0x55 || b[511] != 0xAA {
        return Err(FsErr::NotFormatted);
    }
    let spc: u8 = b[13];
    let rsvd: u32 = r16(b, 14) as u32;
    let fats: u8 = b[16];
    let tot: u32 = r32(b, 32);
    let size: u32 = r32(b, 36);
    let root: u32 = r32(b, 44);
    if r16(b, 11) != 512 || spc == 0 || spc > 128 || rsvd == 0 || fats == 0 || fats > 4 || tot
        < 70000 || r16(b, 22) != 0 || size == 0 || root < 2 {
        return Err(FsErr::NotFormatted);
    }
    assert(1 <= fats * size <= 4 * 0xFFFF_FFFF) by (nonlinear_arith)
        requires
            1 <= fats <= 4,
            1 <= size <= 0xFFFF_FFFF,
    ;
    let start: u64 = rsvd as u64 + fats as u64 * size as u64;
    if start >= tot as u64 {
        return Err(FsErr::NotFormatted);
    }
    let count: u32 = (tot - start as u32) / (spc as u32);
    assert(count <= tot - start) by (nonlinear_arith)
        requires
            count == (tot - start as u32) / (spc as int),
            spc >= 1,
            start < tot,
            start as u32 == start,
    ;
    if count < 65525 {
        return Err(FsErr::NotFormatted);
    }
    Ok(
        FatInfo {
            sec_per_clus: spc as u32,
            rsvc: rsvd,
            num_fats: fats as u32,
            fat_size: size,
            root_clus: root,
            data_start: start as u32,
            cluster_count: count,
        },
    )
}

/// Mounts the volume that starts at sector `base`.
pub fn mount_at(fs: &mut Fs, base: u32) -> (r: Result<(), FsErr>)
    requires
        old(fs).wf(),
    ensures
        final(fs).wf(),
        (final(fs)@, r) == model::mount_at(old(fs)@, base),
{
    fs.base = base;
    assert(fs@ =~= FsView { base, ..old(fs)@ });
    if fs.dev.is_none() {
        return Err(FsErr::NoDevice);
    }
    let b = match raw_read(fs, 0) {
        None => return Err(FsErr::Io),
        Some(b) => b,
    };
    let i = boot_info(&b)?;
    let ghost s1 = fs@;
    fs.fat = Some(i);
    fs.mount = Some(FsKind::Fat);
    assert(fs@ =~= FsView { fat: Some(i), mount: Some(FsKind::Fat), ..s1 });
    Ok(())
}

/// The directory that the names lead to is there.
pub fn check_dir(fs: &Fs, cwd: &Cwd) -> (r: Result<(), FsErr>)
    requires
        fs.wf(),
    ensures
        r == model::check_dir(fs@, cwd@),
{
    let i = info(fs)?;
    cluster_from_cwd(fs, &i, cwd)?;
    Ok(())
}

// ---------- commands ----------

/// The name of an entry as a listing shows it.
fn shown_name(name: &Vec<u8>) -> (r: Vec<char>)
    requires
        name@.len() == 11,
    ensures
        r@ == model::shown_name(name@),
{
    let mut r: Vec<char> = Vec::new();
    let mut k: usize = 0;
    while k < 8 && name[k] != 32
        invariant
            name@.len() == 11,
            k <= 8,
            r@.len() == k,
            forall|j: int| 0 <= j < k ==> r@[j] == model::lower(name@[j]) as char,
            model::stem_len(name@, 0) == model::stem_len(name@, k as int),
        decreases 8 - k,
    {
        r.push(lower(name[k]) as char);
        k += 1;
    }
    let ghost stem = Seq::new(
        model::stem_len(name@, 0) as nat,
        |k: int| model::lower(name@[k]) as char,
    );
    assert(r@ =~= stem);
    if name[8] != 32 {
        r.push('.');
        let ghost head = r@;
        assert(head =~= stem + seq!['.']);
        let mut j: usize = 8;
        while j < 11
            invariant
                name@.len() == 11,
                8 <= j <= 11,
                r@ + model::shown_ext(name@, j as int) == head + model::shown_ext(name@, 8),
            decreases 11 - j,
        {
            if name[j] != 32 {
                let ghost before = r@;
                let c: char = lower(name[j]) as char;
                r.push(c);
                assert(before + (seq![c] + model::shown_ext(name@, j + 1)) =~= r@
                    + model::shown_ext(name@, j + 1));
            }
            j += 1;
        }
        assert(r@ + model::shown_ext(name@, 11) =~= r@);
    }
    r
}

/// The lines of a directory listing, and how the listing ends.
pub fn ls(fs: &Fs, path: &[char]) -> (r: (Vec<Listing>, Result<(), FsErr>))
    requires
        fs.wf(),
    ensures
        (listing_view(r.0@), r.1) == model::ls(fs@, path@),
{
    let mut out: Vec<Listing> = Vec::new();
    assert(listing_view(out@) =~= Seq::empty());
    let i = match info(fs) {
        Err(e) => return (out, Err(e)),
        Ok(i) => i,
    };
    let d = match resolve_from_cwd(fs, &i, path) {
        Err(e) => return (out, Err(e)),
        Ok(d) => d,
    };
    let es = walk_dir(fs, &i, d);
    let mut k: usize = 0;
    while k < es.len()
        invariant
            k <= es@.len(),
            dir::names_whole(es@),
            listing_view(out@) == Seq::new(
                k as nat,
                |j: int| model::listing_of(list_view(es@)[j]),
            ),
        decreases es@.len() - k,
    {
        let e = &es[k];
        let is_dir = e.is_dir();
        let l = Listing {
            name: shown_name(&e.name),
            is_dir,
            size: if is_dir {
                None
            } else {
                Some(e.size as u64)
            },
        };
        let ghost lv = l@;
        assert(lv =~= model::listing_of(list_view(es@)[k as int]));
        let ghost before = listing_view(out@);
        out.push(l);
        assert(listing_view(out@) =~= before.push(lv));
        k += 1;
        assert(listing_view(out@) =~= Seq::new(
            k as nat,
            |j: int| model::listing_of(list_view(es@)[j]),
        ));
    }
    (out, Ok(()))
}

/// The name of the entry `.` (one dot) or `..` (two dots).
fn dots(n: usize) -> (r: Vec<u8>)
    ensures
        r@ == model::dots(n as int),
        r@.len() == 11,
{
    let mut r: Vec<u8> = Vec::new();
    let mut k: usize = 0;
    while k < 11
        invariant
            k <= 11,
            r@.len() == k,
            forall|j: int| 0 <= j < k ==> r@[j] == model::dots(n as int)[j],
        decreases 11 - k,
    {
        r.push(
            if k < n {
                46
            } else {
                32
            },
        );
        k += 1;
    }
    assert(r@ =~= model::dots(n as int));
    r
}

fn zero_clus(fs: &mut Fs, i: &FatInfo, clu: u32) -> (ok: bool)
    requires
        old(fs).wf(),
        model::info_wf(*i),
    ensures
        final(fs).wf(),
        (final(fs)@, ok) == model::zero_clus(old(fs)@, *i, clu as int, 0),
{
    let zero = zeros(512);
    let mut k: u32 = 0;
    while k < i.sec_per_clus
        invariant
            fs.wf(),
            model::info_wf(*i),
            zero@ == bytes::zero_bytes(512),
            k <= i.sec_per_clus,
            model::zero_clus(fs@, *i, clu as int, k as int) == model::zero_clus(
                old(fs)@,
                *i,
                clu as int,
                0,
            ),
        decreases i.sec_per_clus - k,
    {
        if !write_clus(fs, i, clu, k, &zero) {
            return false;
        }
        k += 1;
    }
    true
}

fn write_dots(fs: &mut Fs, i: &FatInfo, clu: u32, up: u32) -> (r: Result<(), FsErr>)
    requires
        old(fs).wf(),
        model::info_wf(*i),
        clu >= 2,
    ensures
        final(fs).wf(),
        (final(fs)@, r) == model::write_dots(old(fs)@, *i, clu, up),
{
    proof {
        reveal(model::write_dots);
    }
    let lba: u64 = sector_of(i, clu, 0);
    let dot = DirEntry { name: dots(1), attr: ATTR_DIRECTORY, cluster: clu, size: 0 };
    let dotdot = DirEntry { name: dots(2), attr: ATTR_DIRECTORY, cluster: up, size: 0 };
    write_entry_at(fs, lba, 0, &dot)?;
    write_entry_at(fs, lba, 1, &dotdot)
}

fn mkdir_in(fs: &mut Fs, i: &FatInfo, parent: u32, name: Vec<u8>) -> (r: Result<(), FsErr>)
    requires
        old(fs).wf(),
        model::info_wf(*i),
        name@.len() == 11,
    ensures
        final(fs).wf(),
        (final(fs)@, r) == model::mkdir_in(old(fs)@, *i, parent, name@),
{
    proof {
        reveal(model::mkdir_in);
    }
    let (lba, slot) = find_free_slot(fs, i, parent)?;
    let clus = match alloc_cluster(fs, i) {
        None => return Err(FsErr::NoSpace),
        Some(c) => c,
    };
    if !zero_clus(fs, i, clus) {
        return Err(FsErr::Io);
    }
    let up: u32 = if parent == i.root_clus {
        0
    } else {
        parent
    };
    write_dots(fs, i, clus, up)?;
    let e = DirEntry { name, attr: ATTR_DIRECTORY, cluster: clus, size: 0 };
    write_entry_at(fs, lba, slot, &e)
}

/// Makes an empty directory.
pub fn mkdir(fs: &mut Fs, path: &[char]) -> (r: Result<(), FsErr>)
    requires
        old(fs).wf(),
    ensures
        final(fs).wf(),
        (final(fs)@, r) == model::mkdir(old(fs)@, path@),
{
    proof {
        reveal(model::mkdir);
    }
    let i = info(fs)?;
    let (d, name) = target(fs, &i, path)?;
    if look_up(fs, &i, d, &name).is_ok() {
        return Err(FsErr::Exists);
    }
    mkdir_in(fs, &i, d, name)
}

/// Makes an empty file, if there is no entry of that name yet.
pub fn touch(fs: &mut Fs, path: &[char]) -> (r: Result<(), FsErr>)
    requires
        old(fs).wf(),
    ensures
        final(fs).wf(),
        (final(fs)@, r) == model::touch(old(fs)@, path@),
{
    proof {
        reveal(model::touch);
    }
    let i = info(fs)?;
    let (d, name) = target(fs, &i, path)?;
    if look_up(fs, &i, d, &name).is_ok() {
        return Ok(());
    }
    let e = DirEntry { name, attr: ATTR_ARCHIVE, cluster: 0, size: 0 };
    add_entry(fs, &i, d, &e)
}

/// The entry of the file that a path names.
fn find_file(fs: &Fs, i: &FatInfo, path: &[char]) -> (r: Result<DirEntry, FsErr>)
    requires
        fs.wf(),
        model::info_wf(*i),
    ensures
        match (r, model::find_file(fs@, *i, path@)) {
            (Ok(e), Ok(m)) => e@ == m,
            (Err(e), Err(x)) => e == x,
            _ => false,
        },
{
    let (d, name) = target(fs, i, path)?;
    let e = look_up(fs, i, d, &name)?;
    if e.is_dir() {
        return Err(FsErr::IsDir);
    }
    Ok(e)
}

/// Reads the first `n` bytes of cluster `clu`; says whether a sector could
/// not be read.
fn clus_data(fs: &Fs, i: &FatInfo, clu: u32, n: usize) -> (r: (Vec<u8>, bool))
    requires
        fs.wf(),
        model::info_wf(*i),
        n <= i.sec_per_clus * 512,
    ensures
        (r.0@, r.1) == model::clus_data(fs@, *i, clu as int, 0, n as int),
        r.0@.len() <= n,
        !r.1 ==> r.0@.len() == n,
{
    let mut out: Vec<u8> = Vec::new();
    let mut off: usize = 0;
    let ghost all = model::clus_data(fs@, *i, clu as int, 0, n as int);
    assert(out@ + all.0 =~= all.0);
    while off < n
        invariant
            fs.wf(),
            model::info_wf(*i),
            off <= n <= i.sec_per_clus * 512,
            off < n ==> off % 512 == 0,
            out@.len() == off,
            all == (out@ + model::clus_data(fs@, *i, clu as int, off as int, n as int).0,
                model::clus_data(fs@, *i, clu as int, off as int, n as int).1),
            all == model::clus_data(fs@, *i, clu as int, 0, n as int),
        decreases n - off,
    {
        match read_clus(fs, i, clu, (off / 512) as u32) {
            None => {
                assert(out@ + Seq::<u8>::empty() =~= out@);
                return (out, true);
            },
            Some(b) => {
                let m: usize = if n - off < 512 {
                    n - off
                } else {
                    512
                };
                let mut part = bytes::copy_range(&b, 0, m);
                let ghost before = out@;
                let ghost pv = part@;
                out.append(&mut part);
                proof {
                    let rest = model::clus_data(fs@, *i, clu as int, off + m, n as int).0;
                    assert(before + (pv + rest) =~= out@ + rest);
                }
                off += m;
            },
        }
    }
    assert(out@ + Seq::<u8>::empty() =~= out@);
    (out, false)
}

/// Reads up to `left` bytes of a chain; says whether a sector could not be
/// read.
fn chain_data(fs: &Fs, i: &FatInfo, first: u32, left: usize) -> (r: (Vec<u8>, bool))
    requires
        fs.wf(),
        model::info_wf(*i),
    ensures
        (r.0@, r.1) == model::chain_data(
            fs@,
            *i,
            first as int,
            left as int,
            i.cluster_count as nat,
        ),
        r.0@.len() <= left,
{
    let size: usize = i.sec_per_clus as usize * 512;
    let mut out: Vec<u8> = Vec::new();
    let mut clu: u32 = first;
    let mut rem: usize = left;
    let mut fuel: u32 = i.cluster_count;
    let ghost all = model::chain_data(
        fs@,
        *i,
        first as int,
        left as int,
        i.cluster_count as nat,
    );
    assert(out@ + all.0 =~= all.0);
    while rem > 0 && fuel > 0
        invariant
            fs.wf(),
            model::info_wf(*i),
            size == i.sec_per_clus * 512,
            rem <= left,
            out@.len() <= left - rem,
            all == (out@ + model::chain_data(fs@, *i, clu as int, rem as int, fuel as nat).0,
                model::chain_data(fs@, *i, clu as int, rem as int, fuel as nat).1),
            all == model::chain_data(
                fs@,
                *i,
                first as int,
                left as int,
                i.cluster_count as nat,
            ),
        decreases fuel,
    {
        let n: usize = if rem < size {
            rem
        } else {
            size
        };
        let (mut part, bad) = clus_data(fs, i, clu, n);
        let ghost before = out@;
        let ghost pv = part@;
        out.append(&mut part);
        let next: u32 = read_fat(fs, i, clu);
        if bad || !goes_on(next) {
            return (out, bad);
        }
        proof {
            let rest = model::chain_data(
                fs@,
                *i,
                next as int,
                rem - n,
                (fuel - 1) as nat,
            ).0;
            assert(before + (pv + rest) =~= out@ + rest);
        }
        rem -= n;
        clu = next;
        fuel -= 1;
    }
    assert(out@ + Seq::<u8>::empty() =~= out@);
    (out, false)
}

/// What `cat` shows of a file, and how it ends.
pub fn cat(fs: &Fs, path: &[char]) -> (r: (Vec<char>, Result<(), FsErr>))
    requires
        fs.wf(),
    ensures
        (r.0@, r.1) == model::cat(fs@, path@),
{
    let none: Vec<char> = Vec::new();
    assert(none@ =~= Seq::empty());
    let i = match info(fs) {
        Err(e) => return (none, Err(e)),
        Ok(i) => i,
    };
    let e = match find_file(fs, &i, path) {
        Err(e) => return (none, Err(e)),
        Ok(e) => e,
    };
    let (d, bad) = chain_data(fs, &i, e.cluster, e.size as usize);
    let text = show_bytes(&d);
    if bad {
        (text, Err(FsErr::Io))
    } else {
        (text, Ok(()))
    }
}

/// Reads a file into `out`, as much as fits; returns the number of bytes.
pub fn read_file(fs: &Fs, path: &[char], out: &mut [u8]) -> (r: Result<usize, FsErr>)
    requires
        fs.wf(),
    ensures
        final(out)@ == bytes::splice(
            old(out)@,
            0,
            model::read_file(fs@, path@, old(out)@.len() as int).0,
        ),
        model::read_file(fs@, path@, old(out)@.len() as int).0.len() <= old(out)@.len(),
        r == (match model::read_file(fs@, path@, old(out)@.len() as int) {
            (d, None) => Ok::<usize, FsErr>(d.len() as usize),
            (_, Some(e)) => Err(e),
        }),
{
    assert(bytes::splice(out@, 0, Seq::empty()) =~= out@);
    let i = info(fs)?;
    let e = find_file(fs, &i, path)?;
    if e.cluster == 0 {
        return Ok(0);
    }
    let room: usize = out.len();
    let want: usize = if (e.size as usize) < room {
        e.size as usize
    } else {
        room
    };
    let (d, bad) = chain_data(fs, &i, e.cluster, want);
    put_bytes(out, 0, &d);
    if bad {
        return Err(FsErr::Io);
    }
    Ok(d.len())
}

fn remove(fs: &mut Fs, i: &FatInfo, cluster: u32, lba: u64, slot: usize) -> (r: Result<(), FsErr>)
    requires
        old(fs).wf(),
        model::info_wf(*i),
        slot < 16,
    ensures
        final(fs).wf(),
        (final(fs)@, r) == model::remove(old(fs)@, *i, cluster, lba as int, slot as int),
{
    proof {
        reveal(model::remove);
    }
    free_chain(fs, i, cluster);
    wipe_entry_at(fs, lba, slot)
}

/// Removes a file.
pub fn rm(fs: &mut Fs, path: &[char]) -> (r: Result<(), FsErr>)
    requires
        old(fs).wf(),
    ensures
        final(fs).wf(),
        (final(fs)@, r) == model::rm(old(fs)@, path@),
{
    proof {
        reveal(model::rm);
    }
    let i = info(fs)?;
    let (d, name) = target(fs, &i, path)?;
    let e = look_up(fs, &i, d, &name)?;
    if e.is_dir() {
        return Err(FsErr::IsDir);
    }
    let (lba, slot) = find_pos(fs, &i, d, &name)?;
    remove(fs, &i, e.cluster, lba, slot)
}

/// Removes an empty directory.
pub fn rmdir(fs: &mut Fs, path: &[char]) -> (r: Result<(), FsErr>)
    requires
        old(fs).wf(),
    ensures
        final(fs).wf(),
        (final(fs)@, r) == model::rmdir(old(fs)@, path@),
{
    proof {
        reveal(model::rmdir);
    }
    let i = info(fs)?;
    let (d, name) = target(fs, &i, path)?;
    let e = look_up(fs, &i, d, &name)?;
    if !e.is_dir() {
        return Err(FsErr::NotDir);
    }
    let (lba, slot) = find_pos(fs, &i, d, &name)?;
    if match_in_dir(fs, &i, e.cluster, None).is_some() {
        return Err(FsErr::NotEmpty);
    }
    remove(fs, &i, e.cluster, lba, slot)
}

/// Renames or moves an entry; never replaces one.
pub fn mv(fs: &mut Fs, old_path: &[char], new_path: &[char]) -> (r: Result<(), FsErr>)
    requires
        old(fs).wf(),
    ensures
        final(fs).wf(),
        (final(fs)@, r) == model::mv(old(fs)@, old_path@, new_path@),
{
    proof {
        reveal(model::mv);
    }
    let i = info(fs)?;
    let (od, oname) = target(fs, &i, old_path)?;
    let e = look_up(fs, &i, od, &oname)?;
    let (lba, slot) = find_pos(fs, &i, od, &oname)?;
    let (nd, nname) = target(fs, &i, new_path)?;
    if look_up(fs, &i, nd, &nname).is_ok() {
        return Err(FsErr::Exists);
    }
    let ne = DirEntry { name: nname, attr: e.attr, cluster: e.cluster, size: e.size };
    add_entry(fs, &i, nd, &ne)?;
    wipe_entry_at(fs, lba, slot)
}

// ---------- writing ----------

/// Takes a chain of `need` clusters and ends it.
fn alloc_chain(fs: &mut Fs, i: &FatInfo, need: usize) -> (r: Option<Vec<u32>>)
    requires
        old(fs).wf(),
        model::info_wf(*i),
    ensures
        final(fs).wf(),
        final(fs)@ == model::alloc_chain(old(fs)@, *i, need as int).0,
        match (r, model::alloc_chain(old(fs)@, *i, need as int).1) {
            (Some(c), Some(m)) => c@ == m && m.len() == need,
            (None, None) => true,
            _ => false,
        },
{
    proof {
        reveal(model::alloc_chain);
    }
    let mut chain: Vec<u32> = Vec::new();
    assert(chain@ =~= Seq::empty());
    while chain.len() < need
        invariant
            fs.wf(),
            model::info_wf(*i),
            chain@.len() <= need,
            model::extend_chain(fs@, *i, chain@, need as int) == model::extend_chain(
                old(fs)@,
                *i,
                Seq::empty(),
                need as int,
            ),
        decreases need - chain@.len(),
    {
        proof {
            reveal(model::alloc_chain);
        }
        let nc = match alloc_cluster(fs, i) {
            None => return None,
            Some(c) => c,
        };
        let n: usize = chain.len();
        if n > 0 {
            write_fat(fs, i, chain[n - 1], nc);
        }
        chain.push(nc);
    }
    let n: usize = chain.len();
    if n > 0 {
        write_fat(fs, i, chain[n - 1], FAT_EOC);
    }
    Some(chain)
}

/// Gives the file its entry.
fn enter_file(
    fs: &mut Fs,
    i: &FatInfo,
    dir: u32,
    name: Vec<u8>,
    existing: Option<DirEntry>,
    first: u32,
    size: u32,
) -> (r: Result<(), FsErr>)
    requires
        old(fs).wf(),
        model::info_wf(*i),
        name@.len() == 11,
    ensures
        final(fs).wf(),
        (final(fs)@, r) == model::enter_file(
            old(fs)@,
            *i,
            dir,
            name@,
            entry_view(existing),
            first,
            size,
        ),
{
    proof {
        reveal(model::enter_file);
    }
    match existing {
        Some(e) => {
            free_chain(fs, i, e.cluster);
            let (lba, slot) = find_pos(fs, i, dir, &name)?;
            let ne = DirEntry { name, attr: e.attr, cluster: first, size };
            write_entry_at(fs, lba, slot, &ne)
        },
        None => {
            let ne = DirEntry { name, attr: ATTR_ARCHIVE, cluster: first, size };
            add_entry(fs, i, dir, &ne)
        },
    }
}

/// Writes the bytes `at .. at + n` of the data to cluster `clu`.
fn fill_clus(fs: &mut Fs, i: &FatInfo, clu: u32, data: &[u8], at: usize, n: usize) -> (ok: bool)
    requires
        old(fs).wf(),
        model::info_wf(*i),
        n <= i.sec_per_clus * 512,
        at + n <= data@.len(),
    ensures
        final(fs).wf(),
        (final(fs)@, ok) == model::fill_clus(
            old(fs)@,
            *i,
            clu as int,
            data@,
            at as int,
            0,
            n as int,
        ),
{
    let total: usize = data.len();
    let mut off: usize = 0;
    while off < n
        invariant
            fs.wf(),
            model::info_wf(*i),
            off <= n <= i.sec_per_clus * 512,
            off < n ==> off % 512 == 0,
            at + n <= total == data@.len(),
            model::fill_clus(fs@, *i, clu as int, data@, at as int, off as int, n as int)
                == model::fill_clus(old(fs)@, *i, clu as int, data@, at as int, 0, n as int),
        decreases n - off,
    {
        let m: usize = if n - off < 512 {
            n - off
        } else {
            512
        };
        let mut b = zeros(512);
        put_bytes(&mut b, 0, &data[at + off..at + off + m]);
        if !write_clus(fs, i, clu, (off / 512) as u32, &b) {
            return false;
        }
        off += m;
    }
    true
}

/// Writes the data to the clusters of a chain.
fn fill_chain(fs: &mut Fs, i: &FatInfo, chain: &Vec<u32>, data: &[u8]) -> (ok: bool)
    requires
        old(fs).wf(),
        model::info_wf(*i),
        data@.len() <= 65536,
        chain@.len() == model::clusters_for(*i, data@.len() as int),
    ensures
        final(fs).wf(),
        (final(fs)@, ok) == model::fill_chain(old(fs)@, *i, chain@, data@, 0),
{
    let size: usize = i.sec_per_clus as usize * 512;
    let total: usize = data.len();
    let mut k: usize = 0;
    let mut at: usize = 0;
    while k < chain.len()
        invariant
            fs.wf(),
            model::info_wf(*i),
            size == i.sec_per_clus * 512,
            512 <= size <= 65536,
            total == data@.len(),
            total <= 65536,
            k <= chain@.len(),
            at == k * size,
            chain@.len() == (total + size - 1) / (size as int),
            model::fill_chain(fs@, *i, chain@, data@, k as int) == model::fill_chain(
                old(fs)@,
                *i,
                chain@,
                data@,
                0,
            ),
        decreases chain@.len() - k,
    {
        let ghost q = chain@.len() as int;
        assert(k * size < total && (k + 1) * size == k * size + size && k * size + size
            <= 131072) by (nonlinear_arith)
            requires
                0 <= k < q,
                q == (total + size - 1) / (size as int),
                512 <= size <= 65536,
                0 <= total <= 65536,
        ;
        let n: usize = if total - at < size {
            total - at
        } else {
            size
        };
        if !fill_clus(fs, i, chain[k], data, at, n) {
            return false;
        }
        at += size;
        k += 1;
    }
    true
}

/// Writes a file: makes it where it is not there, replaces its contents where
/// it is.
pub fn write_file(fs: &mut Fs, path: &[char], data: &[u8]) -> (r: Result<(), FsErr>)
    requires
        old(fs).wf(),
    ensures
        final(fs).wf(),
        (final(fs)@, r) == model::write_file(old(fs)@, path@, data@),
{
    proof {
        reveal(model::write_file);
    }
    if data.len() > MAX_FILE {
        return Err(FsErr::TooBig);
    }
    let i = info(fs)?;
    let (d, name) = target(fs, &i, path)?;
    let existing = match_in_dir(fs, &i, d, Some(&name));
    let size: usize = i.sec_per_clus as usize * 512;
    let need: usize = (data.len() + size - 1) / size;
    let chain = match alloc_chain(fs, &i, need) {
        None => return Err(FsErr::NoSpace),
        Some(c) => c,
    };
    let first: u32 = if chain.len() == 0 {
        0
    } else {
        chain[0]
    };
    enter_file(fs, &i, d, name, existing, first, data.len() as u32)?;
    if !fill_chain(fs, &i, &chain, data) {
        return Err(FsErr::Io);
    }
    Ok(())
}

// ---------- mkfs ----------

/// The size of a table for a volume of `tot` sectors.
fn table_size(tot: u64) -> (size: u64)
    requires
        70000 <= tot <= 0x1000_0000,
    ensures
        size == model::table_size(tot as int, 2, 32),
        1 <= size <= tot / 64,
{
    let mut size: u64 = 2;
    let mut n: u32 = 32;
    while n > 0
        invariant
            70000 <= tot <= 0x1000_0000,
            2 <= size <= tot / 64,
            model::table_size(tot as int, 2, 32) == model::table_size(
                tot as int,
                size as int,
                n as nat,
            ),
        decreases n,
    {
        let need: u64 = (tot - 32 - 2 * size + 2) * 4 / 512 + 1;
        if need <= size {
            return need;
        }
        size = need;
        n -= 1;
    }
    size
}

/// Where the parts of a fresh volume lie.
fn fresh_info(sectors: u64) -> (r: Result<FatInfo, FsErr>)
    ensures
        r == model::fresh_info(sectors),
        r is Ok ==> model::info_wf(r->Ok_0),
        r is Ok ==> r->Ok_0.data_start + r->Ok_0.cluster_count <= u32::MAX && r->Ok_0.data_start
            == 32 + 2 * r->Ok_0.fat_size,
{
    let tot: u64 = if sectors < 0x1000_0000 {
        sectors
    } else {
        0x1000_0000
    };
    if tot < 70000 {
        return Err(FsErr::NoSpace);
    }
    let size: u64 = table_size(tot);
    let start: u64 = 32 + 2 * size;
    if tot - start < 65525 {
        return Err(FsErr::NoSpace);
    }
    Ok(
        FatInfo {
            sec_per_clus: 1,
            rsvc: 32,
            num_fats: 2,
            fat_size: size as u32,
            root_clus: 2,
            data_start: start as u32,
            cluster_count: (tot - start) as u32,
        },
    )
}

fn boot_sector(i: &FatInfo) -> (b: Vec<u8>)
    requires
        i.data_start + i.cluster_count <= u32::MAX,
    ensures
        b@ == model::boot_sector(*i),
        b@.len() == 512,
{
    let head: Vec<u8> = vec![0xEBu8, 0x58, 0x90, 83, 79, 76, 65, 82, 79, 83, 32];
    assert(head@ =~= seq![0xEBu8, 0x58, 0x90, 83, 79, 76, 65, 82, 79, 83, 32]);
    let label: Vec<u8> = vec![
        83u8, 79, 76, 65, 82, 79, 83, 32, 32, 32, 32, 70, 65, 84, 51, 50, 32, 32, 32,
    ];
    assert(label@ =~= seq![
        83u8,
        79,
        76,
        65,
        82,
        79,
        83,
        32,
        32,
        32,
        32,
        70,
        65,
        84,
        51,
        50,
        32,
        32,
        32,
    ]);
    let mut b = zeros(512);
    put_bytes(&mut b, 0, &head);
    w16(&mut b, 11, 512);
    b[13] = 1;
    w16(&mut b, 14, 32);
    b[16] = 2;
    b[21] = 0xF8;
    w16(&mut b, 24, 63);
    w16(&mut b, 26, 255);
    w32(&mut b, 32, i.data_start + i.cluster_count);
    w32(&mut b, 36, i.fat_size);
    w32(&mut b, 44, 2);
    w16(&mut b, 50, 6);
    b[66] = 0x29;
    w32(&mut b, 67, 0x1234_5678);
    put_bytes(&mut b, 71, &label);
    b[510] = 0x55;
    b[511] = 0xAA;
    b
}

fn fsinfo_sector() -> (b: Vec<u8>)
    ensures
        b@ == model::fsinfo_sector(),
        b@.len() == 512,
{
    let lead: Vec<u8> = vec![82u8, 82, 97, 65];
    assert(lead@ =~= seq![82u8, 82, 97, 65]);
    let mid: Vec<u8> = vec![114u8, 114, 65, 97];
    assert(mid@ =~= seq![114u8, 114, 65, 97]);
    let mut b = zeros(512);
    put_bytes(&mut b, 0, &lead);
    put_bytes(&mut b, 484, &mid);
    w32(&mut b, 488, 0xFFFF_FFFF);
    w32(&mut b, 492, 0xFFFF_FFFF);
    put_bytes(&mut b, 508, &lead);
    b
}

fn first_table_sector() -> (b: Vec<u8>)
    ensures
        b@ == model::first_table_sector(),
        b@.len() == 512,
{
    let mut b = zeros(512);
    w32(&mut b, 0, 0x0FFF_FFF8);
    w32(&mut b, 4, 0x0FFF_FFFF);
    w32(&mut b, 8, 0x0FFF_FFFF);
    b
}

fn zero_sectors(fs: &mut Fs, n: u64) -> (ok: bool)
    requires
        old(fs).wf(),
    ensures
        final(fs).wf(),
        (final(fs)@, ok) == model::zero_sectors(old(fs)@, 0, n as int),
{
    let zero = zeros(512);
    let mut k: u64 = 0;
    while k < n
        invariant
            fs.wf(),
            zero@ == bytes::zero_bytes(512),
            k <= n,
            model::zero_sectors(fs@, k as int, n as int) == model::zero_sectors(
                old(fs)@,
                0,
                n as int,
            ),
        decreases n - k,
    {
        if !raw_write(fs, k, &zero) {
            return false;
        }
        k += 1;
    }
    true
}

/// Writes the boot sector, the information sector and the first sectors of
/// the tables.
fn put_fresh_sectors(fs: &mut Fs, i: &FatInfo) -> (ok: bool)
    requires
        old(fs).wf(),
        i.data_start + i.cluster_count <= u32::MAX,
    ensures
        final(fs).wf(),
        (final(fs)@, ok) == model::put_all(old(fs)@, model::fresh_sectors(*i)),
{
    let ghost list = model::fresh_sectors(*i);
    proof {
        reveal_with_fuel(model::put_all, 5);
        assert(list.skip(1)[0] == list[1]);
        assert(list.skip(1).skip(1)[0] == list[2]);
        assert(list.skip(1).skip(1).skip(1)[0] == list[3]);
        assert(list.skip(1).skip(1).skip(1).skip(1).len() == 0);
    }
    if !raw_write(fs, 0, &boot_sector(i)) {
        return false;
    }
    if !raw_write(fs, 1, &fsinfo_sector()) {
        return false;
    }
    let fat = first_table_sector();
    if !raw_write(fs, 32, &fat) {
        return false;
    }
    raw_write(fs, 32 + i.fat_size as u64, &fat)
}

fn seed(k: usize) -> (n: Vec<u8>)
    requires
        k < 6,
    ensures
        n@ == model::seeds()[k as int],
{
    let n: Vec<u8> = if k == 0 {
        vec![69u8, 84, 67]
    } else if k == 1 {
        vec![82u8, 79, 79, 84]
    } else if k == 2 {
        vec![72u8, 79, 77, 69]
    } else if k == 3 {
        vec![85u8, 83, 82]
    } else if k == 4 {
        vec![66u8, 79, 79, 84]
    } else {
        vec![84u8, 77, 80]
    };
    assert(n@ =~= model::seeds()[k as int]);
    n
}

fn make_seed(fs: &mut Fs, i: &FatInfo, k: usize) -> (r: Result<(), FsErr>)
    requires
        old(fs).wf(),
        model::info_wf(*i),
        k < 6,
    ensures
        final(fs).wf(),
        (final(fs)@, r) == model::make_seed(old(fs)@, *i, k as int),
{
    proof {
        reveal(model::make_seed);
    }
    let nc = match alloc_cluster(fs, i) {
        None => return Err(FsErr::NoSpace),
        Some(c) => c,
    };
    if !write_clus(fs, i, nc, 0, &zeros(512)) {
        return Err(FsErr::Io);
    }
    write_dots(fs, i, nc, 0)?;
    let e = DirEntry {
        name: part_83(&seed(k)),
        attr: ATTR_DIRECTORY,
        cluster: nc,
        size: 0,
    };
    write_entry_at(fs, i.data_start as u64, k, &e)
}

fn make_seeds(fs: &mut Fs, i: &FatInfo) -> (r: Result<(), FsErr>)
    requires
        old(fs).wf(),
        model::info_wf(*i),
    ensures
        final(fs).wf(),
        (final(fs)@, r) == model::make_seeds(old(fs)@, *i, 0),
{
    let mut k: usize = 0;
    while k < 6
        invariant
            fs.wf(),
            model::info_wf(*i),
            k <= 6,
            model::make_seeds(fs@, *i, k as int) == model::make_seeds(old(fs)@, *i, 0),
        decreases 6 - k,
    {
        make_seed(fs, i, k)?;
        k += 1;
    }
    Ok(())
}

/// Writes a fresh volume that starts at sector `base`, and mounts it.
pub fn mkfs_at(fs: &mut Fs, base: u32) -> (r: Result<(), FsErr>)
    requires
        old(fs).wf(),
    ensures
        final(fs).wf(),
        (final(fs)@, r) == model::mkfs_at(old(fs)@, base),
{
    proof {
        reveal(model::mkfs_at);
    }
    fs.base = base;
    assert(fs@ =~= FsView { base, ..old(fs)@ });
    let sectors: u64 = match &fs.dev {
        None => return Err(FsErr::NoDevice),
        Some(d) => d.sectors,
    };
    let i = fresh_info(sectors)?;
    if !zero_sectors(fs, i.data_start as u64 + 1) {
        return Err(FsErr::Io);
    }
    if !put_fresh_sectors(fs, &i) {
        return Err(FsErr::Io);
    }
    let ghost s2 = fs@;
    fs.fat = Some(i);
    assert(fs@ =~= FsView { fat: Some(i), ..s2 });
    make_seeds(fs, &i)?;
    mount_at(fs, base)
}

} // verus!
