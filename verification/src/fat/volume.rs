//! Clusters, the allocation table, and 8.3 names.

use vstd::prelude::*;
use crate::bytes;
use crate::bytes::{r32, w32};
use crate::fat::model;
use crate::fs::{raw_read, raw_write, res_view, FatInfo, Fs, FsErr};

verus! {

const FAT_EOC: u32 = 0x0FFF_FFF8;

pub(crate) fn info(fs: &Fs) -> (r: Result<FatInfo, FsErr>)
    requires
        fs.wf(),
    ensures
        r == (match fs@.fat {
            Some(i) => Ok::<FatInfo, FsErr>(i),
            None => Err(FsErr::NotFormatted),
        }),
        r is Ok ==> model::info_wf(r->Ok_0),
{
    match fs.fat {
        Some(i) => Ok(i),
        None => Err(FsErr::NotFormatted),
    }
}

// ---------- sectors ----------

/// Sector numbers of clusters stay far below the end of 64 bits.
proof fn sector_bound(i: FatInfo, clu: int, k: int)
    requires
        i.sec_per_clus <= 128,
        2 <= clu <= u32::MAX,
        0 <= k <= 128,
    ensures
        0 <= (clu - 2) * i.sec_per_clus <= 0x80_0000_0000,
        i.data_start <= model::sector_of(i, clu, k) <= 0x100_0000_0000,
{
    assert(0 <= (clu - 2) * i.sec_per_clus <= 0x1_0000_0000 * 128) by (nonlinear_arith)
        requires
            i.sec_per_clus <= 128,
            2 <= clu <= 0xFFFF_FFFF,
    ;
}

pub(crate) fn sector_of(i: &FatInfo, clu: u32, k: u32) -> (lba: u64)
    requires
        model::info_wf(*i),
        clu >= 2,
        k <= 128,
    ensures
        lba == model::sector_of(*i, clu as int, k as int),
        lba <= 0x100_0000_0000,
{
    proof {
        sector_bound(*i, clu as int, k as int);
    }
    i.data_start as u64 + (clu as u64 - 2) * (i.sec_per_clus as u64) + k as u64
}

pub(crate) fn read_clus(fs: &Fs, i: &FatInfo, clu: u32, k: u32) -> (r: Option<Vec<u8>>)
    requires
        fs.wf(),
        model::info_wf(*i),
        k <= 128,
    ensures
        bytes::opt_view(r) == model::read_clus(fs@, *i, clu as int, k as int),
        r is Some ==> r->0@.len() == 512,
{
    if clu < 2 {
        return None;
    }
    raw_read(fs, sector_of(i, clu, k))
}

pub(crate) fn write_clus(fs: &mut Fs, i: &FatInfo, clu: u32, k: u32, data: &[u8]) -> (ok: bool)
    requires
        old(fs).wf(),
        model::info_wf(*i),
        k <= 128,
        data@.len() == 512,
    ensures
        final(fs).wf(),
        (final(fs)@, ok) == model::write_clus(old(fs)@, *i, clu as int, k as int, data@),
{
    if clu < 2 {
        return false;
    }
    raw_write(fs, sector_of(i, clu, k), data)
}

// ---------- the allocation table ----------

pub(crate) fn is_eoc(v: u32) -> (r: bool)
    ensures
        r == model::is_eoc(v),
{
    v % 0x1000_0000 >= FAT_EOC
}

pub(crate) fn goes_on(v: u32) -> (r: bool)
    ensures
        r == model::goes_on(v),
{
    !is_eoc(v) && v >= 2
}

pub(crate) fn read_fat(fs: &Fs, i: &FatInfo, clu: u32) -> (v: u32)
    requires
        fs.wf(),
    ensures
        v == model::read_fat(fs@, *i, clu as int),
{
    match raw_read(fs, i.rsvc as u64 + clu as u64 / 128) {
        None => FAT_EOC,
        Some(b) => r32(&b, 4 * (clu % 128) as usize),
    }
}

/// Writes a table sector to every table.
fn write_tables(fs: &mut Fs, i: &FatInfo, sec: u64, b: &[u8]) -> (ok: bool)
    requires
        old(fs).wf(),
        model::info_wf(*i),
        sec <= 0x2_0000_0000,
        b@.len() == 512,
    ensures
        final(fs).wf(),
        (final(fs)@, ok) == model::write_tables(old(fs)@, *i, sec as int, b@, 0),
{
    let mut f: u32 = 0;
    while f < i.num_fats
        invariant
            fs.wf(),
            model::info_wf(*i),
            sec <= 0x2_0000_0000,
            b@.len() == 512,
            f <= i.num_fats,
            model::write_tables(fs@, *i, sec as int, b@, f as int) == model::write_tables(
                old(fs)@,
                *i,
                sec as int,
                b@,
                0,
            ),
        decreases i.num_fats - f,
    {
        assert(0 <= f * i.fat_size <= 4 * 0xFFFF_FFFF) by (nonlinear_arith)
            requires
                f <= 4,
                i.fat_size <= 0xFFFF_FFFF,
        ;
        if !raw_write(fs, sec + f as u64 * i.fat_size as u64, b) {
            return false;
        }
        f += 1;
    }
    true
}

pub(crate) fn write_fat(fs: &mut Fs, i: &FatInfo, clu: u32, val: u32) -> (ok: bool)
    requires
        old(fs).wf(),
        model::info_wf(*i),
    ensures
        final(fs).wf(),
        (final(fs)@, ok) == model::write_fat(old(fs)@, *i, clu as int, val),
{
    proof {
        reveal(model::write_fat);
    }
    let sec: u64 = i.rsvc as u64 + clu as u64 / 128;
    match raw_read(fs, sec) {
        None => false,
        Some(mut b) => {
            w32(&mut b, 4 * (clu % 128) as usize, val);
            write_tables(fs, i, sec, &b)
        },
    }
}

/// Takes the first free cluster of the volume.
pub(crate) fn alloc_cluster(fs: &mut Fs, i: &FatInfo) -> (r: Option<u32>)
    requires
        old(fs).wf(),
        model::info_wf(*i),
    ensures
        final(fs).wf(),
        (final(fs)@, r) == model::alloc_cluster(old(fs)@, *i),
        r is Some ==> r->0 >= 2,
{
    proof {
        reveal(model::alloc_cluster);
    }
    let end: u32 = i.cluster_count + 2;
    let mut c: u32 = 2;
    while c < end
        invariant
            fs.wf(),
            model::info_wf(*i),
            end == i.cluster_count + 2,
            2 <= c <= end,
            model::alloc_from(fs@, *i, c as int) == model::alloc_cluster(old(fs)@, *i),
        decreases end - c,
    {
        if read_fat(fs, i, c) == 0 {
            if write_fat(fs, i, c, FAT_EOC) {
                return Some(c);
            }
        }
        c += 1;
    }
    None
}

/// Frees the chain that starts at `clu`.
pub(crate) fn free_chain(fs: &mut Fs, i: &FatInfo, clu: u32)
    requires
        old(fs).wf(),
        model::info_wf(*i),
    ensures
        final(fs).wf(),
        final(fs)@ == model::free_chain(old(fs)@, *i, clu),
{
    proof {
        reveal(model::free_chain);
    }
    if clu < 2 {
        return;
    }
    let mut c: u32 = clu;
    let mut fuel: u32 = 2_000_000;
    while fuel > 0
        invariant
            fs.wf(),
            model::info_wf(*i),
            model::free_from(fs@, *i, c as int, fuel as nat) == model::free_chain(
                old(fs)@,
                *i,
                clu,
            ),
        decreases fuel,
    {
        let next: u32 = read_fat(fs, i, c);
        write_fat(fs, i, c, 0);
        if !goes_on(next) {
            return;
        }
        c = next;
        fuel -= 1;
    }
}

// ---------- names ----------

pub(crate) fn upper(b: u8) -> (r: u8)
    ensures
        r == model::upper(b),
{
    if 97 <= b && b <= 122 {
        b - 32
    } else {
        b
    }
}

pub(crate) fn lower(b: u8) -> (r: u8)
    ensures
        r == model::lower(b),
{
    if 65 <= b && b <= 90 {
        b + 32
    } else {
        b
    }
}

fn is_name_char(c: char) -> (r: bool)
    ensures
        r == model::name_char(c),
{
    (c as u32) < 0x80 && c != '\0' && c != '/' && c != '\\' && c != ' '
}

fn dot_pos(name: &[char]) -> (r: usize)
    ensures
        r == model::dot_pos(name@),
        r <= name@.len(),
        forall|k: int| 0 <= k < r ==> name@[k] != '.',
{
    let mut k: usize = 0;
    assert(name@.skip(0) =~= name@);
    while k < name.len() && name[k] != '.'
        invariant
            k <= name@.len(),
            forall|j: int| 0 <= j < k ==> name@[j] != '.',
            model::dot_pos(name@) == k + model::dot_pos(name@.skip(k as int)),
        decreases name@.len() - k,
    {
        assert(name@.skip(k as int).skip(1) =~= name@.skip(k + 1));
        k += 1;
    }
    k
}

/// Puts the upper-case bytes of a part of a name at offset `o`; says whether
/// every character may stand there.
fn put_part(out: &mut Vec<u8>, o: usize, part: &[char]) -> (ok: bool)
    requires
        old(out)@.len() == 11,
        o + part@.len() <= 11,
    ensures
        final(out)@.len() == 11,
        ok == (model::all_name_chars(part@) && model::no_dots(part@)),
        ok ==> forall|k: int|
            0 <= k < 11 ==> #[trigger] final(out)@[k] == (if o <= k < o + part@.len() {
                model::upper(part@[k - o] as u8)
            } else {
                old(out)@[k]
            }),
{
    let mut k: usize = 0;
    while k < part.len()
        invariant
            out@.len() == 11,
            o + part@.len() <= 11,
            k <= part@.len(),
            forall|j: int| 0 <= j < k ==> model::name_char(#[trigger] part@[j]) && part@[j] != '.',
            forall|j: int|
                0 <= j < 11 ==> #[trigger] out@[j] == (if o <= j < o + k {
                    model::upper(part@[j - o] as u8)
                } else {
                    old(out)@[j]
                }),
        decreases part@.len() - k,
    {
        let c: char = part[k];
        if c == '.' || !is_name_char(c) {
            assert(part@[k as int] == c);
            return false;
        }
        out[o + k] = upper(c as u8);
        k += 1;
    }
    true
}

/// The eleven bytes under which a directory holds a name.
pub(crate) fn make_83(name: &[char]) -> (r: Result<Vec<u8>, FsErr>)
    ensures
        res_view(r) == model::make_83(name@),
        r is Ok ==> r->Ok_0@.len() == 11,
{
    let n: usize = name.len();
    let d: usize = dot_pos(name);
    assert(name@.subrange(0, d as int) =~= model::stem(name@));
    if d == 0 || d > 8 {
        return Err(FsErr::BadName);
    }
    let mut out: Vec<u8> = Vec::new();
    let mut k: usize = 0;
    while k < 11
        invariant
            k <= 11,
            out@.len() == k,
            forall|j: int| 0 <= j < k ==> out@[j] == 32,
        decreases 11 - k,
    {
        out.push(32);
        k += 1;
    }
    let ghost blank = out@;
    if !put_part(&mut out, 0, &name[0..d]) {
        return Err(FsErr::BadName);
    }
    let ghost half = out@;
    if d < n {
        assert(name@.subrange(d + 1, n as int) =~= model::extension(name@));
        if n - (d + 1) > 3 {
            return Err(FsErr::BadName);
        }
        if !put_part(&mut out, 8, &name[d + 1..n]) {
            return Err(FsErr::BadName);
        }
    } else {
        assert(model::extension(name@) =~= Seq::empty());
    }
    assert(out@ =~= model::padded(model::stem(name@), 8) + model::padded(
        model::extension(name@),
        3,
    ));
    Ok(out)
}

/// The eleven bytes for a name of the current directory.
pub(crate) fn part_83(part: &[u8]) -> (r: Vec<u8>)
    ensures
        r@ == model::part_83(part@),
        r@.len() == 11,
{
    let mut out: Vec<u8> = Vec::new();
    let mut k: usize = 0;
    while k < 11
        invariant
            k <= 11,
            out@.len() == k,
            forall|j: int| 0 <= j < k ==> out@[j] == model::part_83(part@)[j],
        decreases 11 - k,
    {
        if k < part.len() {
            out.push(upper(part[k]));
        } else {
            out.push(32);
        }
        k += 1;
    }
    assert(out@ =~= model::part_83(part@));
    out
}

} // verus!
