//! Directories: walking, name lookup, adding and wiping entries.

use vstd::prelude::*;
use crate::bytes;
use crate::bytes::{copy_range, put_bytes, r16, r32, same_bytes, w16, w32, zeros};
use crate::fat::model;
use crate::fat::model::Scan;
use crate::fat::volume::{
    alloc_cluster, goes_on, is_eoc, make_83, part_83, read_clus, read_fat, sector_of, write_clus,
    write_fat,
};
use crate::fs::{raw_read, raw_write, Cwd, FatInfo, Fs, FsErr};
use crate::path;
use crate::path::{pop_comp, split_parent};

verus! {

pub struct DirEntry {
    pub name: Vec<u8>,
    pub attr: u8,
    pub cluster: u32,
    pub size: u32,
}

impl View for DirEntry {
    type V = model::Entry;

    open spec fn view(&self) -> model::Entry {
        model::Entry {
            name: self.name@,
            attr: self.attr,
            cluster: self.cluster,
            size: self.size,
        }
    }
}

impl DirEntry {
    pub fn is_dir(&self) -> (r: bool)
        ensures
            r == self@.is_dir(),
    {
        self.attr / 16 % 2 == 1
    }
}

/// An optional entry.
pub open spec fn entry_view(r: Option<DirEntry>) -> Option<model::Entry> {
    match r {
        Some(e) => Some(e@),
        None => None,
    }
}

/// The entries of a list.
pub open spec fn list_view(v: Seq<DirEntry>) -> Seq<model::Entry> {
    Seq::new(v.len(), |k: int| v[k]@)
}

/// Every name of the list has its eleven bytes.
pub open spec fn names_whole(v: Seq<DirEntry>) -> bool {
    forall|k: int| 0 <= k < v.len() ==> (#[trigger] v[k]).name@.len() == 11
}

/// What a search asks for.
pub open spec fn want_view(want: Option<&Vec<u8>>) -> Option<Seq<u8>> {
    match want {
        Some(n) => Some(n@),
        None => None,
    }
}

fn entry_at(b: &[u8], o: usize) -> (e: DirEntry)
    requires
        b@.len() == 512,
        o + 32 <= 512,
    ensures
        e@ == model::entry_at(b@, o as int),
        e.name@.len() == 11,
{
    DirEntry {
        name: copy_range(b, o, 11),
        attr: b[o + 11],
        cluster: 0x1_0000 * (r16(b, o + 20) as u32) + r16(b, o + 26) as u32,
        size: r32(b, o + 28),
    }
}

/// A search through two runs of entries looks at the first run first.
proof fn first_match_concat(
    a: Seq<model::Entry>,
    b: Seq<model::Entry>,
    want: Option<Seq<u8>>,
)
    ensures
        model::first_match(a + b, want) == (match model::first_match(a, want) {
            Some(e) => Some(e),
            None => model::first_match(b, want),
        }),
    decreases a.len(),
{
    if a.len() == 0 {
        assert(a + b =~= b);
    } else {
        assert((a + b)[0] == a[0]);
        assert((a + b).skip(1) =~= a.skip(1) + b);
        first_match_concat(a.skip(1), b, want);
    }
}

/// The first entry of a sector that a search asks for, and whether the
/// directory ends in the sector.
fn match_in_sector(b: &[u8], want: Option<&Vec<u8>>) -> (r: (Option<DirEntry>, bool))
    requires
        b@.len() == 512,
    ensures
        entry_view(r.0) == model::first_match(model::sector_list(b@, 0).0, want_view(want)),
        r.0 is None ==> r.1 == model::sector_list(b@, 0).1,
        r.0 is Some ==> (r.0->0).name@.len() == 11,
{
    let mut k: usize = 0;
    while k < 16
        invariant
            b@.len() == 512,
            k <= 16,
            model::first_match(model::sector_list(b@, 0).0, want_view(want)) == model::first_match(
                model::sector_list(b@, k as int).0,
                want_view(want),
            ),
            model::sector_list(b@, k as int).1 == model::sector_list(b@, 0).1,
        decreases 16 - k,
    {
        let o: usize = 32 * k;
        if b[o] == 0 {
            return (None, true);
        }
        if !(b[o] == 0xE5 || b[o + 11] == 0x0F) && !(b[o] == 46 && (b[o + 1] == 32 || b[o + 1]
            == 46)) {
            let e = entry_at(b, o);
            proof {
                let rest = model::sector_list(b@, k + 1).0;
                assert((seq![e@] + rest)[0] == e@);
                assert((seq![e@] + rest).skip(1) =~= rest);
            }
            let hit: bool = match want {
                None => true,
                Some(n) => same_bytes(&e.name, n),
            };
            if hit {
                return (Some(e), false);
            }
        }
        k += 1;
    }
    (None, false)
}

/// The first entry of a cluster that a search asks for, and whether the
/// directory ends in the cluster.
fn match_in_clus(fs: &Fs, i: &FatInfo, clu: u32, want: Option<&Vec<u8>>) -> (r: (
    Option<DirEntry>,
    bool,
))
    requires
        fs.wf(),
        model::info_wf(*i),
    ensures
        entry_view(r.0) == model::first_match(
            model::clus_list(fs@, *i, clu as int, 0).0,
            want_view(want),
        ),
        r.0 is None ==> r.1 == model::clus_list(fs@, *i, clu as int, 0).1,
        r.0 is Some ==> (r.0->0).name@.len() == 11,
{
    let mut k: u32 = 0;
    while k < i.sec_per_clus
        invariant
            fs.wf(),
            model::info_wf(*i),
            k <= i.sec_per_clus,
            model::first_match(model::clus_list(fs@, *i, clu as int, 0).0, want_view(want))
                == model::first_match(
                model::clus_list(fs@, *i, clu as int, k as int).0,
                want_view(want),
            ),
            model::clus_list(fs@, *i, clu as int, k as int).1 == model::clus_list(
                fs@,
                *i,
                clu as int,
                0,
            ).1,
        decreases i.sec_per_clus - k,
    {
        match read_clus(fs, i, clu, k) {
            None => return (None, true),
            Some(b) => {
                proof {
                    first_match_concat(
                        model::sector_list(b@, 0).0,
                        model::clus_list(fs@, *i, clu as int, k + 1).0,
                        want_view(want),
                    );
                }
                let (hit, ends) = match_in_sector(&b, want);
                if hit.is_some() {
                    return (hit, false);
                }
                if ends {
                    return (None, true);
                }
            },
        }
        k += 1;
    }
    (None, false)
}

/// The first entry of a directory that a search asks for.
pub(crate) fn match_in_dir(fs: &Fs, i: &FatInfo, dir: u32, want: Option<&Vec<u8>>) -> (r: Option<
    DirEntry,
>)
    requires
        fs.wf(),
        model::info_wf(*i),
    ensures
        entry_view(r) == model::first_match(
            model::dir_list(fs@, *i, dir as int),
            want_view(want),
        ),
        r is Some ==> (r->0).name@.len() == 11,
{
    proof {
        reveal(model::dir_list);
    }
    let mut clu: u32 = dir;
    let mut fuel: u32 = i.cluster_count;
    while fuel > 0
        invariant
            fs.wf(),
            model::info_wf(*i),
            model::first_match(model::dir_list(fs@, *i, dir as int), want_view(want))
                == model::first_match(
                model::chain_list(fs@, *i, clu as int, fuel as nat),
                want_view(want),
            ),
        decreases fuel,
    {
        let (hit, ends) = match_in_clus(fs, i, clu, want);
        let next: u32 = read_fat(fs, i, clu);
        proof {
            first_match_concat(
                model::clus_list(fs@, *i, clu as int, 0).0,
                model::chain_list(fs@, *i, next as int, (fuel - 1) as nat),
                want_view(want),
            );
        }
        if hit.is_some() {
            return hit;
        }
        if ends || !goes_on(next) {
            return None;
        }
        clu = next;
        fuel -= 1;
    }
    None
}

pub(crate) fn look_up(fs: &Fs, i: &FatInfo, dir: u32, name: &Vec<u8>) -> (r: Result<
    DirEntry,
    FsErr,
>)
    requires
        fs.wf(),
        model::info_wf(*i),
    ensures
        match (r, model::look_up(fs@, *i, dir as int, name@)) {
            (Ok(e), Ok(m)) => e@ == m && e.name@.len() == 11,
            (Err(e), Err(x)) => e == x,
            _ => false,
        },
{
    match match_in_dir(fs, i, dir, Some(name)) {
        Some(e) => Ok(e),
        None => Err(FsErr::NotFound),
    }
}

/// The cluster of the directory `name` in directory `dir`.
fn look_up_dir(fs: &Fs, i: &FatInfo, dir: u32, name: &Vec<u8>) -> (r: Result<u32, FsErr>)
    requires
        fs.wf(),
        model::info_wf(*i),
    ensures
        r == model::look_up_dir(fs@, *i, dir as int, name@),
{
    let e = look_up(fs, i, dir, name)?;
    if !e.is_dir() {
        return Err(FsErr::NotDir);
    }
    Ok(e.cluster)
}

// ---------- listing ----------

fn list_sector(b: &[u8], out: &mut Vec<DirEntry>) -> (ends: bool)
    requires
        b@.len() == 512,
        names_whole(old(out)@),
    ensures
        names_whole(final(out)@),
        list_view(final(out)@) == list_view(old(out)@) + model::sector_list(b@, 0).0,
        ends == model::sector_list(b@, 0).1,
{
    let mut k: usize = 0;
    while k < 16
        invariant
            b@.len() == 512,
            names_whole(out@),
            k <= 16,
            list_view(out@) + model::sector_list(b@, k as int).0 == list_view(old(out)@)
                + model::sector_list(b@, 0).0,
            model::sector_list(b@, k as int).1 == model::sector_list(b@, 0).1,
        decreases 16 - k,
    {
        let o: usize = 32 * k;
        if b[o] == 0 {
            assert(list_view(out@) + Seq::<model::Entry>::empty() =~= list_view(out@));
            return true;
        }
        if !(b[o] == 0xE5 || b[o + 11] == 0x0F) && !(b[o] == 46 && (b[o + 1] == 32 || b[o + 1]
            == 46)) {
            let e = entry_at(b, o);
            let ghost before = list_view(out@);
            let ghost ev = e@;
            out.push(e);
            proof {
                let rest = model::sector_list(b@, k + 1).0;
                assert(list_view(out@) =~= before.push(ev));
                assert(before + (seq![ev] + rest) =~= list_view(out@) + rest);
            }
        }
        k += 1;
    }
    assert(list_view(out@) + Seq::<model::Entry>::empty() =~= list_view(out@));
    false
}

fn list_clus(fs: &Fs, i: &FatInfo, clu: u32, out: &mut Vec<DirEntry>) -> (ends: bool)
    requires
        fs.wf(),
        model::info_wf(*i),
        names_whole(old(out)@),
    ensures
        names_whole(final(out)@),
        list_view(final(out)@) == list_view(old(out)@) + model::clus_list(
            fs@,
            *i,
            clu as int,
            0,
        ).0,
        ends == model::clus_list(fs@, *i, clu as int, 0).1,
{
    let mut k: u32 = 0;
    while k < i.sec_per_clus
        invariant
            fs.wf(),
            model::info_wf(*i),
            k <= i.sec_per_clus,
            names_whole(out@),
            list_view(out@) + model::clus_list(fs@, *i, clu as int, k as int).0 == list_view(
                old(out)@,
            ) + model::clus_list(fs@, *i, clu as int, 0).0,
            model::clus_list(fs@, *i, clu as int, k as int).1 == model::clus_list(
                fs@,
                *i,
                clu as int,
                0,
            ).1,
        decreases i.sec_per_clus - k,
    {
        match read_clus(fs, i, clu, k) {
            None => {
                assert(list_view(out@) + Seq::<model::Entry>::empty() =~= list_view(out@));
                return true;
            },
            Some(b) => {
                let ghost before = list_view(out@);
                let ends = list_sector(&b, out);
                if ends {
                    return true;
                }
                proof {
                    let es = model::sector_list(b@, 0).0;
                    let rest = model::clus_list(fs@, *i, clu as int, k + 1).0;
                    assert(before + (es + rest) =~= list_view(out@) + rest);
                }
            },
        }
        k += 1;
    }
    assert(list_view(out@) + Seq::<model::Entry>::empty() =~= list_view(out@));
    false
}

/// The entries of a directory.
pub(crate) fn walk_dir(fs: &Fs, i: &FatInfo, dir: u32) -> (out: Vec<DirEntry>)
    requires
        fs.wf(),
        model::info_wf(*i),
    ensures
        list_view(out@) == model::dir_list(fs@, *i, dir as int),
        names_whole(out@),
{
    proof {
        reveal(model::dir_list);
    }
    let mut out: Vec<DirEntry> = Vec::new();
    let mut clu: u32 = dir;
    let mut fuel: u32 = i.cluster_count;
    let ghost all = model::dir_list(fs@, *i, dir as int);
    assert(list_view(out@) + all =~= all);
    while fuel > 0
        invariant
            fs.wf(),
            model::info_wf(*i),
            all == model::dir_list(fs@, *i, dir as int),
            names_whole(out@),
            list_view(out@) + model::chain_list(fs@, *i, clu as int, fuel as nat) == all,
        decreases fuel,
    {
        let ghost before = list_view(out@);
        let ends = list_clus(fs, i, clu, &mut out);
        let next: u32 = read_fat(fs, i, clu);
        if ends || !goes_on(next) {
            return out;
        }
        proof {
            let es = model::clus_list(fs@, *i, clu as int, 0).0;
            let rest = model::chain_list(fs@, *i, next as int, (fuel - 1) as nat);
            assert(before + (es + rest) =~= list_view(out@) + rest);
        }
        clu = next;
        fuel -= 1;
    }
    assert(list_view(out@) + Seq::<model::Entry>::empty() =~= list_view(out@));
    out
}

// ---------- paths ----------

fn dotdot_in_sector(b: &[u8]) -> (r: Option<u32>)
    requires
        b@.len() == 512,
    ensures
        r == model::dotdot_in_sector(b@, 0),
{
    let mut k: usize = 0;
    while k < 16
        invariant
            b@.len() == 512,
            k <= 16,
            model::dotdot_in_sector(b@, 0) == model::dotdot_in_sector(b@, k as int),
        decreases 16 - k,
    {
        let o: usize = 32 * k;
        if b[o] == 46 && b[o + 1] == 46 && b[o + 2] == 32 && b[o + 11] != 0x0F {
            return Some(entry_at(b, o).cluster);
        }
        k += 1;
    }
    None
}

fn dotdot_in_clus(fs: &Fs, i: &FatInfo, clu: u32) -> (r: Option<u32>)
    requires
        fs.wf(),
        model::info_wf(*i),
    ensures
        r == model::dotdot_in_clus(fs@, *i, clu as int, 0),
{
    let mut k: u32 = 0;
    while k < i.sec_per_clus
        invariant
            fs.wf(),
            model::info_wf(*i),
            k <= i.sec_per_clus,
            model::dotdot_in_clus(fs@, *i, clu as int, 0) == model::dotdot_in_clus(
                fs@,
                *i,
                clu as int,
                k as int,
            ),
        decreases i.sec_per_clus - k,
    {
        match read_clus(fs, i, clu, k) {
            None => return None,
            Some(b) => {
                let p = dotdot_in_sector(&b);
                if p.is_some() {
                    return p;
                }
            },
        }
        k += 1;
    }
    None
}

/// The directory above `clu`.
fn parent_of(fs: &Fs, i: &FatInfo, clu: u32) -> (r: u32)
    requires
        fs.wf(),
        model::info_wf(*i),
    ensures
        r == model::parent_of(fs@, *i, clu),
{
    proof {
        reveal(model::parent_of);
    }
    if clu == i.root_clus {
        return i.root_clus;
    }
    let mut c: u32 = clu;
    let mut fuel: u32 = i.cluster_count;
    let ghost want = model::dotdot_in_chain(fs@, *i, clu as int, i.cluster_count as nat);
    while fuel > 0
        invariant
            fs.wf(),
            model::info_wf(*i),
            clu != i.root_clus,
            want == model::dotdot_in_chain(fs@, *i, clu as int, i.cluster_count as nat),
            want == model::dotdot_in_chain(fs@, *i, c as int, fuel as nat),
        decreases fuel,
    {
        proof {
            reveal(model::parent_of);
        }
        if let Some(p) = dotdot_in_clus(fs, i, c) {
            return if p == 0 {
                i.root_clus
            } else {
                p
            };
        }
        let next: u32 = read_fat(fs, i, c);
        if !goes_on(next) {
            return i.root_clus;
        }
        c = next;
        fuel -= 1;
    }
    i.root_clus
}

/// Follows the components of a path from cluster `clu`.
fn resolve(fs: &Fs, i: &FatInfo, clu: u32, p: &[char]) -> (r: Result<u32, FsErr>)
    requires
        fs.wf(),
        model::info_wf(*i),
    ensures
        r == model::follow(fs@, *i, clu, path::components(p@)),
{
    let mut at: u32 = clu;
    let mut rest: &[char] = p;
    loop
        invariant
            fs.wf(),
            model::info_wf(*i),
            model::follow(fs@, *i, clu, path::components(p@)) == model::follow(
                fs@,
                *i,
                at,
                path::components(rest@),
            ),
        decreases rest@.len(),
    {
        match pop_comp(rest) {
            None => {
                return Ok(at);
            },
            Some((comp, tail)) => {
                proof {
                    let all = path::components(rest@);
                    assert(all[0] == comp@);
                    assert(all.skip(1) =~= path::components(tail@));
                }
                if comp.len() == 1 && comp[0] == '.' {
                    assert(comp@ =~= seq!['.']);
                } else if comp.len() == 2 && comp[0] == '.' && comp[1] == '.' {
                    assert(comp@ =~= seq!['.', '.']);
                    at = parent_of(fs, i, at);
                } else {
                    let n83 = make_83(comp)?;
                    at = look_up_dir(fs, i, at, &n83)?;
                }
                rest = tail;
            },
        }
    }
}

/// Follows the names of a current directory from the root.
pub(crate) fn cluster_from_cwd(fs: &Fs, i: &FatInfo, cwd: &Cwd) -> (r: Result<u32, FsErr>)
    requires
        fs.wf(),
        model::info_wf(*i),
    ensures
        r == model::follow_parts(fs@, *i, i.root_clus, cwd@),
{
    let mut clu: u32 = i.root_clus;
    let mut k: usize = 0;
    assert(cwd@.skip(0) =~= cwd@);
    while k < cwd.parts.len()
        invariant
            fs.wf(),
            model::info_wf(*i),
            k <= cwd@.len(),
            cwd@.len() == cwd.parts@.len(),
            model::follow_parts(fs@, *i, i.root_clus, cwd@) == model::follow_parts(
                fs@,
                *i,
                clu,
                cwd@.skip(k as int),
            ),
        decreases cwd@.len() - k,
    {
        assert(cwd@.skip(k as int)[0] == cwd.parts@[k as int]@);
        assert(cwd@.skip(k as int).skip(1) =~= cwd@.skip(k + 1));
        clu = look_up_dir(fs, i, clu, &part_83(&cwd.parts[k]))?;
        k += 1;
    }
    Ok(clu)
}

/// The directory that a path names, from the root or the current directory.
pub(crate) fn resolve_from_cwd(fs: &Fs, i: &FatInfo, p: &[char]) -> (r: Result<u32, FsErr>)
    requires
        fs.wf(),
        model::info_wf(*i),
    ensures
        r == model::resolve_from_cwd(fs@, *i, p@),
{
    proof {
        reveal(model::resolve_from_cwd);
    }
    if p.len() > 0 && p[0] == '/' {
        resolve(fs, i, i.root_clus, p)
    } else {
        let c = cluster_from_cwd(fs, i, &fs.cwd)?;
        resolve(fs, i, c, p)
    }
}

/// The directory and the name that a path stands for.
pub(crate) fn target(fs: &Fs, i: &FatInfo, p: &[char]) -> (r: Result<(u32, Vec<u8>), FsErr>)
    requires
        fs.wf(),
        model::info_wf(*i),
    ensures
        match (r, model::target(fs@, *i, p@)) {
            (Ok((d, n)), Ok((e, m))) => d == e && n@ == m && m.len() == 11,
            (Err(e), Err(x)) => e == x,
            _ => false,
        },
{
    proof {
        reveal(model::target);
    }
    let (parent, leaf) = split_parent(p);
    let c = resolve_from_cwd(fs, i, parent)?;
    let n = make_83(leaf)?;
    Ok((c, n))
}

// ---------- slots ----------

fn pos_in_sector(b: &[u8], name: &[u8]) -> (r: Result<Option<usize>, ()>)
    requires
        b@.len() == 512,
    ensures
        match (r, model::pos_in_sector(b@, 0, name@)) {
            (Ok(Some(k)), Scan::At(m)) => k == m && k < 16,
            (Err(_), Scan::End) => true,
            (Ok(None), Scan::On) => true,
            _ => false,
        },
{
    let mut k: usize = 0;
    while k < 16
        invariant
            b@.len() == 512,
            k <= 16,
            model::pos_in_sector(b@, 0, name@) == model::pos_in_sector(b@, k as int, name@),
        decreases 16 - k,
    {
        let o: usize = 32 * k;
        if b[o] == 0 {
            return Err(());
        }
        if !(b[o] == 0xE5 || b[o + 11] == 0x0F) && same_bytes(&b[o..o + 11], name) {
            return Ok(Some(k));
        }
        k += 1;
    }
    Ok(None)
}

/// The sector and the slot of the entry with the name.
pub(crate) fn find_pos(fs: &Fs, i: &FatInfo, dir: u32, name: &[u8]) -> (r: Result<
    (u64, usize),
    FsErr,
>)
    requires
        fs.wf(),
        model::info_wf(*i),
    ensures
        match (r, model::find_pos(fs@, *i, dir as int, name@)) {
            (Ok((l, k)), Ok((m, n))) => l == m && k == n && k < 16 && l <= 0x100_0000_0000,
            (Err(e), Err(x)) => e == x,
            _ => false,
        },
{
    proof {
        reveal(model::find_pos);
    }
    let mut clu: u32 = dir;
    let mut fuel: u32 = i.cluster_count + 2;
    while fuel > 0
        invariant
            fs.wf(),
            model::info_wf(*i),
            model::find_pos(fs@, *i, dir as int, name@) == model::pos_in_chain(
                fs@,
                *i,
                clu as int,
                name@,
                fuel as nat,
            ),
        decreases fuel,
    {
        let mut k: u32 = 0;
        while k < i.sec_per_clus
            invariant
                fs.wf(),
                model::info_wf(*i),
                fuel > 0,
                k <= i.sec_per_clus,
                model::find_pos(fs@, *i, dir as int, name@) == model::pos_in_chain(
                    fs@,
                    *i,
                    clu as int,
                    name@,
                    fuel as nat,
                ),
                model::pos_in_clus(fs@, *i, clu as int, 0, name@) == model::pos_in_clus(
                    fs@,
                    *i,
                    clu as int,
                    k as int,
                    name@,
                ),
            decreases i.sec_per_clus - k,
        {
            match read_clus(fs, i, clu, k) {
                None => return Err(FsErr::Io),
                Some(b) => match pos_in_sector(&b, name) {
                    Err(_) => return Err(FsErr::NotFound),
                    Ok(Some(slot)) => return Ok((sector_of(i, clu, k), slot)),
                    Ok(None) => {},
                },
            }
            k += 1;
        }
        let next: u32 = read_fat(fs, i, clu);
        if !goes_on(next) {
            return Err(FsErr::NotFound);
        }
        clu = next;
        fuel -= 1;
    }
    Err(FsErr::Io)
}

pub(crate) fn write_entry_at(fs: &mut Fs, lba: u64, slot: usize, e: &DirEntry) -> (r: Result<
    (),
    FsErr,
>)
    requires
        old(fs).wf(),
        slot < 16,
        e.name@.len() == 11,
    ensures
        final(fs).wf(),
        (final(fs)@, r) == model::write_entry(old(fs)@, lba as int, slot as int, e@),
{
    proof {
        reveal(model::write_entry);
    }
    let mut b = match raw_read(fs, lba) {
        None => return Err(FsErr::Io),
        Some(b) => b,
    };
    let o: usize = 32 * slot;
    put_bytes(&mut b, o, &e.name);
    b[o + 11] = e.attr;
    w16(&mut b, o + 20, (e.cluster / 0x1_0000) as u16);
    w16(&mut b, o + 26, (e.cluster % 0x1_0000) as u16);
    w32(&mut b, o + 28, e.size);
    if !raw_write(fs, lba, &b) {
        return Err(FsErr::Io);
    }
    Ok(())
}

pub(crate) fn wipe_entry_at(fs: &mut Fs, lba: u64, slot: usize) -> (r: Result<(), FsErr>)
    requires
        old(fs).wf(),
        slot < 16,
    ensures
        final(fs).wf(),
        (final(fs)@, r) == model::wipe_entry(old(fs)@, lba as int, slot as int),
{
    proof {
        reveal(model::wipe_entry);
    }
    let mut b = match raw_read(fs, lba) {
        None => return Err(FsErr::Io),
        Some(b) => b,
    };
    b[32 * slot] = 0xE5;
    if !raw_write(fs, lba, &b) {
        return Err(FsErr::Io);
    }
    Ok(())
}

fn free_in_sector(b: &[u8]) -> (r: Option<usize>)
    requires
        b@.len() == 512,
    ensures
        match (r, model::free_in_sector(b@, 0)) {
            (Some(k), Some(m)) => k == m && k < 16,
            (None, None) => true,
            _ => false,
        },
{
    let mut k: usize = 0;
    while k < 16
        invariant
            b@.len() == 512,
            k <= 16,
            model::free_in_sector(b@, 0) == model::free_in_sector(b@, k as int),
        decreases 16 - k,
    {
        if b[32 * k] == 0 || b[32 * k] == 0xE5 {
            return Some(k);
        }
        k += 1;
    }
    None
}

fn free_in_clus(fs: &Fs, i: &FatInfo, clu: u32) -> (r: Result<Option<(u64, usize)>, FsErr>)
    requires
        fs.wf(),
        model::info_wf(*i),
    ensures
        match (r, model::free_in_clus(fs@, *i, clu as int, 0)) {
            (Ok(Some((l, k))), Ok(Some((m, n)))) => l == m && k == n && k < 16 && l
                <= 0x100_0000_0000,
            (Ok(None), Ok(None)) => true,
            (Err(e), Err(x)) => e == x,
            _ => false,
        },
{
    let mut k: u32 = 0;
    while k < i.sec_per_clus
        invariant
            fs.wf(),
            model::info_wf(*i),
            k <= i.sec_per_clus,
            model::free_in_clus(fs@, *i, clu as int, 0) == model::free_in_clus(
                fs@,
                *i,
                clu as int,
                k as int,
            ),
        decreases i.sec_per_clus - k,
    {
        match read_clus(fs, i, clu, k) {
            None => return Err(FsErr::Io),
            Some(b) => {
                if let Some(slot) = free_in_sector(&b) {
                    return Ok(Some((sector_of(i, clu, k), slot)));
                }
            },
        }
        k += 1;
    }
    Ok(None)
}

/// Adds a zeroed cluster behind cluster `clu`.
fn grow_dir(fs: &mut Fs, i: &FatInfo, clu: u32) -> (r: Result<(u64, usize), FsErr>)
    requires
        old(fs).wf(),
        model::info_wf(*i),
    ensures
        final(fs).wf(),
        final(fs)@ == model::grow_dir(old(fs)@, *i, clu as int).0,
        match (r, model::grow_dir(old(fs)@, *i, clu as int).1) {
            (Ok((l, k)), Ok((m, n))) => l == m && k == n && k < 16 && l <= 0x100_0000_0000,
            (Err(e), Err(x)) => e == x,
            _ => false,
        },
{
    proof {
        reveal(model::grow_dir);
    }
    let nc = match alloc_cluster(fs, i) {
        None => return Err(FsErr::NoSpace),
        Some(c) => c,
    };
    if !write_fat(fs, i, clu, nc) {
        return Err(FsErr::Io);
    }
    let zero = zeros(512);
    let ghost s2 = fs@;
    let mut k: u32 = 0;
    while k < i.sec_per_clus
        invariant
            fs.wf(),
            model::info_wf(*i),
            zero@ == bytes::zero_bytes(512),
            k <= i.sec_per_clus,
            model::blank_clus(fs@, *i, nc as int, k as int) == model::blank_clus(
                s2,
                *i,
                nc as int,
                0,
            ),
        decreases i.sec_per_clus - k,
    {
        write_clus(fs, i, nc, k, &zero);
        k += 1;
    }
    Ok((sector_of(i, nc, 0), 0))
}

/// The sector and the slot for a new entry; the directory grows where it has
/// no free slot.
pub(crate) fn find_free_slot(fs: &mut Fs, i: &FatInfo, dir: u32) -> (r: Result<
    (u64, usize),
    FsErr,
>)
    requires
        old(fs).wf(),
        model::info_wf(*i),
    ensures
        final(fs).wf(),
        final(fs)@ == model::find_free_slot(old(fs)@, *i, dir as int).0,
        match (r, model::find_free_slot(old(fs)@, *i, dir as int).1) {
            (Ok((l, k)), Ok((m, n))) => l == m && k == n && k < 16 && l <= 0x100_0000_0000,
            (Err(e), Err(x)) => e == x,
            _ => false,
        },
{
    proof {
        reveal(model::find_free_slot);
    }
    let mut clu: u32 = dir;
    let mut fuel: u32 = i.cluster_count + 2;
    while fuel > 0
        invariant
            fs.wf(),
            fs@ == old(fs)@,
            model::info_wf(*i),
            model::find_free_slot(old(fs)@, *i, dir as int) == model::free_in_chain(
                fs@,
                *i,
                clu as int,
                fuel as nat,
            ),
        decreases fuel,
    {
        if let Some(p) = free_in_clus(fs, i, clu)? {
            return Ok(p);
        }
        let next: u32 = read_fat(fs, i, clu);
        if is_eoc(next) {
            return grow_dir(fs, i, clu);
        }
        clu = next;
        fuel -= 1;
    }
    Err(FsErr::Io)
}

/// Puts an entry into the first free slot of a directory.
pub(crate) fn add_entry(fs: &mut Fs, i: &FatInfo, dir: u32, e: &DirEntry) -> (r: Result<(), FsErr>)
    requires
        old(fs).wf(),
        model::info_wf(*i),
        e.name@.len() == 11,
    ensures
        final(fs).wf(),
        (final(fs)@, r) == model::add_entry(old(fs)@, *i, dir as int, e@),
{
    proof {
        reveal(model::add_entry);
    }
    let (lba, slot) = find_free_slot(fs, i, dir)?;
    write_entry_at(fs, lba, slot, e)
}

} // verus!
