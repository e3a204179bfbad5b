//! The mounted file system: the disk it lives on, what was mounted, and the
//! current directory.

use vstd::prelude::*;
use crate::ata;
use crate::ata::{AtaDevice, Devices};
use crate::bytes;
use crate::bytes::r16;
use crate::disk::{Disk, DiskView};
use crate::ext4;
use crate::fat;
use crate::path;
use crate::path::pop_comp;

pub mod effects;
pub mod laws;
pub mod listing;
pub mod model;

verus! {

pub const SECTOR_SIZE: usize = 512;

pub const MAX_DEPTH: usize = 16;

/// The first sector number that does not fit the 28-bit LBA of an ATA command.
pub const LBA_LIMIT: u64 = 0x1000_0000;

#[derive(Clone, Copy, PartialEq, Eq, Debug, Structural)]
pub enum FsErr {
    NoDevice,
    NotFormatted,
    Unsupported,
    Io,
    NotFound,
    NotDir,
    IsDir,
    Exists,
    BadName,
    TooBig,
    NoSpace,
    NotEmpty,
}

#[derive(Clone, Copy, PartialEq, Eq, Debug, Structural)]
pub enum FsKind {
    Fat,
    Ext4,
}

/// A buffer or an error, with the buffer as a sequence.
pub open spec fn res_view(r: Result<Vec<u8>, FsErr>) -> Result<Seq<u8>, FsErr> {
    match r {
        Ok(v) => Ok(v@),
        Err(e) => Err(e),
    }
}

/// The character that stands for a byte on the screen.
pub open spec fn shown(c: u8) -> char {
    if 0x20 <= c < 0x7F {
        c as char
    } else {
        '?'
    }
}

pub fn show_byte(c: u8) -> (r: char)
    ensures
        r == shown(c),
{
    if 0x20 <= c && c < 0x7F {
        c as char
    } else {
        '?'
    }
}

/// The characters that stand for `bytes` on the screen.
pub fn show_bytes(bytes: &[u8]) -> (r: Vec<char>)
    ensures
        r@ == Seq::new(bytes@.len(), |i: int| shown(bytes@[i])),
{
    let mut r: Vec<char> = Vec::new();
    let mut k: usize = 0;
    while k < bytes.len()
        invariant
            k <= bytes@.len(),
            r@ == Seq::new(k as nat, |i: int| shown(bytes@[i])),
        decreases bytes@.len() - k,
    {
        r.push(show_byte(bytes[k]));
        k += 1;
        assert(r@ =~= Seq::new(k as nat, |i: int| shown(bytes@[i])));
    }
    r
}

/// One line of a directory listing.
pub struct Listing {
    pub name: Vec<char>,
    pub is_dir: bool,
    /// The size in bytes, where it is shown.
    pub size: Option<u64>,
}

#[verifier::ext_equal]
pub struct ListingView {
    pub name: Seq<char>,
    pub is_dir: bool,
    /// The size in bytes, where it is shown.
    pub size: Option<u64>,
}

impl View for Listing {
    type V = ListingView;

    open spec fn view(&self) -> ListingView {
        ListingView { name: self.name@, is_dir: self.is_dir, size: self.size }
    }
}

/// The lines of a listing.
pub open spec fn listing_view(v: Seq<Listing>) -> Seq<ListingView> {
    Seq::new(v.len(), |i: int| v[i]@)
}

/// Where the parts of a FAT32 volume lie.
#[derive(Clone, Copy)]
pub struct FatInfo {
    pub sec_per_clus: u32,
    pub rsvc: u32,
    pub num_fats: u32,
    pub fat_size: u32,
    pub root_clus: u32,
    pub data_start: u32,
    pub cluster_count: u32,
}

/// The size and the features of an ext4 volume.
#[derive(Clone, Copy)]
pub struct Ext4Info {
    pub groups: u32,
    pub total_blocks: u32,
    pub has_csum: bool,
}

/// A block that waits in the journal for the commit.
#[derive(Clone, Copy)]
pub struct JbdPend {
    /// Final destination block.
    pub blk: u32,
    /// Journal-relative slot where the copy was logged.
    pub pos: u32,
}

/// The state of the journal between two commits.
pub struct JbdState {
    /// Physical block where the journal area starts.
    pub base: u32,
    /// Journal-relative slot of the next descriptor.
    pub start: u32,
    /// Sequence number of the next transaction.
    pub seq: u32,
    pub pend: Vec<JbdPend>,
}

#[verifier::ext_equal]
pub struct JbdView {
    pub base: u32,
    pub start: u32,
    pub seq: u32,
    pub pend: Seq<JbdPend>,
}

impl View for JbdState {
    type V = JbdView;

    open spec fn view(&self) -> JbdView {
        JbdView { base: self.base, start: self.start, seq: self.seq, pend: self.pend@ }
    }
}

impl JbdView {
    /// The pending blocks stand in the slots behind the next descriptor, in
    /// order, and the commit block still fits behind them.
    pub open spec fn wf(self) -> bool {
        &&& 1 <= self.start <= 1023
        &&& self.pend.len() <= 1020
        &&& self.pend.len() > 0 ==> self.start + 1 + self.pend.len() <= 1023
        &&& forall|k: int|
            0 <= k < self.pend.len() ==> (#[trigger] self.pend[k]).pos == self.start + 1 + k
    }
}

/// The current directory, as the names of the directories that lead to it.
pub struct Cwd {
    pub parts: Vec<Vec<u8>>,
}

impl View for Cwd {
    type V = Seq<Seq<u8>>;

    open spec fn view(&self) -> Seq<Seq<u8>> {
        Seq::new(self.parts@.len(), |i: int| self.parts@[i]@)
    }
}

pub struct Fs {
    pub disk: Disk,
    pub dev: Option<AtaDevice>,
    pub base: u32,
    pub mount: Option<FsKind>,
    pub fat: Option<FatInfo>,
    pub ext: Option<Ext4Info>,
    pub jbd: Option<JbdState>,
    pub cwd: Cwd,
}

/// What the file systems' contracts speak of.
#[verifier::ext_equal]
pub struct FsView {
    pub disk: DiskView,
    /// The number of sectors of the data disk, where there is one.
    pub dev: Option<u64>,
    pub base: u32,
    pub mount: Option<FsKind>,
    pub fat: Option<FatInfo>,
    pub ext: Option<Ext4Info>,
    pub jbd: Option<JbdView>,
    pub cwd: Seq<Seq<u8>>,
}

impl View for Fs {
    type V = FsView;

    open spec fn view(&self) -> FsView {
        FsView {
            disk: self.disk@,
            dev: match self.dev {
                Some(d) => Some(d.sectors),
                None => None,
            },
            base: self.base,
            mount: self.mount,
            fat: self.fat,
            ext: self.ext,
            jbd: match self.jbd {
                Some(j) => Some(j@),
                None => None,
            },
            cwd: self.cwd@,
        }
    }
}

impl FsView {
    pub open spec fn wf(self) -> bool {
        &&& self.disk.wf()
        &&& self.jbd matches Some(j) ==> j.wf()
        &&& self.ext matches Some(e) ==> 1 <= e.groups <= 1024
        &&& self.fat matches Some(f) ==> crate::fat::model::info_wf(f)
        &&& self.cwd.len() <= MAX_DEPTH
    }

    /// The contents of sector `lba` of the volume, if it can be read.
    pub open spec fn raw_read(self, lba: int) -> Option<Seq<u8>> {
        if self.dev is Some && 0 <= lba && self.base + lba < LBA_LIMIT {
            self.disk.read(self.base + lba)
        } else {
            None
        }
    }

    /// The volume after sector `lba` was written, if it can be written.
    pub open spec fn raw_write(self, lba: int, data: Seq<u8>) -> Option<FsView> {
        if self.dev is Some && 0 <= lba && self.base + lba < LBA_LIMIT {
            match self.disk.write(self.base + lba, data) {
                Some(d) => Some(FsView { disk: d, ..self }),
                None => None,
            }
        } else {
            None
        }
    }
}

/// The two volumes differ in nothing but what the disk holds, and in that
/// the same sectors are there and can be written.
pub open spec fn same_but_disk(s: FsView, t: FsView) -> bool {
    &&& t == FsView { disk: t.disk, ..s }
    &&& t.disk.sec.dom() == s.disk.sec.dom()
    &&& t.disk.fixed == s.disk.fixed
}

impl Fs {
    pub open spec fn wf(&self) -> bool {
        self@.wf()
    }
}

pub(crate) fn raw_read(fs: &Fs, lba: u64) -> (r: Option<Vec<u8>>)
    requires
        fs.wf(),
    ensures
        r is Some <==> fs@.raw_read(lba as int) is Some,
        r is Some ==> r->0@ == fs@.raw_read(lba as int)->0 && r->0@.len() == 512,
{
    if fs.dev.is_none() {
        return None;
    }
    if lba >= LBA_LIMIT || fs.base as u64 + lba >= LBA_LIMIT {
        return None;
    }
    fs.disk.read(fs.base as u64 + lba)
}

pub(crate) fn raw_write(fs: &mut Fs, lba: u64, data: &[u8]) -> (ok: bool)
    requires
        old(fs).wf(),
        data@.len() == 512,
    ensures
        final(fs).wf(),
        ok <==> old(fs)@.raw_write(lba as int, data@) is Some,
        ok ==> final(fs)@ == old(fs)@.raw_write(lba as int, data@)->0,
        !ok ==> final(fs)@ == old(fs)@,
{
    if fs.dev.is_none() {
        return false;
    }
    if lba >= LBA_LIMIT || fs.base as u64 + lba >= LBA_LIMIT {
        return false;
    }
    let l: u64 = fs.base as u64 + lba;
    let ok = fs.disk.write(l, data);
    assert(fs@ =~= FsView { disk: fs.disk@, ..old(fs)@ });
    ok
}

/// The words that report an error to the user.
pub open spec fn err_text(e: FsErr) -> Seq<char> {
    match e {
        FsErr::NoDevice => "no data disk found"@,
        FsErr::NotFormatted => "data disk is not formatted (run \"mkfs\")"@,
        FsErr::Unsupported => "unsupported filesystem features"@,
        FsErr::Io => "I/O error"@,
        FsErr::NotFound => "no such file or directory"@,
        FsErr::NotDir => "not a directory"@,
        FsErr::IsDir => "is a directory"@,
        FsErr::Exists => "already exists"@,
        FsErr::BadName => "invalid name"@,
        FsErr::TooBig => "too many path components or file too big"@,
        FsErr::NoSpace => "out of space"@,
        FsErr::NotEmpty => "directory not empty"@,
    }
}

pub fn err_str(e: FsErr) -> (r: &'static str)
    ensures
        r@ == err_text(e),
{
    match e {
        FsErr::NoDevice => "no data disk found",
        FsErr::NotFormatted => "data disk is not formatted (run \"mkfs\")",
        FsErr::Unsupported => "unsupported filesystem features",
        FsErr::Io => "I/O error",
        FsErr::NotFound => "no such file or directory",
        FsErr::NotDir => "not a directory",
        FsErr::IsDir => "is a directory",
        FsErr::Exists => "already exists",
        FsErr::BadName => "invalid name",
        FsErr::TooBig => "too many path components or file too big",
        FsErr::NoSpace => "out of space",
        FsErr::NotEmpty => "directory not empty",
    }
}

/// Slot `i` holds the data disk: it is present, larger than every disk before
/// it, and no disk behind it is larger.
pub open spec fn is_data_slot(t: Devices, i: int) -> bool {
    &&& 0 <= i < ata::MAX_DEVICES
    &&& t.slots@[i].present
    &&& forall|k: int|
        0 <= k < i && (#[trigger] t.slots@[k]).present ==> t.slots@[k].sectors < t.slots@[i].sectors
    &&& forall|k: int|
        i < k < ata::MAX_DEVICES && (#[trigger] t.slots@[k]).present ==> t.slots@[k].sectors
            <= t.slots@[i].sectors
}

/// The data disk: the largest disk, the first of several of that size.
pub fn data_device(t: &Devices) -> (r: Option<AtaDevice>)
    requires
        t.wf(),
    ensures
        match r {
            Some(d) => exists|i: int| #[trigger] is_data_slot(*t, i) && d == t.slots@[i],
            None => forall|k: int|
                0 <= k < ata::MAX_DEVICES ==> !(#[trigger] t.slots@[k]).present,
        },
{
    let mut best: Option<usize> = None;
    let mut i: usize = 0;
    while i < ata::MAX_DEVICES
        invariant
            t.wf(),
            i <= ata::MAX_DEVICES,
            match best {
                None => forall|k: int| 0 <= k < i ==> !(#[trigger] t.slots@[k]).present,
                Some(b) => {
                    &&& b < i
                    &&& t.slots@[b as int].present
                    &&& forall|k: int|
                        0 <= k < b && (#[trigger] t.slots@[k]).present ==> t.slots@[k].sectors
                            < t.slots@[b as int].sectors
                    &&& forall|k: int|
                        b < k < i && (#[trigger] t.slots@[k]).present ==> t.slots@[k].sectors
                            <= t.slots@[b as int].sectors
                },
            },
        decreases ata::MAX_DEVICES - i,
    {
        if t.slots[i].present {
            match best {
                None => {
                    best = Some(i);
                },
                Some(b) => {
                    if t.slots[i].sectors > t.slots[b].sectors {
                        best = Some(i);
                    }
                },
            }
        }
        i += 1;
    }
    match best {
        None => None,
        Some(b) => {
            assert(is_data_slot(*t, b as int));
            Some(t.slots[b])
        },
    }
}

impl Fs {
    /// A file system that nothing is mounted on yet, on the data disk of the
    /// table.
    pub fn new(disk: Disk, t: &Devices) -> (fs: Fs)
        requires
            disk@.wf(),
            t.wf(),
        ensures
            fs.wf(),
            fs@.disk == disk@,
            fs@.base == 0,
            fs@.mount is None,
            fs@.fat is None,
            fs@.ext is None,
            fs@.jbd is None,
            fs@.cwd.len() == 0,
            match fs@.dev {
                Some(n) => exists|i: int|
                    #[trigger] is_data_slot(*t, i) && n == t.slots@[i].sectors,
                None => forall|k: int|
                    0 <= k < ata::MAX_DEVICES ==> !(#[trigger] t.slots@[k]).present,
            },
    {
        Fs {
            disk,
            dev: data_device(t),
            base: 0,
            mount: None,
            fat: None,
            ext: None,
            jbd: None,
            cwd: Cwd { parts: Vec::new() },
        }
    }
}

pub fn mounted(fs: &Fs) -> (r: bool)
    ensures
        r == fs@.mount is Some,
{
    fs.mount.is_some()
}

fn kind(fs: &Fs) -> (r: Result<FsKind, FsErr>)
    ensures
        r == (match fs@.mount {
            Some(k) => Ok::<FsKind, FsErr>(k),
            None => Err(FsErr::NotFormatted),
        }),
{
    match fs.mount {
        Some(k) => Ok(k),
        None => Err(FsErr::NotFormatted),
    }
}

pub fn fs_name(fs: &Fs) -> (r: &'static str)
    ensures
        r@ == (match fs@.mount {
            Some(FsKind::Fat) => "FAT32"@,
            Some(FsKind::Ext4) => "ext4"@,
            None => "none"@,
        }),
{
    match fs.mount {
        Some(FsKind::Fat) => "FAT32",
        Some(FsKind::Ext4) => "ext4",
        None => "none",
    }
}

/// Mounts the volume that starts at the first sector.
pub fn mount(fs: &mut Fs) -> (r: Result<(), FsErr>)
    requires
        old(fs).wf(),
    ensures
        final(fs).wf(),
        (final(fs)@, r) == model::mount_at(old(fs)@, 0),
{
    mount_at(fs, 0)
}

/// Mounts the volume that starts at sector `base`, as ext4 where it carries
/// the magic number and as FAT32 otherwise.
pub fn mount_at(fs: &mut Fs, base: u32) -> (r: Result<(), FsErr>)
    requires
        old(fs).wf(),
    ensures
        final(fs).wf(),
        (final(fs)@, r) == model::mount_at(old(fs)@, base),
{
    fs.base = base;
    assert(fs@ =~= FsView { base, ..old(fs)@ });
    if fs.dev.is_none() {
        return Err(FsErr::NoDevice);
    }
    let sb = match raw_read(fs, 2) {
        None => return Err(FsErr::Io),
        Some(b) => b,
    };
    if r16(&sb, 56) == 0xEF53 {
        return ext4::mount_at(fs, base);
    }
    fat::mount_at(fs, base)
}

/// Formats the data disk as FAT32.
pub fn mkfs(fs: &mut Fs) -> (r: Result<(), FsErr>)
    requires
        old(fs).wf(),
    ensures
        final(fs).wf(),
        (final(fs)@, r) == fat::model::mkfs_at(old(fs)@, 0),
{
    fat::mkfs_at(fs, 0)
}

/// Formats the data disk as ext4.
pub fn mkfs_ext4(fs: &mut Fs) -> (r: Result<(), FsErr>)
    requires
        old(fs).wf(),
    ensures
        final(fs).wf(),
        (final(fs)@, r) == ext4::layout::mkfs_at(old(fs)@, 0),
{
    ext4::mkfs_at(fs, 0)
}

// ---------- the current directory ----------

fn part_of(name: &[char]) -> (p: Vec<u8>)
    ensures
        p@ == model::part_of(name@),
{
    let mut p: Vec<u8> = Vec::new();
    let mut k: usize = 0;
    while k < name.len() && k < 12
        invariant
            k <= name@.len(),
            k <= 12,
            p@.len() == k,
            forall|j: int| 0 <= j < k ==> #[trigger] p@[j] == name@[j] as u8,
        decreases 12 - k,
    {
        p.push(name[k] as u8);
        k += 1;
    }
    assert(p@ =~= model::part_of(name@));
    p
}

/// A copy of the current directory.
fn copy_cwd(cwd: &Cwd) -> (c: Cwd)
    ensures
        c@ == cwd@,
{
    let mut parts: Vec<Vec<u8>> = Vec::new();
    let mut k: usize = 0;
    while k < cwd.parts.len()
        invariant
            k <= cwd.parts@.len(),
            parts@.len() == k,
            forall|j: int| 0 <= j < k ==> #[trigger] parts@[j]@ == cwd.parts@[j]@,
        decreases cwd.parts@.len() - k,
    {
        parts.push(bytes::copy_of(&cwd.parts[k]));
        k += 1;
    }
    let c = Cwd { parts };
    assert(c@ =~= cwd@);
    c
}

/// The directory that a path names, as it would be the current one.
fn cd_target(cwd: &Cwd, p: &[char]) -> (r: Result<Cwd, FsErr>)
    requires
        cwd@.len() <= 16,
    ensures
        match (r, model::cd_target(cwd@, p@)) {
            (Ok(c), Ok(m)) => c@ == m && m.len() <= 16,
            (Err(e), Err(x)) => e == x,
            _ => false,
        },
{
    let mut cand: Cwd = if p.len() > 0 && p[0] == '/' {
        Cwd { parts: Vec::new() }
    } else {
        copy_cwd(cwd)
    };
    let ghost start = if p@.len() > 0 && p@[0] == '/' {
        Seq::empty()
    } else {
        cwd@
    };
    assert(cand@ =~= start);
    let mut rest: &[char] = p;
    loop
        invariant
            cand@.len() <= 16,
            model::cd_target(cwd@, p@) == model::walk(cand@, path::components(rest@)),
        decreases rest@.len(),
    {
        match pop_comp(rest) {
            None => {
                return Ok(cand);
            },
            Some((comp, tail)) => {
                proof {
                    let all = path::components(rest@);
                    assert(all[0] == comp@);
                    assert(all.skip(1) =~= path::components(tail@));
                }
                let ghost before = cand@;
                if comp.len() == 1 && comp[0] == '.' {
                    assert(comp@ =~= seq!['.']);
                } else if comp.len() == 2 && comp[0] == '.' && comp[1] == '.' {
                    assert(comp@ =~= seq!['.', '.']);
                    if cand.parts.len() > 0 {
                        cand.parts.pop();
                        assert(cand@ =~= before.drop_last());
                    }
                } else {
                    if cand.parts.len() >= MAX_DEPTH {
                        return Err(FsErr::TooBig);
                    }
                    let part = part_of(comp);
                    cand.parts.push(part);
                    assert(cand@ =~= before.push(model::part_of(comp@)));
                }
                rest = tail;
            },
        }
    }
}

/// Changes the current directory, if the new one is there.
pub fn cd(fs: &mut Fs, p: &[char]) -> (r: Result<(), FsErr>)
    requires
        old(fs).wf(),
    ensures
        final(fs).wf(),
        (final(fs)@, r) == model::cd(old(fs)@, p@),
{
    let cand = cd_target(&fs.cwd, p)?;
    match kind(fs)? {
        FsKind::Fat => fat::check_dir(fs, &cand)?,
        FsKind::Ext4 => ext4::check_dir(fs, &cand)?,
    }
    fs.cwd = cand;
    assert(fs@ =~= FsView { cwd: fs@.cwd, ..old(fs)@ });
    Ok(())
}

/// The path of the current directory.
pub fn pwd(fs: &Fs) -> (r: Vec<char>)
    ensures
        r@ == model::pwd(fs@.cwd),
{
    let mut r: Vec<char> = Vec::new();
    let n: usize = fs.cwd.parts.len();
    if n == 0 {
        r.push('/');
        assert(r@ =~= seq!['/']);
        return r;
    }
    let mut k: usize = 0;
    assert(r@ =~= Seq::empty());
    while k < n
        invariant
            k <= n,
            n == fs@.cwd.len(),
            n == fs.cwd.parts@.len(),
            r@ == model::path_of(fs@.cwd, k as int),
        decreases n - k,
    {
        r.push('/');
        let ghost head = r@;
        assert(head =~= model::path_of(fs@.cwd, k as int) + seq!['/']);
        let part = &fs.cwd.parts[k];
        let mut j: usize = 0;
        assert(r@ =~= head + model::lower_chars(part@).take(0));
        while j < part.len()
            invariant
                j <= part@.len(),
                r@ == head + model::lower_chars(part@).take(j as int),
            decreases part@.len() - j,
        {
            r.push(fat::volume::lower(part[j]) as char);
            j += 1;
            assert(r@ =~= head + model::lower_chars(part@).take(j as int));
        }
        assert(model::lower_chars(part@).take(part@.len() as int) =~= model::lower_chars(part@));
        k += 1;
    }
    r
}

// ---------- command dispatch ----------

/// Commits the journal transaction of a command, so that each command is
/// crash-atomic on ext4.
fn commit_after(fs: &mut Fs, r0: Result<(), FsErr>) -> (r: Result<(), FsErr>)
    requires
        old(fs).wf(),
    ensures
        final(fs).wf(),
        (final(fs)@, r) == model::commit_after(old(fs)@, r0),
{
    if let Some(FsKind::Ext4) = fs.mount {
        ext4::jbd_commit(fs)?;
    }
    r0
}

/// The lines of a directory listing, and how the listing ends.
pub fn ls(fs: &Fs, p: &[char]) -> (r: (Vec<Listing>, Result<(), FsErr>))
    requires
        fs.wf(),
    ensures
        (listing_view(r.0@), r.1) == model::ls(fs@, p@),
{
    match fs.mount {
        None => {
            let none: Vec<Listing> = Vec::new();
            assert(listing_view(none@) =~= Seq::empty());
            (none, Err(FsErr::NotFormatted))
        },
        Some(FsKind::Fat) => fat::ls(fs, p),
        Some(FsKind::Ext4) => ext4::ls(fs, p),
    }
}

/// What `cat` shows of a file, and how it ends.
pub fn cat(fs: &Fs, p: &[char]) -> (r: (Vec<char>, Result<(), FsErr>))
    requires
        fs.wf(),
    ensures
        (r.0@, r.1) == model::cat(fs@, p@),
{
    match fs.mount {
        None => {
            let none: Vec<char> = Vec::new();
            assert(none@ =~= Seq::empty());
            (none, Err(FsErr::NotFormatted))
        },
        Some(FsKind::Fat) => fat::cat(fs, p),
        Some(FsKind::Ext4) => ext4::cat(fs, p),
    }
}

/// Reads a file into `out`, as much as fits; returns the number of bytes.
pub fn read_file(fs: &Fs, p: &[char], out: &mut [u8]) -> (r: Result<usize, FsErr>)
    requires
        fs.wf(),
    ensures
        final(out)@ == bytes::splice(
            old(out)@,
            0,
            model::read_file(fs@, p@, old(out)@.len() as int).0,
        ),
        model::read_file(fs@, p@, old(out)@.len() as int).0.len() <= old(out)@.len(),
        r == (match model::read_file(fs@, p@, old(out)@.len() as int) {
            (d, None) => Ok::<usize, FsErr>(d.len() as usize),
            (_, Some(e)) => Err(e),
        }),
{
    assert(bytes::splice(out@, 0, Seq::empty()) =~= out@);
    match kind(fs)? {
        FsKind::Fat => fat::read_file(fs, p, out),
        FsKind::Ext4 => ext4::read_file(fs, p, out),
    }
}

pub fn mkdir(fs: &mut Fs, p: &[char]) -> (r: Result<(), FsErr>)
    requires
        old(fs).wf(),
    ensures
        final(fs).wf(),
        (final(fs)@, r) == model::mkdir(old(fs)@, p@),
{
    let r = match kind(fs)? {
        FsKind::Fat => fat::mkdir(fs, p),
        FsKind::Ext4 => ext4::mkdir(fs, p),
    };
    commit_after(fs, r)
}

pub fn touch(fs: &mut Fs, p: &[char]) -> (r: Result<(), FsErr>)
    requires
        old(fs).wf(),
    ensures
        final(fs).wf(),
        (final(fs)@, r) == model::touch(old(fs)@, p@),
{
    let r = match kind(fs)? {
        FsKind::Fat => fat::touch(fs, p),
        FsKind::Ext4 => ext4::touch(fs, p),
    };
    commit_after(fs, r)
}

pub fn rm(fs: &mut Fs, p: &[char]) -> (r: Result<(), FsErr>)
    requires
        old(fs).wf(),
    ensures
        final(fs).wf(),
        (final(fs)@, r) == model::rm(old(fs)@, p@),
{
    let r = match kind(fs)? {
        FsKind::Fat => fat::rm(fs, p),
        FsKind::Ext4 => ext4::rm(fs, p),
    };
    commit_after(fs, r)
}

pub fn rmdir(fs: &mut Fs, p: &[char]) -> (r: Result<(), FsErr>)
    requires
        old(fs).wf(),
    ensures
        final(fs).wf(),
        (final(fs)@, r) == model::rmdir(old(fs)@, p@),
{
    let r = match kind(fs)? {
        FsKind::Fat => fat::rmdir(fs, p),
        FsKind::Ext4 => ext4::rmdir(fs, p),
    };
    commit_after(fs, r)
}

pub fn mv(fs: &mut Fs, from: &[char], to: &[char]) -> (r: Result<(), FsErr>)
    requires
        old(fs).wf(),
    ensures
        final(fs).wf(),
        (final(fs)@, r) == model::mv(old(fs)@, from@, to@),
{
    let r = match kind(fs)? {
        FsKind::Fat => fat::mv(fs, from, to),
        FsKind::Ext4 => ext4::mv(fs, from, to),
    };
    commit_after(fs, r)
}

pub fn write_file(fs: &mut Fs, p: &[char], data: &[u8]) -> (r: Result<(), FsErr>)
    requires
        old(fs).wf(),
    ensures
        final(fs).wf(),
        (final(fs)@, r) == model::write_file(old(fs)@, p@, data@),
{
    let r = match kind(fs)? {
        FsKind::Fat => fat::write_file(fs, p, data),
        FsKind::Ext4 => ext4::write_file(fs, p, data),
    };
    commit_after(fs, r)
}

} // verus!
