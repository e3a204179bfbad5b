//! What the FAT32 driver computes, as functions of the volume.
//!
//! As in the ext4 model, each function takes the state of the mounted file
//! system and says what an operation returns and which state it leaves behind,
//! on every path.

use vstd::prelude::*;
use crate::bytes::{put16, put32, splice, u16_at, u32_at, zero_bytes};
use crate::fs::{shown, FatInfo, FsErr, FsKind, FsView, ListingView};
use crate::path::{components, parent_and_leaf};

verus! {

pub open spec fn info_wf(i: FatInfo) -> bool {
    &&& 1 <= i.sec_per_clus <= 128
    &&& 1 <= i.num_fats <= 4
    &&& 2 <= i.root_clus
    &&& i.cluster_count + 2 <= u32::MAX
}

// ---------- sectors ----------

pub open spec fn put_sector(s: FsView, lba: int, data: Seq<u8>) -> (FsView, bool) {
    match s.raw_write(lba, data) {
        Some(s1) => (s1, true),
        None => (s, false),
    }
}

/// The number of the `k`-th sector of cluster `clu`; clusters are counted
/// from 2.
pub open spec fn sector_of(i: FatInfo, clu: int, k: int) -> int {
    i.data_start + (clu - 2) * i.sec_per_clus + k
}

pub open spec fn read_clus(s: FsView, i: FatInfo, clu: int, k: int) -> Option<Seq<u8>> {
    if clu < 2 {
        None
    } else {
        s.raw_read(sector_of(i, clu, k))
    }
}

pub open spec fn write_clus(s: FsView, i: FatInfo, clu: int, k: int, data: Seq<u8>) -> (
    FsView,
    bool,
) {
    if clu < 2 {
        (s, false)
    } else {
        put_sector(s, sector_of(i, clu, k), data)
    }
}

// ---------- the allocation table ----------

/// The table entry ends a chain.
pub open spec fn is_eoc(v: u32) -> bool {
    v % 0x1000_0000 >= 0x0FFF_FFF8
}

/// The chain goes on behind a cluster with this table entry.
pub open spec fn goes_on(v: u32) -> bool {
    !is_eoc(v) && v >= 2
}

/// The sector of the first table that holds the entry of cluster `clu`.
pub open spec fn fat_sector(i: FatInfo, clu: int) -> int {
    i.rsvc + clu / 128
}

pub open spec fn fat_off(clu: int) -> int {
    4 * (clu % 128)
}

/// The table entry of cluster `clu`; the end mark where it cannot be read.
pub open spec fn read_fat(s: FsView, i: FatInfo, clu: int) -> u32 {
    match s.raw_read(fat_sector(i, clu)) {
        None => 0x0FFF_FFF8,
        Some(b) => u32_at(b, fat_off(clu)),
    }
}

/// Writes a table sector to the tables from the `f`-th on.
pub open spec fn write_tables(s: FsView, i: FatInfo, sec: int, b: Seq<u8>, f: int) -> (FsView, bool)
    decreases i.num_fats - f,
{
    if f >= i.num_fats {
        (s, true)
    } else {
        match s.raw_write(sec + f * i.fat_size, b) {
            None => (s, false),
            Some(s1) => write_tables(s1, i, sec, b, f + 1),
        }
    }
}

#[verifier::opaque]
pub open spec fn write_fat(s: FsView, i: FatInfo, clu: int, val: u32) -> (FsView, bool) {
    match s.raw_read(fat_sector(i, clu)) {
        None => (s, false),
        Some(b) => write_tables(s, i, fat_sector(i, clu), put32(b, fat_off(clu), val), 0),
    }
}

/// Takes the first free cluster from `c` on.
pub open spec fn alloc_from(s: FsView, i: FatInfo, c: int) -> (FsView, Option<u32>)
    decreases i.cluster_count + 2 - c,
{
    if c >= i.cluster_count + 2 {
        (s, None)
    } else if read_fat(s, i, c) == 0 {
        let (s1, ok) = write_fat(s, i, c, 0x0FFF_FFF8);
        if ok {
            (s1, Some(c as u32))
        } else {
            alloc_from(s1, i, c + 1)
        }
    } else {
        alloc_from(s, i, c + 1)
    }
}

/// Takes the first free cluster of the volume.
#[verifier::opaque]
pub open spec fn alloc_cluster(s: FsView, i: FatInfo) -> (FsView, Option<u32>) {
    alloc_from(s, i, 2)
}

/// Frees the chain that starts at `clu`, up to `fuel` clusters of it.
pub open spec fn free_from(s: FsView, i: FatInfo, clu: int, fuel: nat) -> FsView
    decreases fuel,
{
    if fuel == 0 {
        s
    } else {
        let next = read_fat(s, i, clu);
        let s1 = write_fat(s, i, clu, 0).0;
        if goes_on(next) {
            free_from(s1, i, next as int, (fuel - 1) as nat)
        } else {
            s1
        }
    }
}

#[verifier::opaque]
pub open spec fn free_chain(s: FsView, i: FatInfo, clu: u32) -> FsView {
    if clu < 2 {
        s
    } else {
        free_from(s, i, clu as int, 2_000_000)
    }
}

// ---------- names ----------

pub open spec fn upper(b: u8) -> u8 {
    if 97 <= b <= 122 {
        (b - 32) as u8
    } else {
        b
    }
}

pub open spec fn lower(b: u8) -> u8 {
    if 65 <= b <= 90 {
        (b + 32) as u8
    } else {
        b
    }
}

/// A character that may stand in a name, besides the one dot.
pub open spec fn name_char(c: char) -> bool {
    (c as u32) < 0x80 && c != '\0' && c != '/' && c != '\\' && c != ' '
}

/// The position of the first dot, or the length where there is none.
pub open spec fn dot_pos(name: Seq<char>) -> int
    decreases name.len(),
{
    if name.len() == 0 || name[0] == '.' {
        0
    } else {
        1 + dot_pos(name.skip(1))
    }
}

/// The part of a name before the dot.
pub open spec fn stem(name: Seq<char>) -> Seq<char> {
    name.take(dot_pos(name))
}

/// The part of a name behind the dot.
pub open spec fn extension(name: Seq<char>) -> Seq<char> {
    if dot_pos(name) < name.len() {
        name.skip(dot_pos(name) + 1)
    } else {
        Seq::empty()
    }
}

pub open spec fn all_name_chars(name: Seq<char>) -> bool {
    forall|k: int| 0 <= k < name.len() ==> name_char(#[trigger] name[k])
}

pub open spec fn no_dots(name: Seq<char>) -> bool {
    forall|k: int| 0 <= k < name.len() ==> #[trigger] name[k] != '.'
}

/// A name that fits eight characters, a dot and three characters.
pub open spec fn valid_83(name: Seq<char>) -> bool {
    &&& 1 <= stem(name).len() <= 8
    &&& extension(name).len() <= 3
    &&& all_name_chars(stem(name))
    &&& all_name_chars(extension(name))
    &&& no_dots(extension(name))
}

/// The upper-case bytes of `part`, padded with spaces to `n`.
pub open spec fn padded(part: Seq<char>, n: nat) -> Seq<u8> {
    Seq::new(
        n,
        |k: int|
            if k < part.len() {
                upper(part[k] as u8)
            } else {
                32u8
            },
    )
}

/// The eleven bytes under which a directory holds a name.
pub open spec fn make_83(name: Seq<char>) -> Result<Seq<u8>, FsErr> {
    if valid_83(name) {
        Ok(padded(stem(name), 8) + padded(extension(name), 3))
    } else {
        Err(FsErr::BadName)
    }
}

/// The eleven bytes for a name of the current directory.
pub open spec fn part_83(part: Seq<u8>) -> Seq<u8> {
    Seq::new(
        11,
        |k: int|
            if k < part.len() {
                upper(part[k])
            } else {
                32u8
            },
    )
}

// ---------- directories ----------

/// A directory entry.
#[verifier::ext_equal]
pub struct Entry {
    pub name: Seq<u8>,
    pub attr: u8,
    pub cluster: u32,
    pub size: u32,
}

impl Entry {
    pub open spec fn is_dir(self) -> bool {
        self.attr / 16 % 2 == 1
    }
}

/// The entry at offset `o` of a directory sector.
pub open spec fn entry_at(b: Seq<u8>, o: int) -> Entry {
    Entry {
        name: b.subrange(o, o + 11),
        attr: b[o + 11],
        cluster: (0x1_0000 * u16_at(b, o + 20) + u16_at(b, o + 26)) as u32,
        size: u32_at(b, o + 28),
    }
}

/// The slot at offset `o` was wiped or holds a part of a long name.
pub open spec fn unused(b: Seq<u8>, o: int) -> bool {
    b[o] == 0xE5 || b[o + 11] == 0x0F
}

/// The slot at offset `o` holds the entry `.` or `..`.
pub open spec fn dotted(b: Seq<u8>, o: int) -> bool {
    b[o] == 46 && (b[o + 1] == 32 || b[o + 1] == 46)
}

/// The entries of a directory sector from slot `k` on, and whether the
/// directory ends in this sector.
pub open spec fn sector_list(b: Seq<u8>, k: int) -> (Seq<Entry>, bool)
    decreases 16 - k,
{
    if k >= 16 {
        (Seq::empty(), false)
    } else if b[32 * k] == 0 {
        (Seq::empty(), true)
    } else {
        let (rest, ends) = sector_list(b, k + 1);
        if unused(b, 32 * k) || dotted(b, 32 * k) {
            (rest, ends)
        } else {
            (seq![entry_at(b, 32 * k)] + rest, ends)
        }
    }
}

/// The entries of a directory cluster from its `k`-th sector on, and whether
/// the directory ends there; it also ends at a sector that cannot be read.
pub open spec fn clus_list(s: FsView, i: FatInfo, clu: int, k: int) -> (Seq<Entry>, bool)
    decreases i.sec_per_clus - k,
{
    if k >= i.sec_per_clus {
        (Seq::empty(), false)
    } else {
        match read_clus(s, i, clu, k) {
            None => (Seq::empty(), true),
            Some(b) => {
                let (es, ends) = sector_list(b, 0);
                if ends {
                    (es, true)
                } else {
                    let (rest, end2) = clus_list(s, i, clu, k + 1);
                    (es + rest, end2)
                }
            },
        }
    }
}

/// The entries of the directory chain from cluster `clu` on, through at most
/// `fuel` clusters.
pub open spec fn chain_list(s: FsView, i: FatInfo, clu: int, fuel: nat) -> Seq<Entry>
    decreases fuel,
{
    if fuel == 0 {
        Seq::empty()
    } else {
        let (es, ends) = clus_list(s, i, clu, 0);
        let next = read_fat(s, i, clu);
        if ends || !goes_on(next) {
            es
        } else {
            es + chain_list(s, i, next as int, (fuel - 1) as nat)
        }
    }
}

/// The entries of the directory at cluster `dir`.
#[verifier::opaque]
pub open spec fn dir_list(s: FsView, i: FatInfo, dir: int) -> Seq<Entry> {
    chain_list(s, i, dir, i.cluster_count as nat)
}

/// The first entry; the first with the name, where one is asked for.
pub open spec fn first_match(es: Seq<Entry>, want: Option<Seq<u8>>) -> Option<Entry>
    decreases es.len(),
{
    if es.len() == 0 {
        None
    } else if want is None || es[0].name == want->0 {
        Some(es[0])
    } else {
        first_match(es.skip(1), want)
    }
}

pub open spec fn look_up(s: FsView, i: FatInfo, dir: int, name: Seq<u8>) -> Result<Entry, FsErr> {
    match first_match(dir_list(s, i, dir), Some(name)) {
        Some(e) => Ok(e),
        None => Err(FsErr::NotFound),
    }
}

/// The cluster of the directory `name` in directory `dir`.
pub open spec fn look_up_dir(s: FsView, i: FatInfo, dir: int, name: Seq<u8>) -> Result<u32, FsErr> {
    match look_up(s, i, dir, name) {
        Err(e) => Err(e),
        Ok(e) => if e.is_dir() {
            Ok(e.cluster)
        } else {
            Err(FsErr::NotDir)
        },
    }
}

/// The cluster that the first `..` of a sector names, from slot `k` on.
pub open spec fn dotdot_in_sector(b: Seq<u8>, k: int) -> Option<u32>
    decreases 16 - k,
{
    let o = 32 * k;
    if k >= 16 {
        None
    } else if b[o] == 46 && b[o + 1] == 46 && b[o + 2] == 32 && b[o + 11] != 0x0F {
        Some(entry_at(b, o).cluster)
    } else {
        dotdot_in_sector(b, k + 1)
    }
}

pub open spec fn dotdot_in_clus(s: FsView, i: FatInfo, clu: int, k: int) -> Option<u32>
    decreases i.sec_per_clus - k,
{
    if k >= i.sec_per_clus {
        None
    } else {
        match read_clus(s, i, clu, k) {
            None => None,
            Some(b) => match dotdot_in_sector(b, 0) {
                Some(p) => Some(p),
                None => dotdot_in_clus(s, i, clu, k + 1),
            },
        }
    }
}

pub open spec fn dotdot_in_chain(s: FsView, i: FatInfo, clu: int, fuel: nat) -> Option<u32>
    decreases fuel,
{
    if fuel == 0 {
        None
    } else {
        match dotdot_in_clus(s, i, clu, 0) {
            Some(p) => Some(p),
            None => {
                let next = read_fat(s, i, clu);
                if goes_on(next) {
                    dotdot_in_chain(s, i, next as int, (fuel - 1) as nat)
                } else {
                    None
                }
            },
        }
    }
}

/// The directory above `clu`: what its `..` names, and the root where that is
/// missing or 0.
#[verifier::opaque]
pub open spec fn parent_of(s: FsView, i: FatInfo, clu: u32) -> u32 {
    if clu == i.root_clus {
        i.root_clus
    } else {
        match dotdot_in_chain(s, i, clu as int, i.cluster_count as nat) {
            Some(p) => if p == 0 {
                i.root_clus
            } else {
                p
            },
            None => i.root_clus,
        }
    }
}

/// Follows the components of a path from cluster `clu`.
pub open spec fn follow(s: FsView, i: FatInfo, clu: u32, names: Seq<Seq<char>>) -> Result<
    u32,
    FsErr,
>
    decreases names.len(),
{
    if names.len() == 0 {
        Ok(clu)
    } else if names[0] == seq!['.'] {
        follow(s, i, clu, names.skip(1))
    } else if names[0] == seq!['.', '.'] {
        follow(s, i, parent_of(s, i, clu), names.skip(1))
    } else {
        match make_83(names[0]) {
            Err(e) => Err(e),
            Ok(n) => match look_up_dir(s, i, clu as int, n) {
                Err(e) => Err(e),
                Ok(c) => follow(s, i, c, names.skip(1)),
            },
        }
    }
}

/// Follows the names of a current directory from cluster `clu`.
pub open spec fn follow_parts(s: FsView, i: FatInfo, clu: u32, parts: Seq<Seq<u8>>) -> Result<
    u32,
    FsErr,
>
    decreases parts.len(),
{
    if parts.len() == 0 {
        Ok(clu)
    } else {
        match look_up_dir(s, i, clu as int, part_83(parts[0])) {
            Err(e) => Err(e),
            Ok(c) => follow_parts(s, i, c, parts.skip(1)),
        }
    }
}

pub open spec fn check_dir(s: FsView, parts: Seq<Seq<u8>>) -> Result<(), FsErr> {
    match s.fat {
        None => Err(FsErr::NotFormatted),
        Some(i) => match follow_parts(s, i, i.root_clus, parts) {
            Err(e) => Err(e),
            Ok(_) => Ok(()),
        },
    }
}

/// The directory that a path names, from the root or the current directory.
#[verifier::opaque]
pub open spec fn resolve_from_cwd(s: FsView, i: FatInfo, path: Seq<char>) -> Result<u32, FsErr> {
    if path.len() > 0 && path[0] == '/' {
        follow(s, i, i.root_clus, components(path))
    } else {
        match follow_parts(s, i, i.root_clus, s.cwd) {
            Err(e) => Err(e),
            Ok(c) => follow(s, i, c, components(path)),
        }
    }
}

/// The directory and the name that a path stands for.
#[verifier::opaque]
pub open spec fn target(s: FsView, i: FatInfo, path: Seq<char>) -> Result<(u32, Seq<u8>), FsErr> {
    let (parent, leaf) = parent_and_leaf(path);
    match resolve_from_cwd(s, i, parent) {
        Err(e) => Err(e),
        Ok(c) => match make_83(leaf) {
            Err(e) => Err(e),
            Ok(n) => Ok((c, n)),
        },
    }
}

/// Where a search through a directory stands.
pub enum Scan {
    /// The slot with this number.
    At(int),
    /// The directory ends here.
    End,
    /// Nothing so far.
    On,
}

/// The first slot of a sector that holds the name, from slot `k` on.
pub open spec fn pos_in_sector(b: Seq<u8>, k: int, name: Seq<u8>) -> Scan
    decreases 16 - k,
{
    if k >= 16 {
        Scan::On
    } else if b[32 * k] == 0 {
        Scan::End
    } else if !unused(b, 32 * k) && b.subrange(32 * k, 32 * k + 11) == name {
        Scan::At(k)
    } else {
        pos_in_sector(b, k + 1, name)
    }
}

/// The sector and the slot of the name in a cluster; no answer where the
/// search goes on in the next cluster.
pub open spec fn pos_in_clus(s: FsView, i: FatInfo, clu: int, k: int, name: Seq<u8>) -> Result<
    Option<(int, int)>,
    FsErr,
>
    decreases i.sec_per_clus - k,
{
    if k >= i.sec_per_clus {
        Ok(None)
    } else {
        match read_clus(s, i, clu, k) {
            None => Err(FsErr::Io),
            Some(b) => match pos_in_sector(b, 0, name) {
                Scan::At(slot) => Ok(Some((sector_of(i, clu, k), slot))),
                Scan::End => Err(FsErr::NotFound),
                Scan::On => pos_in_clus(s, i, clu, k + 1, name),
            },
        }
    }
}

pub open spec fn pos_in_chain(s: FsView, i: FatInfo, clu: int, name: Seq<u8>, fuel: nat) -> Result<
    (int, int),
    FsErr,
>
    decreases fuel,
{
    if fuel == 0 {
        Err(FsErr::Io)
    } else {
        match pos_in_clus(s, i, clu, 0, name) {
            Err(e) => Err(e),
            Ok(Some(p)) => Ok(p),
            Ok(None) => {
                let next = read_fat(s, i, clu);
                if goes_on(next) {
                    pos_in_chain(s, i, next as int, name, (fuel - 1) as nat)
                } else {
                    Err(FsErr::NotFound)
                }
            },
        }
    }
}

/// The sector and the slot of the entry with the name.
#[verifier::opaque]
pub open spec fn find_pos(s: FsView, i: FatInfo, dir: int, name: Seq<u8>) -> Result<
    (int, int),
    FsErr,
> {
    pos_in_chain(s, i, dir, name, (i.cluster_count + 2) as nat)
}

/// `b` with the entry put into slot `slot`.
pub open spec fn with_entry(b: Seq<u8>, slot: int, e: Entry) -> Seq<u8> {
    let o = 32 * slot;
    put32(
        put16(
            put16(
                splice(b, o, e.name).update(o + 11, e.attr),
                o + 20,
                (e.cluster / 0x1_0000) as u16,
            ),
            o + 26,
            (e.cluster % 0x1_0000) as u16,
        ),
        o + 28,
        e.size,
    )
}

#[verifier::opaque]
pub open spec fn write_entry(s: FsView, lba: int, slot: int, e: Entry) -> (
    FsView,
    Result<(), FsErr>,
) {
    match s.raw_read(lba) {
        None => (s, Err(FsErr::Io)),
        Some(b) => {
            let (s1, ok) = put_sector(s, lba, with_entry(b, slot, e));
            if ok {
                (s1, Ok(()))
            } else {
                (s1, Err(FsErr::Io))
            }
        },
    }
}

#[verifier::opaque]
pub open spec fn wipe_entry(s: FsView, lba: int, slot: int) -> (FsView, Result<(), FsErr>) {
    match s.raw_read(lba) {
        None => (s, Err(FsErr::Io)),
        Some(b) => {
            let (s1, ok) = put_sector(s, lba, b.update(32 * slot, 0xE5));
            if ok {
                (s1, Ok(()))
            } else {
                (s1, Err(FsErr::Io))
            }
        },
    }
}

/// The first free slot of a sector, from slot `k` on.
pub open spec fn free_in_sector(b: Seq<u8>, k: int) -> Option<int>
    decreases 16 - k,
{
    if k >= 16 {
        None
    } else if b[32 * k] == 0 || b[32 * k] == 0xE5 {
        Some(k)
    } else {
        free_in_sector(b, k + 1)
    }
}

pub open spec fn free_in_clus(s: FsView, i: FatInfo, clu: int, k: int) -> Result<
    Option<(int, int)>,
    FsErr,
>
    decreases i.sec_per_clus - k,
{
    if k >= i.sec_per_clus {
        Ok(None)
    } else {
        match read_clus(s, i, clu, k) {
            None => Err(FsErr::Io),
            Some(b) => match free_in_sector(b, 0) {
                Some(slot) => Ok(Some((sector_of(i, clu, k), slot))),
                None => free_in_clus(s, i, clu, k + 1),
            },
        }
    }
}

/// Zeroes the sectors of cluster `clu` from the `k`-th on, as far as they can
/// be written.
pub open spec fn blank_clus(s: FsView, i: FatInfo, clu: int, k: int) -> FsView
    decreases i.sec_per_clus - k,
{
    if k >= i.sec_per_clus {
        s
    } else {
        blank_clus(write_clus(s, i, clu, k, zero_bytes(512)).0, i, clu, k + 1)
    }
}

/// Adds a zeroed cluster behind cluster `clu`.
#[verifier::opaque]
pub open spec fn grow_dir(s: FsView, i: FatInfo, clu: int) -> (FsView, Result<(int, int), FsErr>) {
    let (s1, r1) = alloc_cluster(s, i);
    match r1 {
        None => (s1, Err(FsErr::NoSpace)),
        Some(nc) => {
            let (s2, ok) = write_fat(s1, i, clu, nc);
            if !ok {
                (s2, Err(FsErr::Io))
            } else {
                (blank_clus(s2, i, nc as int, 0), Ok((sector_of(i, nc as int, 0), 0)))
            }
        },
    }
}

pub open spec fn free_in_chain(s: FsView, i: FatInfo, clu: int, fuel: nat) -> (
    FsView,
    Result<(int, int), FsErr>,
)
    decreases fuel,
{
    if fuel == 0 {
        (s, Err(FsErr::Io))
    } else {
        match free_in_clus(s, i, clu, 0) {
            Err(e) => (s, Err(e)),
            Ok(Some(p)) => (s, Ok(p)),
            Ok(None) => {
                let next = read_fat(s, i, clu);
                if is_eoc(next) {
                    grow_dir(s, i, clu)
                } else {
                    free_in_chain(s, i, next as int, (fuel - 1) as nat)
                }
            },
        }
    }
}

/// The sector and the slot for a new entry; the directory grows where it has
/// no free slot.
#[verifier::opaque]
pub open spec fn find_free_slot(s: FsView, i: FatInfo, dir: int) -> (
    FsView,
    Result<(int, int), FsErr>,
) {
    free_in_chain(s, i, dir, (i.cluster_count + 2) as nat)
}

/// Puts an entry into the first free slot of a directory.
#[verifier::opaque]
pub open spec fn add_entry(s: FsView, i: FatInfo, dir: int, e: Entry) -> (
    FsView,
    Result<(), FsErr>,
) {
    let (s1, r1) = find_free_slot(s, i, dir);
    match r1 {
        Err(x) => (s1, Err(x)),
        Ok((lba, slot)) => write_entry(s1, lba, slot, e),
    }
}

// ---------- file data ----------

pub open spec fn min_int(a: int, b: int) -> int {
    if a <= b {
        a
    } else {
        b
    }
}

/// The bytes of cluster `clu` from offset `off` on, up to `n`, and whether a
/// sector could not be read.
pub open spec fn clus_data(s: FsView, i: FatInfo, clu: int, off: int, n: int) -> (Seq<u8>, bool)
    decreases n - off,
{
    if off >= n {
        (Seq::empty(), false)
    } else {
        match read_clus(s, i, clu, off / 512) {
            None => (Seq::empty(), true),
            Some(b) => {
                let m = min_int(n - off, 512);
                let (rest, bad) = clus_data(s, i, clu, off + m, n);
                (b.subrange(0, m) + rest, bad)
            },
        }
    }
}

/// Up to `left` bytes of the chain from cluster `clu` on, and whether a
/// sector could not be read.
pub open spec fn chain_data(s: FsView, i: FatInfo, clu: int, left: int, fuel: nat) -> (
    Seq<u8>,
    bool,
)
    decreases fuel,
{
    if left <= 0 || fuel == 0 {
        (Seq::empty(), false)
    } else {
        let n = min_int(left, i.sec_per_clus * 512);
        let (d, bad) = clus_data(s, i, clu, 0, n);
        let next = read_fat(s, i, clu);
        if bad || !goes_on(next) {
            (d, bad)
        } else {
            let (rest, bad2) = chain_data(s, i, next as int, left - n, (fuel - 1) as nat);
            (d + rest, bad2)
        }
    }
}

/// Writes the bytes `at .. at + n` of the data to cluster `clu`, from offset
/// `off` on.
pub open spec fn fill_clus(
    s: FsView,
    i: FatInfo,
    clu: int,
    data: Seq<u8>,
    at: int,
    off: int,
    n: int,
) -> (FsView, bool)
    decreases n - off,
{
    if off >= n {
        (s, true)
    } else {
        let m = min_int(n - off, 512);
        let (s1, ok) = write_clus(
            s,
            i,
            clu,
            off / 512,
            splice(zero_bytes(512), 0, data.subrange(at + off, at + off + m)),
        );
        if ok {
            fill_clus(s1, i, clu, data, at, off + m, n)
        } else {
            (s1, false)
        }
    }
}

/// Writes the data to the clusters of the list from the `k`-th on.
pub open spec fn fill_chain(s: FsView, i: FatInfo, chain: Seq<u32>, data: Seq<u8>, k: int) -> (
    FsView,
    bool,
)
    decreases chain.len() - k,
{
    let size = i.sec_per_clus * 512;
    if k >= chain.len() {
        (s, true)
    } else {
        let (s1, ok) = fill_clus(
            s,
            i,
            chain[k] as int,
            data,
            k * size,
            0,
            min_int(data.len() - k * size, size),
        );
        if ok {
            fill_chain(s1, i, chain, data, k + 1)
        } else {
            (s1, false)
        }
    }
}

/// The number of clusters for `len` bytes.
pub open spec fn clusters_for(i: FatInfo, len: int) -> int {
    let size = i.sec_per_clus * 512;
    (len + size - 1) / size
}

/// Takes clusters until the chain has `need` of them, each linked to the one
/// before.
pub open spec fn extend_chain(s: FsView, i: FatInfo, chain: Seq<u32>, need: int) -> (
    FsView,
    Option<Seq<u32>>,
)
    decreases need - chain.len(),
{
    if chain.len() >= need {
        (s, Some(chain))
    } else {
        let (s1, r1) = alloc_cluster(s, i);
        match r1 {
            None => (s1, None),
            Some(nc) => {
                let s2 = if chain.len() > 0 {
                    write_fat(s1, i, chain.last() as int, nc).0
                } else {
                    s1
                };
                extend_chain(s2, i, chain.push(nc), need)
            },
        }
    }
}

/// Takes a chain of `need` clusters and ends it.
#[verifier::opaque]
pub open spec fn alloc_chain(s: FsView, i: FatInfo, need: int) -> (FsView, Option<Seq<u32>>) {
    let (s1, r1) = extend_chain(s, i, Seq::empty(), need);
    match r1 {
        None => (s1, None),
        Some(c) => if c.len() == 0 {
            (s1, Some(c))
        } else {
            (write_fat(s1, i, c.last() as int, 0x0FFF_FFF8).0, Some(c))
        },
    }
}

// ---------- commands ----------

/// The name of an entry as a listing shows it.
pub open spec fn stem_len(name: Seq<u8>, k: int) -> int
    decreases 8 - k,
{
    if k >= 8 || name[k] == 32 {
        k
    } else {
        stem_len(name, k + 1)
    }
}

/// The bytes of `name` from the `k`-th on that are not spaces, in lower case.
pub open spec fn shown_ext(name: Seq<u8>, k: int) -> Seq<char>
    decreases 11 - k,
{
    if k >= 11 {
        Seq::empty()
    } else if name[k] == 32 {
        shown_ext(name, k + 1)
    } else {
        seq![lower(name[k]) as char] + shown_ext(name, k + 1)
    }
}

pub open spec fn shown_name(name: Seq<u8>) -> Seq<char> {
    let stem = Seq::new(stem_len(name, 0) as nat, |k: int| lower(name[k]) as char);
    if name[8] == 32 {
        stem
    } else {
        stem + seq!['.'] + shown_ext(name, 8)
    }
}

pub open spec fn listing_of(e: Entry) -> ListingView {
    ListingView {
        name: shown_name(e.name),
        is_dir: e.is_dir(),
        size: if e.is_dir() {
            None
        } else {
            Some(e.size as u64)
        },
    }
}

/// The lines of a directory listing, and how the listing ends.
pub open spec fn ls(s: FsView, path: Seq<char>) -> (Seq<ListingView>, Result<(), FsErr>) {
    match s.fat {
        None => (Seq::empty(), Err(FsErr::NotFormatted)),
        Some(i) => match resolve_from_cwd(s, i, path) {
            Err(e) => (Seq::empty(), Err(e)),
            Ok(d) => {
                let es = dir_list(s, i, d as int);
                (Seq::new(es.len(), |k: int| listing_of(es[k])), Ok(()))
            },
        },
    }
}

/// The name of the entry `.` (one dot) or `..` (two dots).
pub open spec fn dots(n: int) -> Seq<u8> {
    Seq::new(
        11,
        |k: int|
            if k < n {
                46u8
            } else {
                32u8
            },
    )
}

/// Zeroes the sectors of cluster `clu` from the `k`-th on; stops at the first
/// that cannot be written.
pub open spec fn zero_clus(s: FsView, i: FatInfo, clu: int, k: int) -> (FsView, bool)
    decreases i.sec_per_clus - k,
{
    if k >= i.sec_per_clus {
        (s, true)
    } else {
        let (s1, ok) = write_clus(s, i, clu, k, zero_bytes(512));
        if ok {
            zero_clus(s1, i, clu, k + 1)
        } else {
            (s1, false)
        }
    }
}

/// Writes the two first entries of a directory cluster: `.` is the cluster
/// itself, `..` the cluster `up`.
#[verifier::opaque]
pub open spec fn write_dots(s: FsView, i: FatInfo, clu: u32, up: u32) -> (
    FsView,
    Result<(), FsErr>,
) {
    let lba = sector_of(i, clu as int, 0);
    let (s1, r1) = write_entry(
        s,
        lba,
        0,
        Entry { name: dots(1), attr: 16, cluster: clu, size: 0 },
    );
    match r1 {
        Err(e) => (s1, Err(e)),
        Ok(()) => write_entry(
            s1,
            lba,
            1,
            Entry { name: dots(2), attr: 16, cluster: up, size: 0 },
        ),
    }
}

#[verifier::opaque]
pub open spec fn mkdir_in(s: FsView, i: FatInfo, dir: u32, name: Seq<u8>) -> (
    FsView,
    Result<(), FsErr>,
) {
    let (s1, r1) = find_free_slot(s, i, dir as int);
    match r1 {
        Err(e) => (s1, Err(e)),
        Ok((lba, slot)) => {
            let (s2, r2) = alloc_cluster(s1, i);
            match r2 {
                None => (s2, Err(FsErr::NoSpace)),
                Some(clus) => {
                    let (s3, ok) = zero_clus(s2, i, clus as int, 0);
                    if !ok {
                        (s3, Err(FsErr::Io))
                    } else {
                        let up = if dir == i.root_clus {
                            0
                        } else {
                            dir
                        };
                        let (s4, r4) = write_dots(s3, i, clus, up);
                        match r4 {
                            Err(e) => (s4, Err(e)),
                            Ok(()) => write_entry(
                                s4,
                                lba,
                                slot,
                                Entry { name, attr: 16, cluster: clus, size: 0 },
                            ),
                        }
                    }
                },
            }
        },
    }
}

#[verifier::opaque]
pub open spec fn mkdir(s: FsView, path: Seq<char>) -> (FsView, Result<(), FsErr>) {
    match s.fat {
        None => (s, Err(FsErr::NotFormatted)),
        Some(i) => match target(s, i, path) {
            Err(e) => (s, Err(e)),
            Ok((d, n)) => if look_up(s, i, d as int, n) is Ok {
                (s, Err(FsErr::Exists))
            } else {
                mkdir_in(s, i, d, n)
            },
        },
    }
}

#[verifier::opaque]
pub open spec fn touch(s: FsView, path: Seq<char>) -> (FsView, Result<(), FsErr>) {
    match s.fat {
        None => (s, Err(FsErr::NotFormatted)),
        Some(i) => match target(s, i, path) {
            Err(e) => (s, Err(e)),
            Ok((d, n)) => if look_up(s, i, d as int, n) is Ok {
                (s, Ok(()))
            } else {
                add_entry(s, i, d as int, Entry { name: n, attr: 32, cluster: 0, size: 0 })
            },
        },
    }
}

/// The entry of the file that a path names.
pub open spec fn find_file(s: FsView, i: FatInfo, path: Seq<char>) -> Result<Entry, FsErr> {
    match target(s, i, path) {
        Err(e) => Err(e),
        Ok((d, n)) => match look_up(s, i, d as int, n) {
            Err(e) => Err(e),
            Ok(e) => if e.is_dir() {
                Err(FsErr::IsDir)
            } else {
                Ok(e)
            },
        },
    }
}

/// What `cat` shows, and how it ends.
pub open spec fn cat(s: FsView, path: Seq<char>) -> (Seq<char>, Result<(), FsErr>) {
    match s.fat {
        None => (Seq::empty(), Err(FsErr::NotFormatted)),
        Some(i) => match find_file(s, i, path) {
            Err(e) => (Seq::empty(), Err(e)),
            Ok(e) => {
                let (d, bad) = chain_data(
                    s,
                    i,
                    e.cluster as int,
                    e.size as int,
                    i.cluster_count as nat,
                );
                (
                    Seq::new(d.len(), |k: int| shown(d[k])),
                    if bad {
                        Err(FsErr::Io)
                    } else {
                        Ok(())
                    },
                )
            },
        },
    }
}

/// The data of a file that fits `room` bytes: what was read, and the error if
/// a sector could not be read.
pub open spec fn read_file(s: FsView, path: Seq<char>, room: int) -> (Seq<u8>, Option<FsErr>) {
    match s.fat {
        None => (Seq::empty(), Some(FsErr::NotFormatted)),
        Some(i) => match find_file(s, i, path) {
            Err(e) => (Seq::empty(), Some(e)),
            Ok(e) => if e.cluster == 0 {
                (Seq::empty(), None)
            } else {
                let (d, bad) = chain_data(
                    s,
                    i,
                    e.cluster as int,
                    min_int(e.size as int, room),
                    i.cluster_count as nat,
                );
                (
                    d,
                    if bad {
                        Some(FsErr::Io)
                    } else {
                        None
                    },
                )
            },
        },
    }
}

/// Frees the chain of an entry and wipes the entry.
#[verifier::opaque]
pub open spec fn remove(s: FsView, i: FatInfo, cluster: u32, lba: int, slot: int) -> (
    FsView,
    Result<(), FsErr>,
) {
    wipe_entry(free_chain(s, i, cluster), lba, slot)
}

#[verifier::opaque]
pub open spec fn rm(s: FsView, path: Seq<char>) -> (FsView, Result<(), FsErr>) {
    match s.fat {
        None => (s, Err(FsErr::NotFormatted)),
        Some(i) => match target(s, i, path) {
            Err(e) => (s, Err(e)),
            Ok((d, n)) => match look_up(s, i, d as int, n) {
                Err(e) => (s, Err(e)),
                Ok(e) => if e.is_dir() {
                    (s, Err(FsErr::IsDir))
                } else {
                    match find_pos(s, i, d as int, n) {
                        Err(x) => (s, Err(x)),
                        Ok((lba, slot)) => remove(s, i, e.cluster, lba, slot),
                    }
                },
            },
        },
    }
}

#[verifier::opaque]
pub open spec fn rmdir(s: FsView, path: Seq<char>) -> (FsView, Result<(), FsErr>) {
    match s.fat {
        None => (s, Err(FsErr::NotFormatted)),
        Some(i) => match target(s, i, path) {
            Err(e) => (s, Err(e)),
            Ok((d, n)) => match look_up(s, i, d as int, n) {
                Err(e) => (s, Err(e)),
                Ok(e) => if !e.is_dir() {
                    (s, Err(FsErr::NotDir))
                } else {
                    match find_pos(s, i, d as int, n) {
                        Err(x) => (s, Err(x)),
                        Ok((lba, slot)) => if dir_list(s, i, e.cluster as int).len() > 0 {
                            (s, Err(FsErr::NotEmpty))
                        } else {
                            remove(s, i, e.cluster, lba, slot)
                        },
                    }
                },
            },
        },
    }
}

#[verifier::opaque]
pub open spec fn mv(s: FsView, old_path: Seq<char>, new_path: Seq<char>) -> (
    FsView,
    Result<(), FsErr>,
) {
    match s.fat {
        None => (s, Err(FsErr::NotFormatted)),
        Some(i) => match target(s, i, old_path) {
            Err(e) => (s, Err(e)),
            Ok((od, on)) => match look_up(s, i, od as int, on) {
                Err(e) => (s, Err(e)),
                Ok(e) => match find_pos(s, i, od as int, on) {
                    Err(x) => (s, Err(x)),
                    Ok((lba, slot)) => match target(s, i, new_path) {
                        Err(x) => (s, Err(x)),
                        Ok((nd, nn)) => if look_up(s, i, nd as int, nn) is Ok {
                            (s, Err(FsErr::Exists))
                        } else {
                            let (s1, r1) = add_entry(s, i, nd as int, Entry { name: nn, ..e });
                            match r1 {
                                Err(x) => (s1, Err(x)),
                                Ok(()) => wipe_entry(s1, lba, slot),
                            }
                        },
                    },
                },
            },
        },
    }
}

/// Gives the file its entry: that which is there is changed, a new one goes
/// into a free slot.
#[verifier::opaque]
pub open spec fn enter_file(
    s: FsView,
    i: FatInfo,
    dir: u32,
    name: Seq<u8>,
    existing: Option<Entry>,
    first: u32,
    size: u32,
) -> (FsView, Result<(), FsErr>) {
    match existing {
        Some(e) => {
            let s1 = free_chain(s, i, e.cluster);
            match find_pos(s1, i, dir as int, name) {
                Err(x) => (s1, Err(x)),
                Ok((lba, slot)) => write_entry(
                    s1,
                    lba,
                    slot,
                    Entry { name, attr: e.attr, cluster: first, size },
                ),
            }
        },
        None => add_entry(s, i, dir as int, Entry { name, attr: 32, cluster: first, size }),
    }
}

#[verifier::opaque]
pub open spec fn write_file(s: FsView, path: Seq<char>, data: Seq<u8>) -> (
    FsView,
    Result<(), FsErr>,
) {
    if data.len() > 65536 {
        (s, Err(FsErr::TooBig))
    } else {
        match s.fat {
            None => (s, Err(FsErr::NotFormatted)),
            Some(i) => match target(s, i, path) {
                Err(e) => (s, Err(e)),
                Ok((d, n)) => {
                    let existing = first_match(dir_list(s, i, d as int), Some(n));
                    let (s1, r1) = alloc_chain(s, i, clusters_for(i, data.len() as int));
                    match r1 {
                        None => (s1, Err(FsErr::NoSpace)),
                        Some(chain) => {
                            let first = if chain.len() == 0 {
                                0
                            } else {
                                chain[0]
                            };
                            let (s2, r2) = enter_file(
                                s1,
                                i,
                                d,
                                n,
                                existing,
                                first,
                                data.len() as u32,
                            );
                            match r2 {
                                Err(e) => (s2, Err(e)),
                                Ok(()) => {
                                    let (s3, ok) = fill_chain(s2, i, chain, data, 0);
                                    if ok {
                                        (s3, Ok(()))
                                    } else {
                                        (s3, Err(FsErr::Io))
                                    }
                                },
                            }
                        },
                    }
                },
            },
        }
    }
}

// ---------- mount and mkfs ----------

/// What a boot sector says of the volume.
pub open spec fn boot_info(b: Seq<u8>) -> Result<FatInfo, FsErr> {
    let spc = b[13];
    let rsvd = u16_at(b, 14) as u32;
    let fats = b[16];
    let tot = u32_at(b, 32);
    let size = u32_at(b, 36);
    let root = u32_at(b, 44);
    let start = rsvd + fats * size;
    if b[510] != 0x55 || b[511] != 0xAA {
        Err(FsErr::NotFormatted)
    } else if u16_at(b, 11) != 512 || spc == 0 || spc > 128 || rsvd == 0 || fats == 0 || fats > 4
        || tot < 70000 || u16_at(b, 22) != 0 || size == 0 || root < 2 {
        Err(FsErr::NotFormatted)
    } else if start >= tot || (tot - start) / (spc as int) < 65525 {
        Err(FsErr::NotFormatted)
    } else {
        Ok(
            FatInfo {
                sec_per_clus: spc as u32,
                rsvc: rsvd,
                num_fats: fats as u32,
                fat_size: size,
                root_clus: root,
                data_start: start as u32,
                cluster_count: ((tot - start) / (spc as int)) as u32,
            },
        )
    }
}

pub open spec fn mount_at(s: FsView, base: u32) -> (FsView, Result<(), FsErr>) {
    let s1 = FsView { base, ..s };
    if s.dev is None {
        (s1, Err(FsErr::NoDevice))
    } else {
        match s1.raw_read(0) {
            None => (s1, Err(FsErr::Io)),
            Some(b) => match boot_info(b) {
                Err(e) => (s1, Err(e)),
                Ok(i) => (FsView { fat: Some(i), mount: Some(FsKind::Fat), ..s1 }, Ok(())),
            },
        }
    }
}

/// The number of clusters that two tables of this size leave on a volume of
/// `tot` sectors.
pub open spec fn clusters_left(tot: int, size: int) -> int {
    tot - 32 - 2 * size
}

/// The size of a table for a volume of `tot` sectors: starts from `size` and
/// is refined up to `n` times, until it grows no more.
pub open spec fn table_size(tot: int, size: int, n: nat) -> int
    decreases n,
{
    if n == 0 {
        size
    } else {
        let need = (clusters_left(tot, size) + 2) * 4 / 512 + 1;
        if need <= size {
            need
        } else {
            table_size(tot, need, (n - 1) as nat)
        }
    }
}

/// The largest volume that is made: 128 GiB.
pub open spec fn most_sectors() -> int {
    0x1000_0000
}

/// Where the parts of a fresh volume lie.
pub open spec fn fresh_info(sectors: u64) -> Result<FatInfo, FsErr> {
    let tot = min_int(sectors as int, most_sectors());
    let size = table_size(tot, 2, 32);
    let start = 32 + 2 * size;
    if tot < 70000 || tot - start < 65525 {
        Err(FsErr::NoSpace)
    } else {
        Ok(
            FatInfo {
                sec_per_clus: 1,
                rsvc: 32,
                num_fats: 2,
                fat_size: size as u32,
                root_clus: 2,
                data_start: start as u32,
                cluster_count: (tot - start) as u32,
            },
        )
    }
}

/// The boot sector of a fresh volume.
pub open spec fn boot_sector(i: FatInfo) -> Seq<u8> {
    let a = splice(
        zero_bytes(512),
        0,
        seq![0xEBu8, 0x58, 0x90, 83, 79, 76, 65, 82, 79, 83, 32],
    );
    let b = put16(put16(a, 11, 512).update(13, 1), 14, 32).update(16, 2).update(21, 0xF8);
    let c = put32(
        put16(put16(b, 24, 63), 26, 255),
        32,
        (i.data_start + i.cluster_count) as u32,
    );
    let d = put16(put32(put32(c, 36, i.fat_size), 44, 2), 50, 6).update(66, 0x29);
    let e = splice(
        put32(d, 67, 0x1234_5678),
        71,
        seq![
            83u8,
            79,
            76,
            65,
            82,
            79,
            83,
            32,
            32,
            32,
            32,
            70,
            65,
            84,
            51,
            50,
            32,
            32,
            32,
        ],
    );
    e.update(510, 0x55).update(511, 0xAA)
}

/// The second sector of a fresh volume.
pub open spec fn fsinfo_sector() -> Seq<u8> {
    let a = splice(zero_bytes(512), 0, seq![82u8, 82, 97, 65]);
    let b = splice(a, 484, seq![114u8, 114, 65, 97]);
    splice(put32(put32(b, 488, 0xFFFF_FFFF), 492, 0xFFFF_FFFF), 508, seq![82u8, 82, 97, 65])
}

/// The first sector of the tables of a fresh volume.
pub open spec fn first_table_sector() -> Seq<u8> {
    put32(
        put32(put32(zero_bytes(512), 0, 0x0FFF_FFF8), 4, 0x0FFF_FFFF),
        8,
        0x0FFF_FFFF,
    )
}

/// Zeroes the sectors from `k` to `n`.
pub open spec fn zero_sectors(s: FsView, k: int, n: int) -> (FsView, bool)
    decreases n - k,
{
    if k >= n {
        (s, true)
    } else {
        match s.raw_write(k, zero_bytes(512)) {
            None => (s, false),
            Some(s1) => zero_sectors(s1, k + 1, n),
        }
    }
}

/// Writes the listed sectors one after the other.
pub open spec fn put_all(s: FsView, list: Seq<(int, Seq<u8>)>) -> (FsView, bool)
    decreases list.len(),
{
    if list.len() == 0 {
        (s, true)
    } else {
        match s.raw_write(list[0].0, list[0].1) {
            None => (s, false),
            Some(s1) => put_all(s1, list.skip(1)),
        }
    }
}

pub open spec fn fresh_sectors(i: FatInfo) -> Seq<(int, Seq<u8>)> {
    seq![
        (0int, boot_sector(i)),
        (1int, fsinfo_sector()),
        (32int, first_table_sector()),
        (32 + i.fat_size, first_table_sector()),
    ]
}

/// The names of the directories that a fresh volume holds.
pub open spec fn seeds() -> Seq<Seq<u8>> {
    seq![
        seq![69u8, 84, 67],
        seq![82u8, 79, 79, 84],
        seq![72u8, 79, 77, 69],
        seq![85u8, 83, 82],
        seq![66u8, 79, 79, 84],
        seq![84u8, 77, 80],
    ]
}

/// Makes the `k`-th directory of a fresh volume.
#[verifier::opaque]
pub open spec fn make_seed(s: FsView, i: FatInfo, k: int) -> (FsView, Result<(), FsErr>) {
    let (s1, r1) = alloc_cluster(s, i);
    match r1 {
        None => (s1, Err(FsErr::NoSpace)),
        Some(nc) => {
            let (s2, ok) = write_clus(s1, i, nc as int, 0, zero_bytes(512));
            if !ok {
                (s2, Err(FsErr::Io))
            } else {
                let (s3, r3) = write_dots(s2, i, nc, 0);
                match r3 {
                    Err(e) => (s3, Err(e)),
                    Ok(()) => write_entry(
                        s3,
                        i.data_start as int,
                        k,
                        Entry { name: part_83(seeds()[k]), attr: 16, cluster: nc, size: 0 },
                    ),
                }
            }
        },
    }
}

/// Makes the directories of a fresh volume from the `k`-th on.
pub open spec fn make_seeds(s: FsView, i: FatInfo, k: int) -> (FsView, Result<(), FsErr>)
    decreases 6 - k,
{
    if k >= 6 {
        (s, Ok(()))
    } else {
        let (s1, r1) = make_seed(s, i, k);
        match r1 {
            Err(e) => (s1, Err(e)),
            Ok(()) => make_seeds(s1, i, k + 1),
        }
    }
}

/// Writes a fresh volume and mounts it.
#[verifier::opaque]
pub open spec fn mkfs_at(s: FsView, base: u32) -> (FsView, Result<(), FsErr>) {
    let s0 = FsView { base, ..s };
    match s.dev {
        None => (s0, Err(FsErr::NoDevice)),
        Some(sectors) => match fresh_info(sectors) {
            Err(e) => (s0, Err(e)),
            Ok(i) => {
                let (s1, ok1) = zero_sectors(s0, 0, i.data_start + 1);
                if !ok1 {
                    (s1, Err(FsErr::Io))
                } else {
                    let (s2, ok2) = put_all(s1, fresh_sectors(i));
                    if !ok2 {
                        (s2, Err(FsErr::Io))
                    } else {
                        let (s3, r3) = make_seeds(FsView { fat: Some(i), ..s2 }, i, 0);
                        match r3 {
                            Err(e) => (s3, Err(e)),
                            Ok(()) => mount_at(s3, base),
                        }
                    }
                }
            },
        },
    }
}

} // verus!
