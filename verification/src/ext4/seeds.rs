//! The directories of a fresh volume: what their blocks and inodes hold.

use vstd::prelude::*;
use crate::bytes::{put16, put16_then_read, put32, put32_then_read, u16_at, u32_at, zero_bytes};
use crate::ext4::contents::{leaf_has_no_nodes, leaf_is_map, leaf_is_tree, stored_like, tree_holds};
use crate::ext4::counts::{few_apart, runs_apart};
use crate::ext4::entries::{block_sound, entry_put, entry_read, entry_stands, entry_stays};
use crate::ext4::inodes::stored;
use crate::ext4::layout::{root_block, seed_off, seeds};
use crate::ext4::model::{
    align4, block_entries, dir_entries, dir_inode, dot_block, entries_from, extent_area,
    extent_start, file_block, ino_extents, ino_size, inode_load, is_dir_mode, is_dot_name,
    leaf_find, logical_of, new_inode, one_extent, put_entry, read_block, Entry,
};
use crate::ext4::runs::{area_ok, high_half, leaf_holds, mapped_end, run_at, run_holds};
use crate::ext4::tree::{blocks_sound, full, is_dir};
use crate::fs::{FsErr, FsView};

verus! {

// ---------- blocks ----------

/// The entries of the first block of a fresh directory: itself and its parent.
pub proof fn dots(ino: u32, parent: u32)
    requires
        ino != 0,
        parent != 0,
    ensures
        dot_block(ino, parent).len() == 4096,
        block_sound(dot_block(ino, parent), 0),
        forall|f: Entry| #[trigger]
            block_entries(dot_block(ino, parent), 0).0.contains(f) ==> f.ftype == 2 && (f.ino == ino
                || f.ino == parent) && is_dot_name(f.name) && (f.name == seq![46u8] ==> f.ino == ino)
                && (f.name == seq![46u8, 46u8] ==> f.ino == parent),
{
    let z = zero_bytes(4096);
    let one = Entry { ino, ftype: 2, name: seq![46u8] };
    let two = Entry { ino: parent, ftype: 2, name: seq![46u8, 46u8] };
    let a = put_entry(z, 0, ino, seq![46u8], 2, 12);
    let b = dot_block(ino, parent);
    entry_put(z, 0, ino, seq![46u8], 2, 12);
    entry_put(a, 12, parent, seq![46u8, 46u8], 2, 4084);
    assert(entry_stands(a, 0, one, 12));
    entry_stays(a, b, 0, one, 12);
    entry_read(b, 0, one, 12);
    entry_read(b, 12, two, 4084);
    assert(block_entries(b, 4096).0 == Seq::<Entry>::empty());
    assert(seq![46u8].len() != seq![46u8, 46u8].len());
}

/// The `k`-th entry of the root directory.
pub open spec fn seed_entry(inos: Seq<u32>, k: int) -> Entry {
    Entry { ino: inos[k], ftype: 2, name: seeds()[k] }
}

proof fn seed_places(k: int)
    requires
        0 <= k < 6,
    ensures
        seed_off(k) == 12 * k,
        3 <= seeds()[k].len() <= 4,
        align4(8 + seeds()[k].len() as int) == 12,
    decreases k,
{
    assert(forall|j: int| 0 <= j < 6 ==> 3 <= #[trigger] seeds()[j].len() <= 4);
    if k > 0 {
        seed_places(k - 1);
    }
}

spec fn seed_rec(k: int) -> int {
    if k == 5 {
        4036
    } else {
        12
    }
}

/// Where the `k`-th entry starts, and where the last one ends.
spec fn seed_at(k: int) -> int {
    if k == 6 {
        4096
    } else {
        12 * k
    }
}

proof fn seeds_stand(inos: Seq<u32>, m: int, k: int)
    requires
        inos.len() == 6,
        0 <= m <= 6,
    ensures
        root_block(inos, m).len() == 4096,
        0 <= k < m ==> entry_stands(root_block(inos, m), 12 * k, seed_entry(inos, k), seed_rec(k)),
    decreases m,
{
    if m > 0 {
        seeds_stand(inos, m - 1, k);
        seed_places(m - 1);
        let b = root_block(inos, m - 1);
        let o = 12 * (m - 1);
        let rec = seed_rec(m - 1);
        entry_put(b, o, inos[m - 1], seeds()[m - 1], 2, rec);
        assert(root_block(inos, m) == put_entry(b, o, inos[m - 1], seeds()[m - 1], 2, rec));
        if 0 <= k < m - 1 {
            seed_places(k);
            entry_stays(b, root_block(inos, m), 12 * k, seed_entry(inos, k), seed_rec(k));
        }
    }
}

proof fn seeds_read(inos: Seq<u32>, k: int)
    requires
        inos.len() == 6,
        forall|j: int| 0 <= j < 6 ==> #[trigger] inos[j] != 0,
        0 <= k <= 6,
    ensures
        block_sound(root_block(inos, 6), seed_at(k)),
        forall|f: Entry| #[trigger]
            block_entries(root_block(inos, 6), seed_at(k)).0.contains(f) ==> f.ftype == 2
                && inos.contains(f.ino) && exists|j: int|
                0 <= j < 6 && f == #[trigger] seed_entry(inos, j),
        forall|j: int|
            k <= j < 6 ==> block_entries(root_block(inos, 6), seed_at(k)).0.contains(
                #[trigger] seed_entry(inos, j),
            ),
    decreases 6 - k,
{
    let b = root_block(inos, 6);
    if k < 6 {
        seeds_read(inos, k + 1);
        seeds_stand(inos, 6, k);
        seed_places(k);
        assert(inos.contains(inos[k]));
        entry_read(b, 12 * k, seed_entry(inos, k), seed_rec(k));
        assert(12 * k + seed_rec(k) == seed_at(k + 1));
        let es = block_entries(b, seed_at(k)).0;
        let later = block_entries(b, seed_at(k + 1)).0;
        assert(es == seq![seed_entry(inos, k)] + later);
        assert(es[0] == seed_entry(inos, k));
        assert forall|j: int| k <= j < 6 implies es.contains(#[trigger] seed_entry(inos, j)) by {
            if j > k {
                assert(later.contains(seed_entry(inos, j)));
                let i = choose|i: int| 0 <= i < later.len() && later[i] == seed_entry(inos, j);
                assert(es[i + 1] == seed_entry(inos, j));
            }
        }
    } else {
        assert(block_entries(b, 4096).0 == Seq::<Entry>::empty());
    }
}

/// The directories below the root have names of their own.
pub proof fn seeds_differ(j: int, k: int)
    requires
        0 <= j < 6,
        0 <= k < 6,
    ensures
        seeds()[j] == seeds()[k] ==> j == k,
        !is_dot_name(seeds()[k]),
{
    seed_places(j);
    seed_places(k);
    if seeds()[j] == seeds()[k] && j != k {
        assert(seeds()[0][0] == 101 && seeds()[1][0] == 114 && seeds()[2][0] == 104);
        assert(seeds()[3][0] == 117 && seeds()[4][0] == 98 && seeds()[5][0] == 116);
    }
}

/// The entries of a fresh root directory: the directories below it.
pub proof fn root_entries(inos: Seq<u32>)
    requires
        inos.len() == 6,
        forall|j: int| 0 <= j < 6 ==> #[trigger] inos[j] != 0,
    ensures
        root_block(inos, 6).len() == 4096,
        block_sound(root_block(inos, 6), 0),
        forall|f: Entry| #[trigger]
            block_entries(root_block(inos, 6), 0).0.contains(f) ==> f.ftype == 2 && inos.contains(
                f.ino,
            ) && exists|j: int| 0 <= j < 6 && f == #[trigger] seed_entry(inos, j),
        forall|j: int|
            0 <= j < 6 ==> block_entries(root_block(inos, 6), 0).0.contains(
                #[trigger] seed_entry(inos, j),
            ),
{
    seeds_read(inos, 0);
    seeds_stand(inos, 6, 0);
    assert(seed_at(0) == 0);
}

// ---------- inodes ----------

/// An extent area with one extent.
pub proof fn one_run(len: u16, phys: u32)
    requires
        1 <= len < 0x8000,
    ensures
        ({
            let ib = one_extent(len, phys);
            &&& area_ok(ib)
            &&& mapped_end(ib) == len
            &&& leaf_find(ib, 0, 0) == Some(phys)
            &&& forall|b: int| #[trigger] leaf_holds(ib, b) == (phys <= b < phys + len)
        }),
{
    let z = zero_bytes(60);
    let a = put16(z, 0, 0xF30A);
    let b = put16(a, 2, 1);
    let c = put16(b, 4, 4);
    let d = put32(c, 12, 0);
    let e = put16(d, 16, len);
    let f = put16(e, 18, (phys / 0x1_0000) as u16);
    let ib = put32(f, 20, phys);
    put16_then_read(z, 0, 0xF30A);
    put16_then_read(a, 2, 1);
    put32_then_read(c, 12, 0);
    put16_then_read(d, 16, len);
    put16_then_read(e, 18, (phys / 0x1_0000) as u16);
    put32_then_read(f, 20, phys);
    assert(ib == one_extent(len, phys));
    assert(ib[0] == a[0] && ib[1] == a[1]);
    assert(ib[2] == b[2] && ib[3] == b[3]);
    assert(ib[6] == 0 && ib[7] == 0);
    assert(forall|k: int| 12 <= k < 16 ==> ib[k] == d[k]);
    assert(ib[16] == e[16] && ib[17] == e[17]);
    assert(ib[18] == f[18] && ib[19] == f[19]);
    assert(u16_at(ib, 0) == 0xF30A && u16_at(ib, 2) == 1 && u16_at(ib, 6) == 0);
    assert(u32_at(ib, 12) == 0 && u16_at(ib, 16) == len && u32_at(ib, 20) == phys);
    assert(u16_at(ib, 18) == (phys / 0x1_0000) as u16);
    high_half(phys);
    assert(extent_start(ib, 12) == phys);
    assert(run_at(ib, 0) == (0int, len as int, phys as int));
    assert forall|x: int| #[trigger] leaf_holds(ib, x) == (phys <= x < phys + len) by {
        assert(run_holds(ib, 0, x) == (phys <= x < phys + len));
    }
}

/// One extent holds each of its blocks once.
pub proof fn extent_apart(len: u16, phys: u32)
    ensures
        runs_apart(one_extent(len, phys)),
{
    let z = zero_bytes(60);
    let a = put16(z, 0, 0xF30A);
    let b = put16(a, 2, 1);
    put16_then_read(a, 2, 1);
    let ib = one_extent(len, phys);
    assert(ib[2] == b[2] && ib[3] == b[3]);
    few_apart(ib);
}

/// The fields of the inode of a directory of one block.
pub proof fn dir_fields(links: u16, blk: u32)
    ensures
        ({
            let raw = dir_inode(links, blk);
            &&& raw.len() == 256
            &&& u16_at(raw, 0) == 0x41ED
            &&& u32_at(raw, 4) == 4096
            &&& u32_at(raw, 108) == 0
            &&& ino_extents(raw) == one_extent(1, blk)
            &&& runs_apart(ino_extents(raw))
        }),
{
    extent_apart(1, blk);
    let n = new_inode(0x41ED, links);
    let a = put32(n, 4, 4096);
    let b = put32(a, 28, 8);
    let raw = dir_inode(links, blk);
    let ib = one_extent(1, blk);
    assert(ib.len() == 60);
    put16_then_read(zero_bytes(256), 0, 0x41ED);
    let m = put16(zero_bytes(256), 0, 0x41ED);
    put32_then_read(n, 4, 4096);
    assert(raw[0] == m[0] && raw[1] == m[1]);
    assert(forall|k: int| 4 <= k < 8 ==> raw[k] == a[k]);
    assert(forall|k: int| 108 <= k < 112 ==> #[trigger] raw[k] == 0);
    assert(u32_at(raw, 108) == 0);
    assert(ino_extents(raw) =~= ib);
}

/// A directory of one block, read from the volume.
pub proof fn small_dir(s: FsView, x: u32, links: u16, blk: u32, b: Seq<u8>)
    requires
        inode_load(s, x) == Ok::<Seq<u8>, FsErr>(stored(s, x, dir_inode(links, blk))),
        read_block(s, blk as int) == Some(b),
        block_sound(b, 0),
    ensures
        is_dir(s, x),
        ({
            let raw = inode_load(s, x)->Ok_0;
            &&& blocks_sound(s, ino_extents(raw), 0, ino_size(raw) as int)
            &&& full(raw)
            &&& dir_entries(s, x).0 =~= block_entries(b, 0).0
            &&& forall|c: int| #[trigger] tree_holds(s, ino_extents(raw), c) == (c == blk)
        }),
{
    let r0 = dir_inode(links, blk);
    dir_fields(links, blk);
    stored_like(s, x, r0);
    let raw = stored(s, x, r0);
    let ib = one_extent(1, blk);
    one_run(1, blk);
    assert(ino_extents(raw) == ib);
    assert(ino_size(raw) == 4096);
    assert(is_dir_mode(raw));
    assert(extent_area(raw) == ib);
    leaf_is_map(s, ib, 0);
    assert(logical_of(0) == 0);
    assert(file_block(s, ib, 0) == Some((blk, b)));
    leaf_has_no_nodes(s, ib, blk as int);
    assert(blocks_sound(s, ib, 4096, 4096));
    assert(blocks_sound(s, ib, 0, 4096));
    assert(dir_entries(s, x).0 =~= block_entries(b, 0).0) by {
        reveal(dir_entries);
        assert(entries_from(s, ib, 4096, 4096) == (Seq::<Entry>::empty(), None::<FsErr>));
        assert(block_entries(b, 0).0 + Seq::<Entry>::empty() =~= block_entries(b, 0).0);
    }
    assert forall|c: int| #[trigger] tree_holds(s, ib, c) == (c == blk) by {
        leaf_is_tree(s, ib, c);
    }
}

} // verus!
