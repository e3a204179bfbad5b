//! The data of a file: what was appended block by block is read back.

use vstd::prelude::*;
use crate::bytes::{
    head, put16, put16_then_read, put32, put32_then_read, splice, u16_at, u32_at, zero_bytes,
};
use crate::ext4::counts::{few_apart, runs_apart, steady};
use crate::ext4::inodes::{data_reads_back, inode_reads_back, maps_kept, stored, stored_fields};
use crate::ext4::model::{
    alloc_block, append_data, data_block, data_from, emptied, extent_append, extent_area,
    extent_map, extent_walk, file_block, file_data, fill_file, filled, index_find, ino_extents,
    ino_size, inode_load, inode_save, is_reg_mode, leaf_find, logical_of, min_int, read_block,
    tree_fuel, write_block,
};
use crate::ext4::runs::{
    appended_apart, appended_is_found, area_ok, found_is_held, leaf_holds, mapped_end, packed,
    run_at, run_count,
};
use crate::ext4::space::{block_len, in_use, inode_in_use, is_system, space_ok, Place};
use crate::ext4::supply::block_is_taken;
use crate::fs::{FsErr, FsView};

verus! {

/// The child that the `e`-th entry of an index node names.
pub open spec fn child_at(d: Seq<u8>, e: int) -> int {
    u32_at(d, 16 + 12 * e) as int
}

/// The block belongs to the extent tree below the node `d`, as a node or as
/// one of the blocks that are mapped.
pub open spec fn node_holds(s: FsView, d: Seq<u8>, b: int, fuel: nat) -> bool
    decreases fuel,
{
    if fuel == 0 || u16_at(d, 0) != 0xF30A {
        false
    } else if u16_at(d, 6) == 0 {
        leaf_holds(d, b)
    } else {
        exists|e: int|
            0 <= e < run_count(d) && 20 + 12 * e <= d.len() && (b == #[trigger] child_at(d, e)
                || read_block(s, child_at(d, e)) is Some && node_holds(
                s,
                read_block(s, child_at(d, e))->0,
                b,
                (fuel - 1) as nat,
            ))
    }
}

/// The block is a node of the extent tree below the node `d`.
pub open spec fn node_names(s: FsView, d: Seq<u8>, b: int, fuel: nat) -> bool
    decreases fuel,
{
    fuel > 0 && u16_at(d, 0) == 0xF30A && u16_at(d, 6) != 0 && exists|e: int|
        0 <= e < run_count(d) && 20 + 12 * e <= d.len() && (b == #[trigger] child_at(d, e)
            || read_block(s, child_at(d, e)) is Some && node_names(
            s,
            read_block(s, child_at(d, e))->0,
            b,
            (fuel - 1) as nat,
        ))
}

/// The block is a node of the extent tree of an inode.
#[verifier::opaque]
pub open spec fn is_node(s: FsView, ib: Seq<u8>, b: int) -> bool {
    node_names(s, ib, b, tree_fuel())
}

/// The nodes belong to the tree.
proof fn nodes_are_held(s: FsView, d: Seq<u8>, b: int, fuel: nat)
    ensures
        node_names(s, d, b, fuel) ==> node_holds(s, d, b, fuel),
    decreases fuel,
{
    if node_names(s, d, b, fuel) {
        let e = choose|e: int|
            0 <= e < run_count(d) && 20 + 12 * e <= d.len() && (b == #[trigger] child_at(d, e)
                || read_block(s, child_at(d, e)) is Some && node_names(
                s,
                read_block(s, child_at(d, e))->0,
                b,
                (fuel - 1) as nat,
            ));
        if b != child_at(d, e) {
            nodes_are_held(s, read_block(s, child_at(d, e))->0, b, (fuel - 1) as nat);
        }
        assert(child_at(d, e) == child_at(d, e));
    }
}

/// The tree is made of the same blocks where its nodes are as they were.
proof fn holds_same(s: FsView, t: FsView, d: Seq<u8>, b: int, fuel: nat)
    requires
        forall|c: int| node_names(s, d, c, fuel) ==> #[trigger] read_block(t, c) == read_block(s, c),
    ensures
        node_holds(t, d, b, fuel) == node_holds(s, d, b, fuel),
    decreases fuel,
{
    if fuel > 0 && u16_at(d, 0) == 0xF30A && u16_at(d, 6) != 0 {
        assert forall|e: int| 0 <= e < run_count(d) && 20 + 12 * e <= d.len() implies read_block(
            t,
            #[trigger] child_at(d, e),
        ) == read_block(s, child_at(d, e)) && (read_block(s, child_at(d, e)) is Some ==> node_holds(
            t,
            read_block(s, child_at(d, e))->0,
            b,
            (fuel - 1) as nat,
        ) == node_holds(s, read_block(s, child_at(d, e))->0, b, (fuel - 1) as nat)) by {
            let c = child_at(d, e);
            assert(node_names(s, d, c, fuel));
            if let Some(n) = read_block(s, c) {
                assert forall|x: int| node_names(s, n, x, (fuel - 1) as nat) implies #[trigger] read_block(
                    t,
                    x,
                ) == read_block(s, x) by {
                    assert(child_at(d, e) == c);
                    assert(node_names(s, d, x, fuel));
                }
                holds_same(s, t, n, b, (fuel - 1) as nat);
            }
        }
    }
}

/// The tree of an inode is made of the same blocks where its nodes are as they
/// were.
pub proof fn tree_same(s: FsView, t: FsView, ib: Seq<u8>, b: int)
    requires
        forall|c: int| is_node(s, ib, c) ==> #[trigger] read_block(t, c) == read_block(s, c),
    ensures
        tree_holds(t, ib, b) == tree_holds(s, ib, b),
{
    reveal(tree_holds);
    reveal(is_node);
    holds_same(s, t, ib, b, tree_fuel());
}

proof fn names_same(s: FsView, t: FsView, d: Seq<u8>, b: int, fuel: nat)
    requires
        forall|c: int| node_names(s, d, c, fuel) ==> #[trigger] read_block(t, c) == read_block(s, c),
    ensures
        node_names(t, d, b, fuel) == node_names(s, d, b, fuel),
    decreases fuel,
{
    if fuel > 0 && u16_at(d, 0) == 0xF30A && u16_at(d, 6) != 0 {
        assert forall|e: int| 0 <= e < run_count(d) && 20 + 12 * e <= d.len() implies read_block(
            t,
            #[trigger] child_at(d, e),
        ) == read_block(s, child_at(d, e)) && (read_block(s, child_at(d, e)) is Some ==> node_names(
            t,
            read_block(s, child_at(d, e))->0,
            b,
            (fuel - 1) as nat,
        ) == node_names(s, read_block(s, child_at(d, e))->0, b, (fuel - 1) as nat)) by {
            let c = child_at(d, e);
            assert(node_names(s, d, c, fuel));
            if let Some(n) = read_block(s, c) {
                assert forall|x: int| node_names(s, n, x, (fuel - 1) as nat) implies #[trigger] read_block(
                    t,
                    x,
                ) == read_block(s, x) by {
                    assert(child_at(d, e) == c);
                    assert(node_names(s, d, x, fuel));
                }
                names_same(s, t, n, b, (fuel - 1) as nat);
            }
        }
    }
}

/// The tree of an inode has the same nodes where they are as they were.
pub proof fn nodes_same(s: FsView, t: FsView, ib: Seq<u8>, b: int)
    requires
        forall|c: int| is_node(s, ib, c) ==> #[trigger] read_block(t, c) == read_block(s, c),
    ensures
        is_node(t, ib, b) == is_node(s, ib, b),
{
    reveal(is_node);
    names_same(s, t, ib, b, tree_fuel());
}

/// Extents that stand in the inode have no nodes.
pub proof fn leaf_has_no_nodes(s: FsView, ib: Seq<u8>, b: int)
    requires
        u16_at(ib, 6) == 0,
    ensures
        !is_node(s, ib, b),
{
    reveal(is_node);
}

/// The block belongs to the extent tree of an inode.
#[verifier::opaque]
pub open spec fn tree_holds(s: FsView, ib: Seq<u8>, b: int) -> bool {
    node_holds(s, ib, b, tree_fuel())
}

/// The child that is found is one that an entry names.
proof fn child_named(d: Seq<u8>, l: u32, e: int, found: Option<u32>)
    requires
        0 <= e,
    ensures
        index_find(d, l, e, found) matches Some(c) ==> found == Some(c) || exists|k: int|
            0 <= k < run_count(d) && 20 + 12 * k <= d.len() && c == #[trigger] child_at(
                d,
                k,
            ),
    decreases run_count(d) - e,
{
    let o = 12 + 12 * e;
    if e < run_count(d) && o + 4 <= d.len() {
        if u32_at(d, o) <= l {
            if o + 8 <= d.len() {
                assert(child_at(d, e) == u32_at(d, o + 4));
                child_named(d, l, e + 1, Some(u32_at(d, o + 4)));
            }
        } else {
            child_named(d, l, e + 1, found);
        }
    }
}

proof fn walk_same(s: FsView, t: FsView, d: Seq<u8>, l: u32, fuel: nat)
    requires
        forall|b: int|
            node_names(s, d, b, fuel) ==> #[trigger] read_block(t, b) == read_block(s, b),
    ensures
        extent_walk(t, d, l, fuel) == extent_walk(s, d, l, fuel),
        extent_walk(s, d, l, fuel) matches Some(p) ==> node_holds(s, d, p as int, fuel),
    decreases fuel,
{
    if fuel > 0 && u16_at(d, 0) == 0xF30A {
        if u16_at(d, 6) == 0 {
            found_is_held(d, l, 0);
        } else {
            child_named(d, l, 0, None);
            if let Some(c) = index_find(d, l, 0, None) {
                let k = choose|k: int|
                    0 <= k < run_count(d) && 20 + 12 * k <= d.len() && c == #[trigger] child_at(d, k);
                assert(node_names(s, d, c as int, fuel));
                assert(read_block(t, c as int) == read_block(s, c as int));
                if let Some(n) = read_block(s, c as int) {
                    assert forall|b: int|
                        node_names(s, n, b, (fuel - 1) as nat) implies #[trigger] read_block(t, b)
                        == read_block(s, b) by {
                        assert(child_at(d, k) == c);
                        assert(node_names(s, d, b, fuel));
                    }
                    walk_same(s, t, n, l, (fuel - 1) as nat);
                    if let Some(p) = extent_walk(s, n, l, (fuel - 1) as nat) {
                        assert(child_at(d, k) == c);
                        assert(node_holds(s, d, p as int, fuel));
                    }
                }
            }
        }
    }
}

/// Where the nodes of a tree are as they were, blocks are found where they
/// were.
pub proof fn map_same(s: FsView, t: FsView, ib: Seq<u8>, l: u32)
    requires
        forall|b: int| is_node(s, ib, b) ==> #[trigger] read_block(t, b) == read_block(s, b),
    ensures
        extent_map(t, ib, l) == extent_map(s, ib, l),
        extent_map(s, ib, l) matches Some(p) ==> tree_holds(s, ib, p as int),
{
    reveal(extent_map);
    reveal(tree_holds);
    reveal(is_node);
    walk_same(s, t, ib, l, tree_fuel());
}

/// A node belongs to the tree.
pub proof fn node_is_held(s: FsView, ib: Seq<u8>, b: int)
    ensures
        is_node(s, ib, b) ==> tree_holds(s, ib, b),
{
    reveal(tree_holds);
    reveal(is_node);
    nodes_are_held(s, ib, b, tree_fuel());
}

/// Where the blocks of a file are as they were, the file is.
pub proof fn file_block_same(s: FsView, t: FsView, ib: Seq<u8>, off: int)
    requires
        forall|b: int| tree_holds(s, ib, b) ==> #[trigger] read_block(t, b) == read_block(s, b),
    ensures
        file_block(t, ib, off) == file_block(s, ib, off),
        file_block(s, ib, off) matches Some(x) ==> tree_holds(s, ib, x.0 as int),
{
    assert forall|b: int| is_node(s, ib, b) implies #[trigger] read_block(t, b) == read_block(s, b) by {
        node_is_held(s, ib, b);
    }
    map_same(s, t, ib, logical_of(off));
}

/// The blocks of a file whose extents stand in the inode.
pub proof fn leaf_is_tree(s: FsView, ib: Seq<u8>, b: int)
    requires
        u16_at(ib, 0) == 0xF30A,
        u16_at(ib, 6) == 0,
    ensures
        tree_holds(s, ib, b) == leaf_holds(ib, b),
{
    reveal(tree_holds);
}

pub proof fn data_same(s: FsView, t: FsView, ib: Seq<u8>, at: int, want: int)
    requires
        forall|b: int| tree_holds(s, ib, b) ==> #[trigger] read_block(t, b) == read_block(s, b),
    ensures
        data_from(t, ib, at, want) == data_from(s, ib, at, want),
    decreases want - at,
{
    if at < want {
        file_block_same(s, t, ib, at);
        data_same(s, t, ib, at + min_int(want - at, 4096), want);
    }
}

/// The blocks of the extents are in use, for data.
pub open spec fn held_ok(s: FsView, pl: Seq<Place>, ib: Seq<u8>) -> bool {
    forall|b: int| #[trigger] leaf_holds(ib, b) ==> in_use(s, pl, b) && !is_system(s, pl, b)
}

/// Four extents map no more than 131068 blocks.
proof fn few_blocks(ib: Seq<u8>)
    requires
        area_ok(ib),
        packed(ib),
    ensures
        mapped_end(ib) <= 4 * 0x7FFF,
{
    if run_count(ib) > 0 {
        assert(run_at(ib, run_count(ib) - 1).1 <= 0x7FFF);
    }
}

/// The extents in the inode map a block without a look at the disk.
pub proof fn leaf_is_map(s: FsView, ib: Seq<u8>, l: u32)
    requires
        area_ok(ib),
    ensures
        extent_map(s, ib, l) == leaf_find(ib, l, 0),
{
    reveal(extent_map);
}

/// What was in use, and the inodes, are as they were; other blocks may have
/// been taken and written.
pub open spec fn grown(s: FsView, t: FsView, pl: Seq<Place>) -> bool {
    &&& space_ok(t, pl)
    &&& steady(s, t)
    &&& forall|x: u32| 1 <= x <= 8192 * pl.len() ==> #[trigger] inode_load(t, x) == inode_load(s, x)
    &&& forall|x: int| #[trigger] inode_in_use(t, pl, x) == inode_in_use(s, pl, x)
    &&& forall|b: int| in_use(s, pl, b) ==> #[trigger] in_use(t, pl, b)
    &&& forall|b: int|
        in_use(s, pl, b) && !is_system(s, pl, b) ==> #[trigger] read_block(t, b) == read_block(s, b)
}

pub proof fn grown_twice(s: FsView, t: FsView, u: FsView, pl: Seq<Place>)
    requires
        grown(s, t, pl),
        grown(t, u, pl),
    ensures
        grown(s, u, pl),
{
    assert forall|b: int| in_use(s, pl, b) && !is_system(s, pl, b) implies #[trigger] read_block(u, b)
        == read_block(s, b) by {
        assert(in_use(t, pl, b));
        assert(!is_system(t, pl, b));
        assert(read_block(t, b) == read_block(s, b));
    }
    assert forall|b: int| in_use(s, pl, b) implies #[trigger] in_use(u, pl, b) by {
        assert(in_use(t, pl, b));
    }
    assert forall|x: u32| 1 <= x <= 8192 * pl.len() implies #[trigger] inode_load(u, x) == inode_load(
        s,
        x,
    ) by {
        assert(inode_load(t, x) == inode_load(s, x));
    }
    assert forall|x: int| #[trigger] inode_in_use(u, pl, x) == inode_in_use(s, pl, x) by {
        assert(inode_in_use(t, pl, x) == inode_in_use(s, pl, x));
    }
}

/// A block is taken and written.
pub proof fn block_added(s: FsView, pl: Seq<Place>, data: Seq<u8>)
    requires
        space_ok(s, pl),
        data.len() == 4096,
        alloc_block(s).1 is Ok,
        write_block(alloc_block(s).0, alloc_block(s).1->Ok_0 as int, data).1,
    ensures
        ({
            let blk = alloc_block(s).1->Ok_0 as int;
            let t = write_block(alloc_block(s).0, blk, data).0;
            &&& grown(s, t, pl)
            &&& !in_use(s, pl, blk)
            &&& in_use(t, pl, blk)
            &&& !is_system(t, pl, blk)
            &&& read_block(t, blk) == Some(data)
        }),
{
    let (s1, r1) = alloc_block(s);
    let blk = r1->Ok_0 as int;
    block_is_taken(s, pl);
    assert(!is_system(s1, pl, blk));
    data_reads_back(s1, pl, blk, data);
    let t = write_block(s1, blk, data).0;
    assert forall|b: int| in_use(s, pl, b) && !is_system(s, pl, b) implies #[trigger] read_block(t, b)
        == read_block(s, b) by {
        assert(!is_system(s1, pl, b));
        assert(read_block(s1, b) == read_block(s, b));
    }
    assert forall|b: int| in_use(s, pl, b) implies #[trigger] in_use(t, pl, b) by {
        assert(in_use(s1, pl, b));
    }
    assert(in_use(s1, pl, blk));
    assert(in_use(t, pl, blk));
    assert forall|x: u32| 1 <= x <= 8192 * pl.len() implies #[trigger] inode_load(t, x) == inode_load(
        s,
        x,
    ) by {
        assert(inode_load(s1, x) == inode_load(s, x));
    }
    assert forall|x: int| #[trigger] inode_in_use(t, pl, x) == inode_in_use(s, pl, x) by {
        assert(inode_in_use(s1, pl, x) == inode_in_use(s, pl, x));
    }
}

/// The rest of an inode, without its extents.
pub open spec fn same_rest(a: Seq<u8>, b: Seq<u8>) -> bool {
    &&& b.len() == a.len()
    &&& forall|k: int| 0 <= k < a.len() && !(40 <= k < 100) ==> #[trigger] b[k] == a[k]
}

/// Data that was appended is read back from the blocks that it was put in, and
/// the blocks that were in use before are as they were.
#[verifier::spinoff_prover]
#[verifier::rlimit(80)]
pub proof fn appended_data_reads_back(s: FsView, pl: Seq<Place>, raw: Seq<u8>, data: Seq<u8>, at: int)
    requires
        space_ok(s, pl),
        raw.len() == 256,
        area_ok(extent_area(raw)),
        packed(extent_area(raw)),
        0 <= at,
        mapped_end(extent_area(raw)) * 4096 == at,
        held_ok(s, pl, extent_area(raw)),
        runs_apart(ino_extents(raw)),
        append_data(s, raw, data, at).2 is Ok,
    ensures
        ({
            let (t, raw2, r) = append_data(s, raw, data, at);
            let ib2 = extent_area(raw2);
            &&& grown(s, t, pl)
            &&& same_rest(raw, raw2)
            &&& area_ok(ib2)
            &&& packed(ib2)
            &&& held_ok(t, pl, ib2)
            &&& runs_apart(ino_extents(raw2))
            &&& forall|b: int| #[trigger]
                leaf_holds(ib2, b) ==> leaf_holds(extent_area(raw), b) || !in_use(s, pl, b)
            &&& at < data.len() ==> ino_extents(raw2) == ib2
            &&& mapped_end(ib2) >= mapped_end(extent_area(raw))
            &&& at < data.len() ==> data.len() <= 4096 * mapped_end(ib2)
            &&& forall|l: u32|
                l < mapped_end(extent_area(raw)) ==> #[trigger] leaf_find(ib2, l, 0) == leaf_find(
                    extent_area(raw),
                    l,
                    0,
                )
            &&& at < data.len() ==> data_from(t, ib2, at, data.len() as int) == (
                data.subrange(at, data.len() as int),
                false,
            )
        }),
    decreases data.len() + 4096 - at,
{
    if at < data.len() {
        let (s1, r1) = alloc_block(s);
        let blk = r1->Ok_0;
        let b = data_block(data, at);
        let n = min_int(data.len() - at, 4096);
        assert(data.subrange(at, at + n).len() == n);
        assert(b.len() == 4096);
        block_added(s, pl, b);
        let s2 = write_block(s1, blk as int, b).0;
        appended_is_found(raw, blk);
        appended_apart(raw, blk);
        let raw1 = extent_append(raw, blk)->Ok_0;
        let ib = extent_area(raw);
        let ib1 = extent_area(raw1);
        assert(same_rest(raw, raw1));
        assert forall|c: int| #[trigger] leaf_holds(ib1, c) implies in_use(s2, pl, c) && !is_system(
            s2,
            pl,
            c,
        ) by {
            if c != blk {
                assert(leaf_holds(ib, c));
            }
        }
        appended_data_reads_back(s2, pl, raw1, data, at + 4096);
        grown_twice(s, s2, append_data(s2, raw1, data, at + 4096).0, pl);
        let (t, raw2, r) = append_data(s2, raw1, data, at + 4096);
        assert(append_data(s, raw, data, at) == (t, raw2, r));
        let ib2 = extent_area(raw2);
        let l = mapped_end(ib) as u32;
        few_blocks(ib);
        assert(logical_of(at) == l);
        assert(leaf_find(ib1, l, 0) == Some(blk));
        assert(leaf_find(ib2, l, 0) == Some(blk));
        leaf_is_map(t, ib2, l);
        assert(read_block(t, blk as int) == Some(b));
        assert(file_block(t, ib2, at) == Some((blk, b)));
        let end = data.len() as int;
        assert(b.subrange(0, n) =~= data.subrange(at, at + n));
        if n < 4096 || at + 4096 == end {
            assert(at + n == end);
            assert(data_from(t, ib2, at + n, end) == (Seq::<u8>::empty(), false));
            assert(data.subrange(at, at + n) + Seq::<u8>::empty() =~= data.subrange(at, end));
        } else {
            assert(data.subrange(at, at + n) + data.subrange(at + n, end) =~= data.subrange(at, end));
        }
        assert forall|c: int| #[trigger] leaf_holds(ib2, c) implies leaf_holds(ib, c) || !in_use(
            s,
            pl,
            c,
        ) by {
            if in_use(s, pl, c) {
                assert(in_use(s2, pl, c));
                assert(leaf_holds(ib1, c));
            }
        }
        assert forall|k: u32| k < mapped_end(ib) implies #[trigger] leaf_find(ib2, k, 0) == leaf_find(
            ib,
            k,
            0,
        ) by {
            assert(leaf_find(ib1, k, 0) == leaf_find(ib, k, 0));
        }
    }
}

// ---------- whole files ----------

/// What replacing the contents of file `ino` leaves as it was: the other
/// inodes, what was in use, and the blocks that were.
pub open spec fn others_stay(s: FsView, t: FsView, pl: Seq<Place>, ino: u32) -> bool {
    &&& space_ok(t, pl)
    &&& steady(s, t)
    &&& forall|x: u32|
        1 <= x <= 8192 * pl.len() && x != ino ==> #[trigger] inode_load(t, x) == inode_load(s, x)
    &&& forall|x: int| #[trigger] inode_in_use(t, pl, x) == inode_in_use(s, pl, x)
    &&& forall|b: int| in_use(s, pl, b) ==> #[trigger] in_use(t, pl, b)
    &&& forall|b: int|
        in_use(s, pl, b) && !is_system(s, pl, b) ==> #[trigger] read_block(t, b) == read_block(s, b)
}

/// A regular file in the blocks that it was given, none of which was in use
/// before.
pub open spec fn fresh_file(s: FsView, t: FsView, pl: Seq<Place>, ino: u32) -> bool {
    &&& inode_load(t, ino) is Ok
    &&& u16_at(inode_load(t, ino)->Ok_0, 0) == 0x81A4
    &&& forall|b: int| #[trigger]
        tree_holds(t, ino_extents(inode_load(t, ino)->Ok_0), b) ==> in_use(t, pl, b) && !is_system(
            t,
            pl,
            b,
        ) && !in_use(s, pl, b)
}

/// The fields of an inode that was emptied.
pub(crate) proof fn emptied_fields(raw: Seq<u8>)
    requires
        raw.len() == 256,
    ensures
        ({
            let e = emptied(raw);
            &&& e.len() == 256
            &&& u16_at(e, 0) == 0x81A4
            &&& u32_at(e, 4) == 0
            &&& u32_at(e, 108) == 0
            &&& area_ok(extent_area(e))
            &&& packed(extent_area(e))
            &&& mapped_end(extent_area(e)) == 0
            &&& u16_at(ino_extents(e), 0) == 0
            &&& forall|b: int| !leaf_holds(extent_area(e), b)
        }),
{
    let a = put16(raw, 0, 0x81A4);
    let b = put32(a, 4, 0);
    let c = put32(b, 108, 0);
    let d = put32(c, 28, 0);
    let f = splice(d, 40, zero_bytes(60));
    let e = put16(f, 26, 1);
    put16_then_read(raw, 0, 0x81A4);
    put32_then_read(a, 4, 0);
    put32_then_read(b, 108, 0);
    assert(e == emptied(raw));
    assert(e[0] == a[0] && e[1] == a[1]);
    assert(forall|k: int| 4 <= k < 8 ==> e[k] == b[k]);
    assert(forall|k: int| 108 <= k < 112 ==> e[k] == c[k]);
    assert(forall|k: int| 40 <= k < 100 ==> e[k] == 0);
    let ib = ino_extents(e);
    assert(ib[0] == 0 && ib[1] == 0);
    assert(u16_at(ib, 0) == 0);
    let z = zero_bytes(60);
    let h = put16(z, 0, 0xF30A);
    let i = put16(h, 2, 0);
    let j = put16(i, 4, 4);
    let k = put16(j, 6, 0);
    put16_then_read(z, 0, 0xF30A);
    put16_then_read(h, 2, 0);
    put16_then_read(i, 4, 4);
    put16_then_read(j, 6, 0);
    assert(extent_area(e) == k);
    assert(k[0] == h[0] && k[1] == h[1]);
    assert(k[2] == i[2] && k[3] == i[3]);
    assert(u16_at(k, 0) == 0xF30A);
    assert(run_count(k) == 0);
}

/// A stored inode has the mode, the size and the extents of what was saved.
pub proof fn stored_like(s: FsView, x: u32, raw: Seq<u8>)
    requires
        raw.len() == 256,
    ensures
        ({
            let e = stored(s, x, raw);
            &&& e.len() == 256
            &&& u16_at(e, 0) == u16_at(raw, 0)
            &&& u32_at(e, 4) == u32_at(raw, 4)
            &&& u32_at(e, 28) == u32_at(raw, 28)
            &&& u32_at(e, 108) == u32_at(raw, 108)
            &&& ino_extents(e) == ino_extents(raw)
        }),
{
    stored_fields(s, x, raw);
    let e = stored(s, x, raw);
    assert(ino_extents(e) =~= ino_extents(raw));
    assert(forall|k: int| 0 <= k < 112 ==> e[k] == raw[k]);
}

/// The fields of the inode of a file that was filled.
proof fn filled_fields(raw: Seq<u8>, len: int)
    requires
        raw.len() == 256,
        0 <= len < 0x1_0000_0000,
    ensures
        ({
            let f = filled(raw, len);
            &&& f.len() == 256
            &&& u16_at(f, 0) == u16_at(raw, 0)
            &&& u32_at(f, 4) == len
            &&& u32_at(f, 108) == u32_at(raw, 108)
            &&& ino_extents(f) == ino_extents(raw)
        }),
{
    let a = put32(raw, 4, (len % 0x1_0000_0000) as u32);
    let b = put32(a, 28, ((len + 4095) / 4096 * 8 % 0x1_0000_0000) as u32);
    let f = put16(b, 26, 1);
    put32_then_read(raw, 4, (len % 0x1_0000_0000) as u32);
    assert(f == filled(raw, len));
    assert(forall|k: int| 4 <= k < 8 ==> f[k] == a[k]);
    assert(forall|k: int| 40 <= k < 256 ==> f[k] == raw[k]);
    assert(ino_extents(f) =~= ino_extents(raw));
}

/// A shorter read gives the first bytes of a longer one.
pub proof fn data_head(s: FsView, ib: Seq<u8>, at: int, want: int, less: int)
    requires
        at <= less <= want,
        !data_from(s, ib, at, want).1,
    ensures
        data_from(s, ib, at, want).0.len() == want - at,
        data_from(s, ib, at, less) == (data_from(s, ib, at, want).0.take(less - at), false),
    decreases want - at,
{
    if at < want {
        let n = min_int(want - at, 4096);
        let m = min_int(less - at, 4096);
        let (p, b) = file_block(s, ib, at)->0;
        block_len(s, p as int);
        let rest = data_from(s, ib, at + n, want).0;
        if at < less {
            if m == 4096 {
                data_head(s, ib, at + n, want, less);
                assert((b.subrange(0, n) + rest).take(less - at) =~= b.subrange(0, m) + rest.take(
                    less - at - n,
                ));
            } else {
                data_head(s, ib, at + n, want, at + n);
                assert(data_from(s, ib, at + m, less) == (Seq::<u8>::empty(), false));
                assert((b.subrange(0, n) + rest).take(less - at) =~= b.subrange(0, m) + Seq::<
                    u8,
                >::empty());
            }
        } else {
            data_head(s, ib, at + n, want, at + n);
            assert((b.subrange(0, n) + rest).take(0) =~= Seq::<u8>::empty());
        }
    } else {
        assert(Seq::<u8>::empty().take(0) =~= Seq::<u8>::empty());
    }
}

/// A regular file whose blocks give back the data.
pub(crate) proof fn file_given_back(t: FsView, ino: u32, e: Seq<u8>, data: Seq<u8>, room: int)
    requires
        inode_load(t, ino) == Ok::<Seq<u8>, FsErr>(e),
        u16_at(e, 0) == 0x81A4,
        u32_at(e, 4) == data.len(),
        u32_at(e, 108) == 0,
        data_from(t, ino_extents(e), 0, data.len() as int) == (data, false),
        room >= 0,
    ensures
        file_data(t, ino, room) == (head(data, room), None::<FsErr>),
{
    reveal(file_data);
    assert(is_reg_mode(e));
    assert(ino_size(e) == data.len());
    if room < data.len() {
        data_head(t, ino_extents(e), 0, data.len() as int, room);
    }
}

/// The states on the way from `s` to `t`: an inode is saved, blocks are added,
/// and the inode is saved again.
proof fn stay_through(s: FsView, s1: FsView, s2: FsView, t: FsView, pl: Seq<Place>, ino: u32)
    requires
        steady(s, s1),
        maps_kept(s, s1, pl),
        forall|y: u32|
            1 <= y <= 8192 * pl.len() && y != ino ==> #[trigger] inode_load(s1, y) == inode_load(s, y),
        forall|b: int| !is_system(s, pl, b) ==> #[trigger] read_block(s1, b) == read_block(s, b),
        grown(s1, s2, pl),
        space_ok(t, pl),
        steady(s2, t),
        maps_kept(s2, t, pl),
        forall|y: u32|
            1 <= y <= 8192 * pl.len() && y != ino ==> #[trigger] inode_load(t, y) == inode_load(s2, y),
        forall|b: int| !is_system(s2, pl, b) ==> #[trigger] read_block(t, b) == read_block(s2, b),
    ensures
        others_stay(s, t, pl, ino),
{
    assert forall|b: int| in_use(s, pl, b) && !is_system(s, pl, b) implies #[trigger] read_block(t, b)
        == read_block(s, b) by {
        assert(read_block(s1, b) == read_block(s, b));
        assert(in_use(s1, pl, b) && !is_system(s1, pl, b));
        assert(read_block(s2, b) == read_block(s1, b));
        assert(!is_system(s2, pl, b));
    }
    assert forall|b: int| in_use(s, pl, b) implies #[trigger] in_use(t, pl, b) by {
        assert(in_use(s1, pl, b));
        assert(in_use(s2, pl, b));
    }
    assert forall|x: int| #[trigger] inode_in_use(t, pl, x) == inode_in_use(s, pl, x) by {
        assert(inode_in_use(s1, pl, x) == inode_in_use(s, pl, x));
        assert(inode_in_use(s2, pl, x) == inode_in_use(s1, pl, x));
    }
    assert forall|x: u32| 1 <= x <= 8192 * pl.len() && x != ino implies #[trigger] inode_load(t, x)
        == inode_load(s, x) by {
        assert(inode_load(s1, x) == inode_load(s, x));
        assert(inode_load(s2, x) == inode_load(s1, x));
    }
}

proof fn rest_fields(a: Seq<u8>, b: Seq<u8>)
    requires
        a.len() == 256,
        same_rest(a, b),
    ensures
        u16_at(b, 0) == u16_at(a, 0),
        u32_at(b, 108) == u32_at(a, 108),
{
    assert(forall|k: int| 108 <= k < 112 ==> b[k] == a[k]);
}

/// The parts of a write that went through.
proof fn fill_parts(s: FsView, ino: u32, raw0: Seq<u8>, data: Seq<u8>)
    requires
        fill_file(s, ino, raw0, data).1 is Ok,
    ensures
        inode_save(s, ino, emptied(raw0)).1 is Ok,
        data.len() == 0 ==> fill_file(s, ino, raw0, data).0 == inode_save(s, ino, emptied(raw0)).0,
        data.len() > 0 ==> ({
            let (s2, raw2, r2) = append_data(
                inode_save(s, ino, emptied(raw0)).0,
                emptied(raw0),
                data,
                0,
            );
            &&& r2 is Ok
            &&& inode_save(s2, ino, filled(raw2, data.len() as int)).1 is Ok
            &&& fill_file(s, ino, raw0, data).0 == inode_save(
                s2,
                ino,
                filled(raw2, data.len() as int),
            ).0
        }),
{
    reveal(fill_file);
}

/// The contents that a file was given are read back, as far as there is room,
/// and what was in use besides the file stays as it was.
#[verifier::spinoff_prover]
#[verifier::rlimit(80)]
pub proof fn filled_file_reads_back(
    s: FsView,
    pl: Seq<Place>,
    ino: u32,
    raw0: Seq<u8>,
    data: Seq<u8>,
    room: int,
)
    requires
        space_ok(s, pl),
        1 <= ino <= 8192 * pl.len(),
        raw0.len() == 256,
        fill_file(s, ino, raw0, data).1 is Ok,
        room >= 0,
    ensures
        others_stay(s, fill_file(s, ino, raw0, data).0, pl, ino),
        fresh_file(s, fill_file(s, ino, raw0, data).0, pl, ino),
        file_data(fill_file(s, ino, raw0, data).0, ino, room) == (head(data, room), None::<FsErr>),
{
    let raw = emptied(raw0);
    fill_parts(s, ino, raw0, data);
    emptied_fields(raw0);
    let s1 = inode_save(s, ino, raw).0;
    few_apart(ino_extents(raw));
    inode_reads_back(s, pl, ino, raw);
    stored_like(s, ino, raw);
    if data.len() == 0 {
        let e = stored(s, ino, raw);
        assert(data =~= Seq::<u8>::empty());
        assert(data_from(s1, ino_extents(e), 0, 0) == (data, false));
        file_given_back(s1, ino, e, data, room);
        assert forall|b: int| !tree_holds(s1, ino_extents(e), b) by {
            reveal(tree_holds);
        }
    } else {
        appended_data_reads_back(s1, pl, raw, data, 0);
        let (s2, raw2, r2) = append_data(s1, raw, data, 0);
        let len = data.len() as int;
        let ib = extent_area(raw2);
        few_blocks(ib);
        let f = filled(raw2, len);
        filled_fields(raw2, len);
        rest_fields(raw, raw2);
        inode_reads_back(s2, pl, ino, f);
        let t = inode_save(s2, ino, f).0;
        stored_like(s2, ino, f);
        let e = stored(s2, ino, f);
        stay_through(s, s1, s2, t, pl, ino);
        assert forall|b: int| tree_holds(s2, ib, b) implies #[trigger] read_block(t, b)
            == read_block(s2, b) by {
            leaf_is_tree(s2, ib, b);
            assert(leaf_holds(ib, b));
        }
        data_same(s2, t, ib, 0, len);
        assert(data.subrange(0, len) =~= data);
        file_given_back(t, ino, e, data, room);
        assert forall|b: int| #[trigger] tree_holds(t, ib, b) implies in_use(t, pl, b) && !is_system(
            t,
            pl,
            b,
        ) && !in_use(s, pl, b) by {
            leaf_is_tree(t, ib, b);
            assert(leaf_holds(ib, b));
            assert(in_use(s2, pl, b) && !is_system(s2, pl, b));
            assert(!in_use(s1, pl, b));
        }
    }
}

} // verus!
