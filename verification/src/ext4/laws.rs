//! What the journal promises: a block reads back as it was last written, a
//! commit brings every logged block to its place, and a commit that is cut
//! short leaves either none of the blocks changed or, once the journal has
//! been replayed, all of them.

use vstd::prelude::*;
use crate::bytes::{le32, put32, put32_then_read, splice_keeps_fields, u32_at, zero_bytes};
use crate::crc::crc_of;
use crate::ext4::model::{
    advance, block_sector, block_there, chain_crc, commit_pending, commit_record, desc_dests,
    desc_numbers, descriptor, dests_of, is_jbd_block, jbd_commit, log_block, pend_pos, rb_raw,
    read_block, redo, wb_raw, wrapped, write_block,
};
use crate::ext4::raw::{block_open, block_written};
use crate::fs::{same_but_disk, FsView, JbdPend, JbdView};

verus! {

// ---------- the pending blocks ----------

/// A transaction in progress: no block is logged twice, and no block of the
/// journal is logged.
pub open spec fn log_ok(j: JbdView) -> bool {
    &&& j.wf()
    &&& forall|k: int| 0 <= k < j.pend.len() ==> !is_jbd_block(j.base, #[trigger] j.pend[k].blk as int)
    &&& forall|a: int, b: int|
        0 <= a < b < j.pend.len() ==> (#[trigger] j.pend[a]).blk != (#[trigger] j.pend[b]).blk
}

/// The place of a block among the pending ones.
pub(crate) proof fn pend_found(pend: Seq<JbdPend>, blk: int)
    ensures
        match pend_pos(pend, blk) {
            Some(p) => exists|k: int|
                0 <= k < pend.len() && (#[trigger] pend[k]).blk == blk && pend[k].pos == p,
            None => forall|k: int| 0 <= k < pend.len() ==> (#[trigger] pend[k]).blk != blk,
        },
    decreases pend.len(),
{
    if pend.len() > 0 {
        if pend[0].blk == blk {
            assert(pend[0].pos == pend_pos(pend, blk)->0);
        } else {
            let rest = pend.skip(1);
            pend_found(rest, blk);
            match pend_pos(rest, blk) {
                Some(p) => {
                    let k = choose|k: int|
                        0 <= k < rest.len() && (#[trigger] rest[k]).blk == blk && rest[k].pos == p;
                    assert(pend[k + 1] == rest[k]);
                },
                None => {
                    assert forall|k: int| 0 <= k < pend.len() implies (#[trigger] pend[k]).blk != blk by {
                        if k > 0 {
                            assert(rest[k - 1] == pend[k]);
                        }
                    }
                },
            }
        }
    }
}

/// A block that is pending at place `k` is found there.
proof fn pend_at(j: JbdView, k: int)
    requires
        log_ok(j),
        0 <= k < j.pend.len(),
    ensures
        pend_pos(j.pend, j.pend[k].blk as int) == Some(j.pend[k].pos),
{
    pend_found(j.pend, j.pend[k].blk as int);
}

// ---------- the redo ----------

/// Copying logged blocks to their places succeeds where both can be reached;
/// each place then holds its copy, and every other block is as it was.
pub proof fn redone(s: FsView, from: int, dests: Seq<u32>, k: int)
    requires
        0 <= k <= dests.len(),
        forall|i: int| 0 <= i < dests.len() ==> (#[trigger] rb_raw(s, from + i)) is Some,
        forall|i: int| 0 <= i < dests.len() ==> rb_raw(s, (#[trigger] dests[i]) as int) is Some,
        forall|i: int| 0 <= i < dests.len() ==> block_open(s, (#[trigger] dests[i]) as int),
        forall|i: int|
            0 <= i < dests.len() ==> !(from <= (#[trigger] dests[i]) < from + dests.len()),
        forall|a: int, b: int| 0 <= a < b < dests.len() ==> #[trigger] dests[a] != #[trigger] dests[b],
    ensures
        ({
            let (t, ok) = redo(s, from, dests, k);
            &&& ok
            &&& same_but_disk(s, t)
            &&& s.disk.wf() ==> t.disk.wf()
            &&& forall|i: int|
                k <= i < dests.len() ==> rb_raw(t, (#[trigger] dests[i]) as int) == rb_raw(
                    s,
                    from + i,
                )
            &&& forall|b: int|
                (forall|i: int| k <= i < dests.len() ==> #[trigger] dests[i] != b)
                    ==> #[trigger] rb_raw(t, b) == rb_raw(s, b)
        }),
    decreases dests.len() - k,
{
    if k < dests.len() {
        assert(rb_raw(s, from + k) is Some);
        let data = rb_raw(s, from + k)->0;
        assert(data.len() == 4096);
        let d = dests[k] as int;
        block_written(s, d, data);
        let s1 = wb_raw(s, d, data).0;
        there_same(s, s1);
        assert forall|i: int| 0 <= i < dests.len() implies (#[trigger] rb_raw(s1, from + i)) is Some by {
            assert(rb_raw(s, from + i) is Some);
        }
        assert forall|i: int| 0 <= i < dests.len() implies rb_raw(
            s1,
            (#[trigger] dests[i]) as int,
        ) is Some by {
            assert(rb_raw(s, dests[i] as int) is Some);
        }
        redone(s1, from, dests, k + 1);
        let t = redo(s, from, dests, k).0;
        assert forall|i: int| k <= i < dests.len() implies rb_raw(t, (#[trigger] dests[i]) as int)
            == rb_raw(s, from + i) by {
            assert(rb_raw(s1, from + i) == rb_raw(s, from + i));
            if i == k {
                assert(forall|a: int| k + 1 <= a < dests.len() ==> #[trigger] dests[a] != d);
                assert(rb_raw(t, d) == rb_raw(s1, d));
            }
        }
        assert forall|b: int|
            (forall|i: int| k <= i < dests.len() ==> #[trigger] dests[i] != b) implies #[trigger] rb_raw(
            t,
            b,
        ) == rb_raw(s, b) by {
            assert(dests[k] != b);
            assert(rb_raw(s1, b) == rb_raw(s, b));
        }
    }
}

// ---------- a commit as a list of block writes ----------

/// The volume after the first `m` of these block writes.
pub open spec fn state_at(s: FsView, steps: Seq<(int, Seq<u8>)>, m: int) -> FsView
    decreases m,
{
    if m <= 0 {
        s
    } else {
        wb_raw(state_at(s, steps, m - 1), steps[m - 1].0, steps[m - 1].1).0
    }
}

/// Whole blocks are written, each at most once, and all of them can be.
pub open spec fn steps_ok(s: FsView, steps: Seq<(int, Seq<u8>)>) -> bool {
    &&& forall|i: int| 0 <= i < steps.len() ==> (#[trigger] steps[i]).1.len() == 4096
    &&& forall|i: int| 0 <= i < steps.len() ==> rb_raw(s, (#[trigger] steps[i]).0) is Some
    &&& forall|i: int| 0 <= i < steps.len() ==> block_open(s, (#[trigger] steps[i]).0)
    &&& forall|a: int, b: int|
        0 <= a < b < steps.len() ==> (#[trigger] steps[a]).0 != (#[trigger] steps[b]).0
}

/// After `m` steps the blocks that were written hold what was written, and
/// the other blocks are as they were.
pub(crate) proof fn stepped(s: FsView, steps: Seq<(int, Seq<u8>)>, m: int)
    requires
        steps_ok(s, steps),
        0 <= m <= steps.len(),
    ensures
        ({
            let t = state_at(s, steps, m);
            &&& same_but_disk(s, t)
            &&& s.disk.wf() ==> t.disk.wf()
            &&& t.disk.log.len() == s.disk.log.len() + 8 * m
            &&& forall|i: int| 0 <= i < m ==> rb_raw(t, (#[trigger] steps[i]).0) == Some(steps[i].1)
            &&& forall|b: int|
                (forall|i: int| 0 <= i < m ==> (#[trigger] steps[i]).0 != b)
                    ==> #[trigger] rb_raw(t, b) == rb_raw(s, b)
            &&& m < steps.len() ==> wb_raw(t, steps[m].0, steps[m].1).1
        }),
    decreases m,
{
    let t = state_at(s, steps, m);
    if m > 0 {
        stepped(s, steps, m - 1);
        let u = state_at(s, steps, m - 1);
        let (b1, d1) = steps[m - 1];
        block_written(u, b1, d1);
        assert forall|i: int| 0 <= i < m implies rb_raw(t, (#[trigger] steps[i]).0) == Some(
            steps[i].1,
        ) by {
            if i < m - 1 {
                assert(steps[i].0 != steps[m - 1].0);
                assert(rb_raw(t, steps[i].0) == rb_raw(u, steps[i].0));
            }
        }
        assert forall|b: int|
            (forall|i: int| 0 <= i < m ==> (#[trigger] steps[i]).0 != b) implies #[trigger] rb_raw(
            t,
            b,
        ) == rb_raw(s, b) by {
            assert(steps[m - 1].0 != b);
            assert(rb_raw(u, b) == rb_raw(s, b));
        }
    }
    if m < steps.len() {
        assert(rb_raw(s, steps[m].0) is Some);
        assert(forall|i: int| 0 <= i < m ==> (#[trigger] steps[i]).0 != steps[m].0);
        assert(rb_raw(t, steps[m].0) == rb_raw(s, steps[m].0));
        there_same(s, t);
        block_written(t, steps[m].0, steps[m].1);
    }
}

/// Where the logged copies of the transaction start.
pub open spec fn copies(j: JbdView) -> int {
    j.base + j.start + 1
}

/// The checksum of the transaction.
pub open spec fn seal(s: FsView, j: JbdView) -> Option<u32> {
    chain_crc(
        s,
        copies(j),
        0,
        j.pend.len() as int,
        crc_of(0xFFFF_FFFF, descriptor(j.seq, dests_of(j.pend))),
    )
}

/// The block writes of a commit, in order: the descriptor, the commit block,
/// the logged blocks, and the journal superblock.
pub open spec fn commit_steps(s: FsView, j: JbdView) -> Seq<(int, Seq<u8>)> {
    let n = j.pend.len();
    let j1 = advance(j, n as int);
    Seq::new(
        n + 3,
        |i: int|
            if i == 0 {
                (j.base + j.start, descriptor(j.seq, dests_of(j.pend)))
            } else if i == 1 {
                (copies(j) + n, commit_record(j.seq, seal(s, j)->0, n as u32))
            } else if i < n + 2 {
                (j.pend[i - 2].blk as int, rb_raw(s, copies(j) + (i - 2))->0)
            } else {
                (j.base as int, put32(put32(rb_raw(s, j.base as int)->0, 8, j1.seq), 12, j1.start))
            },
    )
}

proof fn desc_len(b: Seq<u8>, dests: Seq<u32>, k: int)
    requires
        b.len() == 4096,
        0 <= k <= dests.len() <= 1020,
    ensures
        desc_numbers(b, dests, k).len() == 4096,
        forall|o: int| 0 <= o && o + 4 <= 16 ==> #[trigger] u32_at(desc_numbers(b, dests, k), o)
            == u32_at(b, o),
        forall|i: int| 0 <= i < k ==> #[trigger] u32_at(desc_numbers(b, dests, k), 16 + 4 * i)
            == dests[i],
    decreases k,
{
    if k > 0 {
        desc_len(b, dests, k - 1);
        let c = desc_numbers(b, dests, k - 1);
        let o1 = 16 + 4 * (k - 1);
        put32_then_read(c, o1, dests[k - 1]);
        assert forall|o: int| 0 <= o && o + 4 <= 16 implies #[trigger] u32_at(
            desc_numbers(b, dests, k),
            o,
        ) == u32_at(b, o) by {
            splice_keeps_fields(c, o1, le32(dests[k - 1]), o);
            assert(u32_at(c, o) == u32_at(b, o));
        }
        assert forall|i: int| 0 <= i < k implies #[trigger] u32_at(
            desc_numbers(b, dests, k),
            16 + 4 * i,
        ) == dests[i] by {
            if i < k - 1 {
                splice_keeps_fields(c, o1, le32(dests[k - 1]), 16 + 4 * i);
                assert(u32_at(c, 16 + 4 * i) == dests[i]);
            }
        }
    }
}

/// The fields of a descriptor block.
pub(crate) proof fn descriptor_fields(seq: u32, dests: Seq<u32>)
    requires
        dests.len() <= 1020,
    ensures
        descriptor(seq, dests).len() == 4096,
        u32_at(descriptor(seq, dests), 0) == 0xC03B_3998,
        u32_at(descriptor(seq, dests), 4) == 2,
        u32_at(descriptor(seq, dests), 8) == seq,
        u32_at(descriptor(seq, dests), 12) == dests.len(),
        desc_dests(descriptor(seq, dests), dests.len()) == dests,
{
    let z = zero_bytes(4096);
    let a = put32(z, 0, 0xC03B_3998);
    let b = put32(a, 4, 2);
    let c = put32(b, 8, seq);
    let d = put32(c, 12, dests.len() as u32);
    put32_then_read(z, 0, 0xC03B_3998);
    put32_then_read(a, 4, 2);
    put32_then_read(b, 8, seq);
    put32_then_read(c, 12, dests.len() as u32);
    splice_keeps_fields(a, 4, le32(2), 0);
    splice_keeps_fields(b, 8, le32(seq), 0);
    splice_keeps_fields(c, 12, le32(dests.len() as u32), 0);
    splice_keeps_fields(b, 8, le32(seq), 4);
    splice_keeps_fields(c, 12, le32(dests.len() as u32), 4);
    splice_keeps_fields(c, 12, le32(dests.len() as u32), 8);
    desc_len(d, dests, dests.len() as int);
    assert(desc_dests(descriptor(seq, dests), dests.len()) =~= dests);
}

/// The fields of a commit block.
pub(crate) proof fn commit_fields(seq: u32, chk: u32, n: u32)
    ensures
        commit_record(seq, chk, n).len() == 4096,
        u32_at(commit_record(seq, chk, n), 0) == 0xC03B_3998,
        u32_at(commit_record(seq, chk, n), 4) == 3,
        u32_at(commit_record(seq, chk, n), 8) == seq,
        u32_at(commit_record(seq, chk, n), 12) == chk,
{
    let z = zero_bytes(4096);
    let a = put32(z, 0, 0xC03B_3998);
    let b = put32(a, 4, 3);
    let c = put32(b, 8, seq);
    let d = put32(c, 12, chk);
    put32_then_read(z, 0, 0xC03B_3998);
    put32_then_read(a, 4, 3);
    put32_then_read(b, 8, seq);
    put32_then_read(c, 12, chk);
    splice_keeps_fields(a, 4, le32(3), 0);
    splice_keeps_fields(b, 8, le32(seq), 0);
    splice_keeps_fields(c, 12, le32(chk), 0);
    splice_keeps_fields(d, 16, le32(n), 0);
    splice_keeps_fields(b, 8, le32(seq), 4);
    splice_keeps_fields(c, 12, le32(chk), 4);
    splice_keeps_fields(d, 16, le32(n), 4);
    splice_keeps_fields(c, 12, le32(chk), 8);
    splice_keeps_fields(d, 16, le32(n), 8);
    splice_keeps_fields(d, 16, le32(n), 12);
}

/// Every block that the commit reads or writes is there, and those that it
/// writes can be written.
pub open spec fn reach(s: FsView, j: JbdView) -> bool {
    &&& rb_raw(s, j.base as int) is Some
    &&& rb_raw(s, j.base + j.start) is Some
    &&& forall|k: int| 0 <= k <= j.pend.len() ==> (#[trigger] rb_raw(s, copies(j) + k)) is Some
    &&& forall|k: int| 0 <= k < j.pend.len() ==> rb_raw(s, (#[trigger] j.pend[k]).blk as int) is Some
    &&& block_open(s, j.base as int)
    &&& block_open(s, j.base + j.start)
    &&& block_open(s, copies(j) + j.pend.len())
    &&& forall|k: int| 0 <= k < j.pend.len() ==> block_open(s, (#[trigger] j.pend[k]).blk as int)
}

/// The same blocks can be written.
pub(crate) proof fn open_same(s: FsView, t: FsView)
    requires
        t.dev == s.dev,
        t.base == s.base,
        t.disk.sec.dom() == s.disk.sec.dom(),
        t.disk.fixed == s.disk.fixed,
    ensures
        forall|b: int| #[trigger] block_open(t, b) <==> block_open(s, b),
{
    reveal(block_open);
    assert forall|b: int| #[trigger] block_open(t, b) <==> block_open(s, b) by {
        if block_there(s, b) {
            assert forall|i: int| 0 <= i < 8 implies (#[trigger] block_sector(t, b, i)) is Some by {
                assert(block_sector(s, b, i) is Some);
            }
        }
        if block_there(t, b) {
            assert forall|i: int| 0 <= i < 8 implies (#[trigger] block_sector(s, b, i)) is Some by {
                assert(block_sector(t, b, i) is Some);
            }
        }
    }
}

/// The same sectors are there, so the same blocks are.
pub(crate) proof fn there_same(s: FsView, t: FsView)
    requires
        same_but_disk(s, t),
    ensures
        forall|b: int| (#[trigger] rb_raw(t, b)) is Some <==> rb_raw(s, b) is Some,
        forall|b: int| #[trigger] block_open(t, b) <==> block_open(s, b),
{
    open_same(s, t);
    assert forall|b: int| (#[trigger] rb_raw(t, b)) is Some <==> rb_raw(s, b) is Some by {
        if block_there(s, b) {
            assert forall|i: int| 0 <= i < 8 implies (#[trigger] block_sector(t, b, i)) is Some by {
                assert(block_sector(s, b, i) is Some);
            }
        }
        if block_there(t, b) {
            assert forall|i: int| 0 <= i < 8 implies (#[trigger] block_sector(s, b, i)) is Some by {
                assert(block_sector(t, b, i) is Some);
            }
        }
    }
}

proof fn sealed_there(s: FsView, from: int, k: int, n: int, acc: u32, i: int)
    requires
        0 <= k <= i < n,
        chain_crc(s, from, k, n, acc) is Some,
    ensures
        rb_raw(s, from + i) is Some,
    decreases n - k,
{
    if k < i {
        sealed_there(s, from, k + 1, n, crc_of(acc, rb_raw(s, from + k)->0), i);
    }
}

proof fn redo_there(s: FsView, from: int, dests: Seq<u32>, k: int, i: int)
    requires
        0 <= k <= i < dests.len(),
        redo(s, from, dests, k).1,
    ensures
        rb_raw(s, dests[i] as int) is Some,
        block_open(s, dests[i] as int),
    decreases dests.len() - k,
{
    let b = rb_raw(s, from + k)->0;
    block_written(s, dests[k] as int, b);
    if k < i {
        let s1 = wb_raw(s, dests[k] as int, b).0;
        there_same(s, s1);
        redo_there(s1, from, dests, k + 1, i);
        assert(rb_raw(s1, dests[i] as int) is Some);
        assert(block_open(s1, dests[i] as int));
    }
}

proof fn redo_same(s: FsView, from: int, dests: Seq<u32>, k: int)
    requires
        0 <= k <= dests.len(),
        redo(s, from, dests, k).1,
    ensures
        same_but_disk(s, redo(s, from, dests, k).0),
    decreases dests.len() - k,
{
    if k < dests.len() {
        let b = rb_raw(s, from + k)->0;
        block_written(s, dests[k] as int, b);
        redo_same(wb_raw(s, dests[k] as int, b).0, from, dests, k + 1);
    }
}

/// A commit that succeeded could reach all its blocks.
pub(crate) proof fn committed_reach(s: FsView, j: JbdView)
    requires
        log_ok(j),
        j.pend.len() > 0,
        commit_pending(s, j).1 is Ok,
    ensures
        reach(s, j),
{
    reveal(commit_pending);
    let n = j.pend.len() as int;
    let dests = dests_of(j.pend);
    let d = descriptor(j.seq, dests);
    let from = copies(j);
    let chk = seal(s, j)->0;
    descriptor_fields(j.seq, dests);
    commit_fields(j.seq, chk, n as u32);
    block_written(s, j.base + j.start, d);
    let s1 = wb_raw(s, j.base + j.start, d).0;
    there_same(s, s1);
    block_written(s1, from + n, commit_record(j.seq, chk, n as u32));
    let s2 = wb_raw(s1, from + n, commit_record(j.seq, chk, n as u32)).0;
    there_same(s1, s2);
    assert forall|k: int| 0 <= k <= n implies (#[trigger] rb_raw(s, from + k)) is Some by {
        if k < n {
            sealed_there(s, from, 0, n, crc_of(0xFFFF_FFFF, d), k);
        } else {
            assert(rb_raw(s1, from + n) is Some);
        }
    }
    assert(block_open(s1, from + n));
    assert forall|k: int| 0 <= k < n implies rb_raw(s, (#[trigger] j.pend[k]).blk as int) is Some
        && block_open(s, j.pend[k].blk as int) by {
        redo_there(s2, from, dests, 0, k);
        assert(block_open(s2, dests[k] as int));
        assert(block_open(s1, dests[k] as int));
        assert(rb_raw(s2, dests[k] as int) is Some);
        assert(rb_raw(s1, dests[k] as int) is Some);
    }
    redo_same(s2, from, dests, 0);
    let s3 = redo(s2, from, dests, 0).0;
    there_same(s2, s3);
    let s4 = FsView { jbd: Some(advance(j, n)), ..s3 };
    assert(rb_raw(s4, j.base as int) is Some);
    raw_same(s3, s4);
    assert(rb_raw(s3, j.base as int) is Some);
    assert(rb_raw(s2, j.base as int) is Some);
    assert(rb_raw(s1, j.base as int) is Some);
    let sb = rb_raw(s4, j.base as int)->0;
    let j4 = advance(j, n);
    block_written(s4, j.base as int, put32(put32(sb, 8, j4.seq), 12, j4.start));
    open_same(s3, s4);
    assert(block_open(s4, j.base as int));
    assert(block_open(s3, j.base as int));
    assert(block_open(s2, j.base as int));
    assert(block_open(s1, j.base as int));
}

/// Blocks depend on nothing but the sectors.
pub(crate) proof fn raw_same(s: FsView, t: FsView)
    requires
        s.dev == t.dev,
        s.base == t.base,
        s.disk.sec == t.disk.sec,
    ensures
        forall|b: int| #[trigger] rb_raw(t, b) == rb_raw(s, b),
{
    assert forall|b: int| #[trigger] rb_raw(t, b) == rb_raw(s, b) by {
        assert(forall|i: int| #[trigger] block_sector(t, b, i) == block_sector(s, b, i));
        assert(forall|i: int| #[trigger] block_sector(s, b, i) == block_sector(t, b, i));
        assert(block_there(t, b) == block_there(s, b));
        if block_there(s, b) {
            assert(rb_raw(t, b)->0 =~= rb_raw(s, b)->0);
        }
    }
}

/// The steps of a commit that can reach all its blocks.
pub(crate) proof fn steps_there(s: FsView, j: JbdView)
    requires
        log_ok(j),
        j.pend.len() > 0,
        reach(s, j),
    ensures
        steps_ok(s, commit_steps(s, j)),
        seal(s, j) is Some,
{
    let n = j.pend.len() as int;
    let w = commit_steps(s, j);
    let from = copies(j);
    descriptor_fields(j.seq, dests_of(j.pend));
    commit_fields(j.seq, seal(s, j)->0, n as u32);
    sealed(s, from, 0, n, crc_of(0xFFFF_FFFF, descriptor(j.seq, dests_of(j.pend))));
    assert forall|i: int| 0 <= i < w.len() implies (#[trigger] w[i]).1.len() == 4096 by {
        if 2 <= i < n + 2 {
            assert(rb_raw(s, from + (i - 2)) is Some);
        }
    }
    assert forall|i: int| 0 <= i < w.len() implies rb_raw(s, (#[trigger] w[i]).0) is Some && block_open(
        s,
        w[i].0,
    ) by {
        if i == 1 {
            assert(rb_raw(s, from + n) is Some);
        } else if 2 <= i < n + 2 {
            assert(rb_raw(s, j.pend[i - 2].blk as int) is Some);
        }
    }
    assert forall|a: int, b: int| 0 <= a < b < w.len() implies (#[trigger] w[a]).0 != (#[trigger] w[b]).0 by {
        if 2 <= a < n + 2 {
            assert(!is_jbd_block(j.base, j.pend[a - 2].blk as int));
        }
        if 2 <= b < n + 2 {
            assert(!is_jbd_block(j.base, j.pend[b - 2].blk as int));
        }
    }
}

pub(crate) proof fn sealed(s: FsView, from: int, k: int, n: int, acc: u32)
    requires
        0 <= k <= n,
        forall|i: int| 0 <= i < n ==> (#[trigger] rb_raw(s, from + i)) is Some,
    ensures
        chain_crc(s, from, k, n, acc) is Some,
    decreases n - k,
{
    if k < n {
        assert(rb_raw(s, from + k) is Some);
        sealed(s, from, k + 1, n, crc_of(acc, rb_raw(s, from + k)->0));
    }
}

/// The redo of a commit is its steps from the third on.
proof fn redo_steps(s: FsView, j: JbdView, k: int)
    requires
        log_ok(j),
        j.pend.len() > 0,
        reach(s, j),
        0 <= k <= j.pend.len(),
    ensures
        redo(state_at(s, commit_steps(s, j), k + 2), copies(j), dests_of(j.pend), k) == (
            state_at(s, commit_steps(s, j), j.pend.len() as int + 2),
            true,
        ),
    decreases j.pend.len() - k,
{
    let n = j.pend.len() as int;
    let w = commit_steps(s, j);
    steps_there(s, j);
    if k < n {
        let t = state_at(s, w, k + 2);
        stepped(s, w, k + 2);
        let b = copies(j) + k;
        assert forall|i: int| 0 <= i < k + 2 implies (#[trigger] w[i]).0 != b by {
            if i >= 2 {
                assert(!is_jbd_block(j.base, j.pend[i - 2].blk as int));
            }
        }
        assert(rb_raw(t, b) == rb_raw(s, b));
        assert(rb_raw(s, b) is Some);
        assert(w[k + 2].0 == dests_of(j.pend)[k] as int);
        assert(w[k + 2].1 == rb_raw(s, b)->0);
        redo_steps(s, j, k + 1);
        assert(state_at(s, w, k + 3) == wb_raw(t, w[k + 2].0, w[k + 2].1).0);
    }
}

/// A commit succeeds exactly where it can reach its blocks, and then it is
/// its steps, one after the other.
pub(crate) proof fn committed(s: FsView, j: JbdView)
    requires
        s.jbd == Some(j),
        log_ok(j),
        j.pend.len() > 0,
    ensures
        commit_pending(s, j).1 is Ok <==> reach(s, j),
        reach(s, j) ==> ({
            let t = commit_pending(s, j).0;
            let n = j.pend.len() as int;
            &&& t.disk == state_at(s, commit_steps(s, j), n + 3).disk
            &&& t == FsView { disk: t.disk, jbd: Some(advance(j, n)), ..s }
        }),
{
    if commit_pending(s, j).1 is Ok {
        committed_reach(s, j);
    }
    if reach(s, j) {
        reveal(commit_pending);
        let n = j.pend.len() as int;
        let w = commit_steps(s, j);
        steps_there(s, j);
        stepped(s, w, 0);
        stepped(s, w, 1);
        stepped(s, w, n + 2);
        reveal_with_fuel(state_at, 3);
        redo_steps(s, j, 0);
        let s3 = state_at(s, w, n + 2);
        let s4 = FsView { jbd: Some(advance(j, n)), ..s3 };
        raw_same(s3, s4);
        assert forall|i: int| 0 <= i < n + 2 implies (#[trigger] w[i]).0 != j.base as int by {
            if i >= 2 {
                assert(!is_jbd_block(j.base, j.pend[i - 2].blk as int));
            }
        }
        assert(rb_raw(s4, j.base as int) == rb_raw(s, j.base as int));
        let sb = w[n + 2].1;
        disk_only(s3, s4, j.base as int, sb);
        assert(state_at(s, w, n + 3) == wb_raw(s3, j.base as int, sb).0);
        stepped(s, w, n + 3);
        assert(state_at(s, w, 1) == wb_raw(s, w[0].0, w[0].1).0);
        assert(state_at(s, w, 2) == wb_raw(state_at(s, w, 1), w[1].0, w[1].1).0);
    }
}

proof fn disk_only_from(s: FsView, t: FsView, blk: int, data: Seq<u8>, i: int)
    requires
        t == (FsView { jbd: t.jbd, ..s }),
        0 <= i,
    ensures
        crate::ext4::model::wb_from(t, blk, data, i) == (
            FsView { jbd: t.jbd, ..crate::ext4::model::wb_from(s, blk, data, i).0 },
            crate::ext4::model::wb_from(s, blk, data, i).1,
        ),
    decreases 8 - i,
{
    if i < 8 {
        let d = data.subrange(512 * i, 512 * i + 512);
        match s.raw_write(8 * blk + i, d) {
            None => {},
            Some(s1) => {
                let t1 = t.raw_write(8 * blk + i, d)->0;
                disk_only_from(s1, t1, blk, data, i + 1);
            },
        }
    }
}

/// A block write does not depend on the state of the journal.
proof fn disk_only(s: FsView, t: FsView, blk: int, data: Seq<u8>)
    requires
        t == (FsView { jbd: t.jbd, ..s }),
    ensures
        wb_raw(t, blk, data) == (
            FsView { jbd: t.jbd, ..wb_raw(s, blk, data).0 },
            wb_raw(s, blk, data).1,
        ),
{
    reveal(wb_raw);
    disk_only_from(s, t, blk, data, 0);
}

// ---------- the laws of block reads, block writes and commits ----------

/// A commit that succeeds leaves the volume as its reader saw it before: each
/// block outside the journal holds on the disk what a read returned, and
/// nothing is pending any more.
pub proof fn commit_brings_blocks_home(s: FsView, j: JbdView)
    requires
        s.jbd == Some(j),
        log_ok(j),
        j.pend.len() > 0,
        commit_pending(s, j).1 is Ok,
    ensures
        ({
            let t = commit_pending(s, j).0;
            &&& t == FsView { disk: t.disk, jbd: Some(advance(j, j.pend.len() as int)), ..s }
            &&& t.disk.sec.dom() == s.disk.sec.dom()
            &&& t.disk.fixed == s.disk.fixed
            &&& s.disk.wf() ==> t.disk.wf()
            &&& forall|b: int|
                !is_jbd_block(j.base, b) ==> #[trigger] rb_raw(t, b) == read_block(s, b)
            &&& forall|b: int|
                !is_jbd_block(j.base, b) ==> #[trigger] read_block(t, b) == read_block(s, b)
        }),
{
    committed(s, j);
    let n = j.pend.len() as int;
    let w = commit_steps(s, j);
    steps_there(s, j);
    stepped(s, w, n + 3);
    let t = commit_pending(s, j).0;
    let u = state_at(s, w, n + 3);
    raw_same(u, t);
    reveal(read_block);
    assert forall|b: int| !is_jbd_block(j.base, b) implies #[trigger] rb_raw(t, b) == read_block(
        s,
        b,
    ) by {
        pend_found(j.pend, b);
        match pend_pos(j.pend, b) {
            Some(p) => {
                let k = choose|k: int|
                    0 <= k < j.pend.len() && (#[trigger] j.pend[k]).blk == b && j.pend[k].pos == p;
                assert(w[k + 2].0 == b);
                assert(rb_raw(u, w[k + 2].0) == Some(w[k + 2].1));
                assert(rb_raw(s, copies(j) + k) is Some);
                assert(j.base + p == copies(j) + k);
            },
            None => {
                assert forall|i: int| 0 <= i < n + 3 implies (#[trigger] w[i]).0 != b by {
                    if 2 <= i < n + 2 {
                        assert(j.pend[i - 2].blk != b);
                    }
                }
                assert(rb_raw(u, b) == rb_raw(s, b));
            },
        }
    }
    assert forall|b: int| !is_jbd_block(j.base, b) implies #[trigger] read_block(t, b)
        == read_block(s, b) by {
        assert(rb_raw(t, b) == read_block(s, b));
    }
}

/// The block is not one of the journal's own.
pub open spec fn outside_journal(s: FsView, b: int) -> bool {
    s.jbd matches Some(j) ==> !is_jbd_block(j.base, b)
}

/// The volume with its journal, if it has one, between two block writes.
pub open spec fn journal_ok(s: FsView) -> bool {
    s.jbd matches Some(j) ==> log_ok(j)
}

/// `t` is `s` with other blocks: the same sectors are there, and the journal
/// lies where it lay.
pub open spec fn same_volume(s: FsView, t: FsView) -> bool {
    &&& t == FsView { disk: t.disk, jbd: t.jbd, ..s }
    &&& t.disk.sec.dom() == s.disk.sec.dom()
    &&& t.disk.fixed == s.disk.fixed
    &&& s.disk.wf() ==> t.disk.wf()
    &&& match s.jbd {
        None => t.jbd is None,
        Some(j) => t.jbd is Some && t.jbd->0.base == j.base,
    }
    &&& journal_ok(s) ==> journal_ok(t)
}

/// A slot of the journal is written; what is read of the blocks whose copies
/// stand elsewhere stays.
proof fn slot_written(s: FsView, j: JbdView, slot: int, data: Seq<u8>)
    requires
        s.jbd == Some(j),
        log_ok(j),
        1 <= slot < 1024,
        data.len() == 4096,
        wb_raw(s, j.base + slot, data).1,
    ensures
        ({
            let t = wb_raw(s, j.base + slot, data).0;
            &&& same_volume(s, t)
            &&& t.jbd == s.jbd
            &&& rb_raw(t, j.base + slot) == Some(data)
            &&& forall|b: int|
                !is_jbd_block(j.base, b) && pend_pos(j.pend, b) != Some(slot as u32)
                    ==> #[trigger] read_block(t, b) == read_block(s, b)
            &&& forall|b: int|
                !is_jbd_block(j.base, b) ==> #[trigger] rb_raw(t, b) == rb_raw(s, b)
        }),
{
    block_written(s, j.base + slot, data);
    reveal(read_block);
    let t = wb_raw(s, j.base + slot, data).0;
    assert forall|b: int|
        !is_jbd_block(j.base, b) && pend_pos(j.pend, b) != Some(slot as u32) implies #[trigger] read_block(
        t,
        b,
    ) == read_block(s, b) by {
        match pend_pos(j.pend, b) {
            Some(p) => {
                assert(rb_raw(t, j.base + p) == rb_raw(s, j.base + p));
            },
            None => {},
        }
    }
}

/// A block that was not pending is logged.
proof fn logged(s: FsView, j: JbdView, blk: int, data: Seq<u8>)
    requires
        s.jbd == Some(j),
        log_ok(j),
        0 <= blk <= u32::MAX,
        !is_jbd_block(j.base, blk),
        pend_pos(j.pend, blk) is None,
        data.len() == 4096,
        log_block(s, j, blk, data).1,
    ensures
        ({
            let t = log_block(s, j, blk, data).0;
            &&& same_volume(s, t)
            &&& read_block(t, blk) == Some(data)
            &&& forall|b: int|
                b != blk && !is_jbd_block(j.base, b) ==> #[trigger] read_block(t, b) == read_block(
                    s,
                    b,
                )
        }),
{
    reveal(log_block);
    let full = j.pend.len() > 0 && (j.pend.len() == 1020 || j.start + j.pend.len() + 2 > 1023);
    if full {
        commit_brings_blocks_home(s, j);
    }
    let s1 = if full {
        commit_pending(s, j).0
    } else {
        s
    };
    let j1 = s1.jbd->0;
    pend_found(j.pend, blk);
    let j2 = if j1.pend.len() == 0 {
        wrapped(j1)
    } else {
        j1
    };
    let s2 = FsView { jbd: Some(j2), ..s1 };
    raw_same(s1, s2);
    assert(log_ok(j2));
    reveal(read_block);
    assert(forall|b: int| #[trigger] read_block(s2, b) == read_block(s1, b));
    let pos = j2.start + 1 + j2.pend.len();
    assert forall|b: int| pend_pos(j2.pend, b) != Some(pos as u32) by {
        pend_found(j2.pend, b);
    }
    slot_written(s2, j2, pos, data);
    let s3 = wb_raw(s2, j2.base + pos, data).0;
    let p = JbdPend { blk: blk as u32, pos: pos as u32 };
    let j3 = JbdView { pend: j2.pend.push(p), ..j2 };
    let t = log_block(s, j, blk, data).0;
    assert(t == FsView { jbd: Some(j3), ..s3 });
    assert(log_ok(j3)) by {
        assert forall|k: int| 0 <= k < j3.pend.len() implies !is_jbd_block(
            j3.base,
            #[trigger] j3.pend[k].blk as int,
        ) && j3.pend[k].pos == j3.start + 1 + k by {
            if k < j2.pend.len() {
                assert(j3.pend[k] == j2.pend[k]);
            }
        }
        assert forall|a: int, b: int| 0 <= a < b < j3.pend.len() implies (#[trigger] j3.pend[a]).blk != (
        #[trigger] j3.pend[b]).blk by {
            assert(j3.pend[a] == j2.pend[a]);
            if b < j2.pend.len() {
                assert(j3.pend[b] == j2.pend[b]);
            }
        }
    }
    raw_same(s3, t);
    assert(j3.pend[j2.pend.len() as int] == p);
    pend_at(j3, j2.pend.len() as int);
    assert forall|b: int| b != blk && !is_jbd_block(j.base, b) implies #[trigger] read_block(t, b)
        == read_block(s, b) by {
        pend_found(j3.pend, b);
        pend_found(j2.pend, b);
        match pend_pos(j2.pend, b) {
            Some(q) => {
                let k = choose|k: int|
                    0 <= k < j2.pend.len() && (#[trigger] j2.pend[k]).blk == b && j2.pend[k].pos == q;
                assert(j3.pend[k] == j2.pend[k]);
                pend_at(j3, k);
            },
            None => {
                if pend_pos(j3.pend, b) is Some {
                    let q = pend_pos(j3.pend, b)->0;
                    let k = choose|k: int|
                        0 <= k < j3.pend.len() && (#[trigger] j3.pend[k]).blk == b && j3.pend[k].pos
                            == q;
                    if k < j2.pend.len() {
                        assert(j3.pend[k] == j2.pend[k]);
                    }
                }
            },
        }
        assert(read_block(s3, b) == read_block(s2, b));
        assert(read_block(s2, b) == read_block(s1, b));
    }
}

/// A block reads back as it was written, and no other block outside the
/// journal changes for a reader.
pub proof fn written_block_reads_back(s: FsView, blk: int, data: Seq<u8>)
    requires
        journal_ok(s),
        0 <= blk <= u32::MAX,
        outside_journal(s, blk),
        data.len() == 4096,
        write_block(s, blk, data).1,
    ensures
        ({
            let t = write_block(s, blk, data).0;
            &&& same_volume(s, t)
            &&& read_block(t, blk) == Some(data)
            &&& forall|b: int|
                b != blk && outside_journal(s, b) ==> #[trigger] read_block(t, b) == read_block(s, b)
        }),
{
    reveal(write_block);
    reveal(read_block);
    match s.jbd {
        None => {
            block_written(s, blk, data);
        },
        Some(j) => {
            pend_found(j.pend, blk);
            match pend_pos(j.pend, blk) {
                None => {
                    logged(s, j, blk, data);
                },
                Some(p) => {
                    let k = choose|k: int|
                        0 <= k < j.pend.len() && (#[trigger] j.pend[k]).blk == blk && j.pend[k].pos
                            == p;
                    slot_written(s, j, p as int, data);
                    let t = write_block(s, blk, data).0;
                    assert forall|b: int| b != blk && outside_journal(s, b) implies #[trigger] read_block(
                        t,
                        b,
                    ) == read_block(s, b) by {
                        pend_found(j.pend, b);
                    }
                },
            }
        },
    }
}

/// A commit changes no block for a reader, whether anything was pending or
/// not.
pub proof fn commit_keeps_blocks(s: FsView)
    requires
        journal_ok(s),
        jbd_commit(s).1 is Ok,
    ensures
        same_volume(s, jbd_commit(s).0),
        forall|b: int|
            outside_journal(s, b) ==> #[trigger] read_block(jbd_commit(s).0, b) == read_block(s, b),
{
    match s.jbd {
        None => {},
        Some(j) => if j.pend.len() > 0 {
            commit_brings_blocks_home(s, j);
        },
    }
}

} // verus!
