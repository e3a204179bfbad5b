//! A commit that is cut short: the disk stops after some of its sector
//! writes, and the journal is replayed from what the disk then holds.

use vstd::prelude::*;
use crate::bytes::{put32, put32_then_read, splice_keeps_fields, le32, u32_at};
use crate::crc::crc_of;
use crate::disk::DiskView;
use crate::ext4::laws::{
    commit_fields, commit_steps, committed, copies, descriptor_fields, log_ok, pend_found, raw_same,
    reach, redone, seal, state_at, stepped, steps_ok, steps_there, there_same,
};
use crate::ext4::model::{
    advance, chain_crc, commit_pending, commit_record, descriptor, dests_of, is_jbd_block,
    journal_at, log_block, pend_pos, rb_raw, read_block, redo, replay, ring_slot, txn_at, wb_raw,
    wrapped, write_block, Txn,
};
use crate::ext4::raw::{
    block_log, block_open, block_partly_written, block_written, carried_out, mixed, part,
};
use crate::fs::{same_but_disk, FsView, JbdView};

verus! {

/// The volume as the disk holds it when only the first `p` of the sector
/// writes that lead from `s` to `t` were carried out.
pub open spec fn cut(s: FsView, t: FsView, p: int) -> FsView {
    FsView {
        disk: DiskView {
            sec: carried_out(s.disk.sec, t.disk.log.skip(s.disk.log.len() as int), p),
            ..s.disk
        },
        ..s
    }
}

/// What is left of the log before a step stays in it.
proof fn log_kept(s: FsView, w: Seq<(int, Seq<u8>)>, m: int, q: int, i: int)
    requires
        steps_ok(s, w),
        0 <= m <= q <= w.len(),
        0 <= i < s.disk.log.len() + 8 * m,
    ensures
        state_at(s, w, q).disk.log[i] == state_at(s, w, m).disk.log[i],
    decreases q - m,
{
    if m < q {
        log_kept(s, w, m, q - 1, i);
        let u = state_at(s, w, q - 1);
        stepped(s, w, q - 1);
        block_written(u, w[q - 1].0, w[q - 1].1);
        stepped(s, w, m);
    }
}

/// A cut falls within one of the block writes.
proof fn cut_within(s: FsView, w: Seq<(int, Seq<u8>)>, m: int, i: int)
    requires
        steps_ok(s, w),
        0 <= m < w.len(),
        0 <= i <= 8,
    ensures
        cut(s, state_at(s, w, w.len() as int), 8 * m + i).disk.sec == part(
            state_at(s, w, m),
            w[m].0,
            w[m].1,
            i,
        ).disk.sec,
    decreases m, i,
{
    let t = state_at(s, w, w.len() as int);
    let u = state_at(s, w, m);
    let l = t.disk.log.skip(s.disk.log.len() as int);
    stepped(s, w, w.len() as int);
    stepped(s, w, m);
    if i > 0 {
        cut_within(s, w, m, i - 1);
        let at = s.disk.log.len() + 8 * m + i - 1;
        log_kept(s, w, m + 1, w.len() as int, at);
        block_written(u, w[m].0, w[m].1);
        assert(state_at(s, w, m + 1) == wb_raw(u, w[m].0, w[m].1).0);
        assert(l[8 * m + i - 1] == t.disk.log[at]);
        assert(t.disk.log[at] == block_log(u, w[m].0, w[m].1)[i - 1]);
    } else if m > 0 {
        cut_within(s, w, m - 1, 8);
        let v = state_at(s, w, m - 1);
        stepped(s, w, m - 1);
        block_written(v, w[m - 1].0, w[m - 1].1);
    }
}

/// The block at a slot of the journal is not a record with this number.
pub open spec fn unused(s: FsView, base: u32, slot: int, seq: int) -> bool {
    rb_raw(s, base + slot) matches Some(b) ==> !(u32_at(b, 0) == 0xC03B_3998 && u32_at(b, 8) == seq)
}

/// The journal on the disk agrees with the journal in memory: its superblock
/// leads to the slot and the number of the running transaction, straight or
/// around the end of the ring, and no record with the numbers that come next
/// is left from an earlier use of the slots.
pub open spec fn journal_agrees(s: FsView, j: JbdView) -> bool {
    let n = j.pend.len() as int;
    let next = ring_slot(advance(j, n).start);
    &&& rb_raw(s, j.base as int) matches Some(sb) && journal_at(j.base, sb).seq == j.seq
        && journal_at(j.base, sb).start == ring_slot(j.start)
    &&& rb_raw(s, j.base + next) is Some
    &&& j.seq < u32::MAX
    &&& unused(s, j.base, j.start as int, j.seq as int)
    &&& unused(s, j.base, j.start + 1 + n, j.seq as int)
    &&& next != j.start ==> unused(s, j.base, next as int, j.seq + 1)
}

/// A slot without a record of the expected number ends the replay.
pub(crate) proof fn replay_ends(s: FsView, j: JbdView)
    requires
        1 <= j.start <= 1023,
        rb_raw(s, j.base + ring_slot(j.start)) is Some,
        unused(s, j.base, ring_slot(j.start) as int, j.seq as int),
    ensures
        replay(s, j) == (s, wrapped(j), Ok::<(), crate::fs::FsErr>(())),
{
    reveal(txn_at);
}

proof fn same_seal(s: FsView, t: FsView, from: int, k: int, n: int, acc: u32)
    requires
        0 <= k <= n,
        forall|i: int| 0 <= i < n ==> #[trigger] rb_raw(t, from + i) == rb_raw(s, from + i),
    ensures
        chain_crc(t, from, k, n, acc) == chain_crc(s, from, k, n, acc),
    decreases n - k,
{
    if k < n {
        assert(rb_raw(t, from + k) == rb_raw(s, from + k));
        match rb_raw(s, from + k) {
            None => {},
            Some(b) => {
                same_seal(s, t, from, k + 1, n, crc_of(acc, b));
            },
        }
    }
}

/// A field in the first sector of a block that was partly written.
proof fn mixed_field(new: Seq<u8>, rest: Seq<u8>, i: int, o: int)
    requires
        new.len() == 4096,
        0 <= o <= 508,
    ensures
        i >= 1 ==> u32_at(mixed(new, rest, i), o) == u32_at(new, o),
        i <= 0 && rest.len() == 4096 ==> mixed(new, rest, i) == rest,
{
    if i <= 0 && rest.len() == 4096 {
        assert(mixed(new, rest, i) =~= rest);
    }
}

/// What the blocks hold after `m` steps of a commit and `i` sectors of the
/// next one.
proof fn blocks_at(s: FsView, j: JbdView, m: int, i: int, c: FsView)
    requires
        log_ok(j),
        j.pend.len() > 0,
        reach(s, j),
        0 <= m < j.pend.len() + 3,
        0 <= i <= 8,
        c == (FsView { disk: c.disk, ..s }),
        c.disk.fixed == s.disk.fixed,
        c.disk.sec == part(
            state_at(s, commit_steps(s, j), m),
            commit_steps(s, j)[m].0,
            commit_steps(s, j)[m].1,
            i,
        ).disk.sec,
    ensures
        ({
            let w = commit_steps(s, j);
            &&& steps_ok(s, w)
            &&& same_but_disk(s, c)
            &&& forall|k: int| 0 <= k < m ==> rb_raw(c, (#[trigger] w[k]).0) == Some(w[k].1)
            &&& rb_raw(c, w[m].0) == Some(mixed(w[m].1, rb_raw(s, w[m].0)->0, i))
            &&& forall|b: int|
                (forall|k: int| 0 <= k <= m ==> (#[trigger] w[k]).0 != b)
                    ==> #[trigger] rb_raw(c, b) == rb_raw(s, b)
        }),
{
    let w = commit_steps(s, j);
    steps_there(s, j);
    stepped(s, w, m);
    let u = state_at(s, w, m);
    assert(forall|k: int| 0 <= k < m ==> (#[trigger] w[k]).0 != w[m].0);
    assert(rb_raw(u, w[m].0) == rb_raw(s, w[m].0));
    assert(rb_raw(s, w[m].0) is Some);
    block_partly_written(u, w[m].0, w[m].1, i);
    raw_same(part(u, w[m].0, w[m].1, i), c);
    assert forall|k: int| 0 <= k < m implies rb_raw(c, (#[trigger] w[k]).0) == Some(w[k].1) by {
        assert(w[k].0 != w[m].0);
    }
    assert forall|b: int|
        (forall|k: int| 0 <= k <= m ==> (#[trigger] w[k]).0 != b) implies #[trigger] rb_raw(c, b)
        == rb_raw(s, b) by {
        assert(w[m].0 != b);
        assert(rb_raw(u, b) == rb_raw(s, b));
    }
}

/// The volume that a restart makes of what the disk holds.
pub open spec fn recovered(c: FsView, base: u32) -> (FsView, Result<(), crate::fs::FsErr>) {
    let (r, j, e) = replay(c, journal_at(base, rb_raw(c, base as int)->0));
    (r, e)
}

/// The slot behind the transaction is none of its slots, but for the first:
/// a transaction that fills the ring is followed by one at the same slot.
proof fn next_slot(j: JbdView)
    requires
        log_ok(j),
        j.pend.len() > 0,
    ensures
        ({
            let n = j.pend.len() as int;
            let a = ring_slot(advance(j, n).start);
            &&& 1 <= a <= 1023
            &&& a == j.start || !(j.start <= a <= j.start + 1 + n)
            &&& ring_slot(j.start) == j.start
            &&& ring_slot(a) == a
        }),
{
}

/// A cut before the first sector of the commit block: nothing is replayed.
proof fn cut_before_seal(s: FsView, j: JbdView, m: int, i: int, c: FsView)
    requires
        log_ok(j),
        j.pend.len() > 0,
        reach(s, j),
        journal_agrees(s, j),
        0 <= i <= 8,
        m == 0 || (m == 1 && i == 0),
        c == (FsView { disk: c.disk, ..s }),
        c.disk.fixed == s.disk.fixed,
        c.disk.sec == part(
            state_at(s, commit_steps(s, j), m),
            commit_steps(s, j)[m].0,
            commit_steps(s, j)[m].1,
            i,
        ).disk.sec,
    ensures
        recovered(c, j.base) == (c, Ok::<(), crate::fs::FsErr>(())),
        forall|b: int| !is_jbd_block(j.base, b) ==> #[trigger] rb_raw(c, b) == rb_raw(s, b),
{
    let n = j.pend.len() as int;
    let w = commit_steps(s, j);
    blocks_at(s, j, m, i, c);
    let base = j.base as int;
    let dests = dests_of(j.pend);
    let d = descriptor(j.seq, dests);
    assert(w[0] == (base + j.start, d));
    assert(w[1].0 == copies(j) + n);
    assert(forall|k: int| 0 <= k <= m ==> (#[trigger] w[k]).0 != base);
    assert(rb_raw(c, base) == rb_raw(s, base));
    assert forall|b: int| !is_jbd_block(j.base, b) implies #[trigger] rb_raw(c, b) == rb_raw(s, b) by {
        assert(forall|k: int| 0 <= k <= m ==> (#[trigger] w[k]).0 != b);
    }
    let j0 = journal_at(j.base, rb_raw(c, base)->0);
    next_slot(j);
    assert(j0.start == j.start && j0.seq == j.seq);
    assert(wrapped(j0) == j0);
    descriptor_fields(j.seq, dests);
    let old_d = rb_raw(s, base + j.start)->0;
    let old_c = rb_raw(s, copies(j) + n)->0;
    assert(rb_raw(s, copies(j) + n) is Some);
    assert(rb_raw(c, copies(j) + n) == Some(old_c)) by {
        if m == 0 {
            assert(forall|k: int| 0 <= k <= m ==> (#[trigger] w[k]).0 != copies(j) + n);
        } else {
            commit_fields(j.seq, seal(s, j)->0, n as u32);
            mixed_field(w[1].1, old_c, 0, 0);
        }
    }
    let nd = rb_raw(c, base + j.start)->0;
    assert(rb_raw(c, base + j.start) is Some);
    if m == 0 {
        mixed_field(d, old_d, i, 0);
        mixed_field(d, old_d, i, 4);
        mixed_field(d, old_d, i, 8);
        mixed_field(d, old_d, i, 12);
    }
    assert(base + j.start + 1 + n == copies(j) + n);
    if m == 0 && i == 0 {
        replay_ends(c, j0);
    } else {
        assert(u32_at(nd, 0) == 0xC03B_3998 && u32_at(nd, 4) == 2 && u32_at(nd, 8) == j.seq
            && u32_at(nd, 12) == n);
        reveal(txn_at);
        assert(unused(s, j.base, j.start + 1 + n, j.seq as int));
        assert(txn_at(c, j0.base, j0.start, j0.seq) is End);
    }
}

/// A cut behind the first sector of the commit block and before the first
/// sector of the journal superblock: the whole transaction is replayed.
proof fn cut_behind_seal(s: FsView, j: JbdView, m: int, i: int, c: FsView)
    requires
        s.jbd == Some(j),
        log_ok(j),
        j.pend.len() > 0,
        reach(s, j),
        journal_agrees(s, j),
        0 <= i <= 8,
        m == 1 ==> i >= 1,
        m == j.pend.len() + 2 ==> i == 0,
        1 <= m <= j.pend.len() + 2,
        c == (FsView { disk: c.disk, ..s }),
        c.disk.fixed == s.disk.fixed,
        c.disk.sec == part(
            state_at(s, commit_steps(s, j), m),
            commit_steps(s, j)[m].0,
            commit_steps(s, j)[m].1,
            i,
        ).disk.sec,
    ensures
        recovered(c, j.base).1 is Ok,
        forall|b: int|
            !is_jbd_block(j.base, b) ==> #[trigger] rb_raw(recovered(c, j.base).0, b) == read_block(
                s,
                b,
            ),
{
    let n = j.pend.len() as int;
    let w = commit_steps(s, j);
    blocks_at(s, j, m, i, c);
    steps_there(s, j);
    let base = j.base as int;
    let dests = dests_of(j.pend);
    let d = descriptor(j.seq, dests);
    let from = copies(j);
    let chk = seal(s, j)->0;
    let cb = commit_record(j.seq, chk, n as u32);
    assert(w[0] == (base + j.start, d));
    assert(w[1] == (from + n, cb));
    assert(w[n + 2].0 == base);
    // the journal superblock is still the old one
    assert(rb_raw(c, base) == rb_raw(s, base)) by {
        if m == n + 2 {
            mixed_field(w[m].1, rb_raw(s, base)->0, 0, 0);
            assert(w[m].1.len() == 4096);
        } else {
            assert forall|k: int| 0 <= k <= m implies (#[trigger] w[k]).0 != base by {
                assert(w[k].0 != w[n + 2].0);
            }
        }
    }
    let j0 = journal_at(j.base, rb_raw(c, base)->0);
    next_slot(j);
    assert(j0.start == j.start && j0.seq == j.seq && j0.base == j.base);
    // the copies are untouched
    assert forall|k: int| 0 <= k < n implies #[trigger] rb_raw(c, from + k) == rb_raw(s, from + k) by {
        assert forall|q: int| 0 <= q <= m implies (#[trigger] w[q]).0 != from + k by {
            if 2 <= q < n + 2 {
                assert(!is_jbd_block(j.base, j.pend[q - 2].blk as int));
            }
        }
    }
    descriptor_fields(j.seq, dests);
    commit_fields(j.seq, chk, n as u32);
    assert(rb_raw(c, w[0].0) == Some(d));
    same_seal(s, c, from, 0, n, crc_of(0xFFFF_FFFF, d));
    let got = rb_raw(c, from + n);
    assert(got is Some && u32_at(got->0, 0) == 0xC03B_3998 && u32_at(got->0, 4) == 3 && u32_at(
        got->0,
        8,
    ) == j.seq && u32_at(got->0, 12) == chk) by {
        if m == 1 {
            let old_c = rb_raw(s, from + n)->0;
            mixed_field(cb, old_c, i, 0);
            mixed_field(cb, old_c, i, 4);
            mixed_field(cb, old_c, i, 8);
            mixed_field(cb, old_c, i, 12);
        } else {
            assert(rb_raw(c, w[1].0) == Some(w[1].1));
        }
    }
    assert(txn_at(c, j0.base, j0.start, j0.seq) == Txn::Redo(dests)) by {
        reveal(txn_at);
        assert(base + j.start + 1 + n == from + n);
    }
    // the redo
    there_same(s, c);
    assert forall|k: int| 0 <= k < dests.len() implies (#[trigger] rb_raw(c, from + k)) is Some by {
        assert(rb_raw(s, from + k) is Some);
    }
    assert forall|k: int| 0 <= k < dests.len() implies rb_raw(c, (#[trigger] dests[k]) as int) is Some
        && block_open(c, dests[k] as int) by {
        assert(rb_raw(s, j.pend[k].blk as int) is Some);
    }
    assert forall|k: int| 0 <= k < dests.len() implies !(from <= (#[trigger] dests[k]) < from
        + dests.len()) by {
        assert(!is_jbd_block(j.base, j.pend[k].blk as int));
    }
    assert forall|a: int, b: int| 0 <= a < b < dests.len() implies #[trigger] dests[a]
        != #[trigger] dests[b] by {
        assert(j.pend[a].blk != j.pend[b].blk);
    }
    redone(c, from, dests, 0);
    let r = redo(c, from, dests, 0).0;
    let j1 = advance(j0, n);
    assert(j1.start == advance(j, n).start && j1.seq == advance(j, n).seq);
    next_slot(j);
    let next = ring_slot(j1.start);
    let slot = base + next;
    assert(rb_raw(r, slot) == rb_raw(c, slot)) by {
        assert forall|k: int| 0 <= k < dests.len() implies #[trigger] dests[k] != slot by {
            assert(!is_jbd_block(j.base, j.pend[k].blk as int));
        }
    }
    if next != j.start {
        assert forall|q: int| 0 <= q <= m implies (#[trigger] w[q]).0 != slot by {
            if 2 <= q < n + 2 {
                assert(!is_jbd_block(j.base, j.pend[q - 2].blk as int));
            }
        }
        assert(rb_raw(c, slot) == rb_raw(s, slot));
    } else {
        assert(rb_raw(c, slot) == Some(d));
    }
    assert(unused(r, j1.base, next as int, j1.seq as int));
    replay_ends(r, j1);
    assert(wrapped(j0) == j0);
    assert(replay(c, j0) == replay(r, j1));
    assert(recovered(c, j.base) == (r, Ok::<(), crate::fs::FsErr>(())));
    reveal(read_block);
    assert forall|b: int| !is_jbd_block(j.base, b) implies #[trigger] rb_raw(r, b) == read_block(
        s,
        b,
    ) by {
        pend_found(j.pend, b);
        match pend_pos(j.pend, b) {
            Some(p) => {
                let k = choose|k: int|
                    0 <= k < j.pend.len() && (#[trigger] j.pend[k]).blk == b && j.pend[k].pos == p;
                assert(dests[k] == b);
                assert(rb_raw(r, dests[k] as int) == rb_raw(c, from + k));
                assert(rb_raw(c, from + k) == rb_raw(s, from + k));
                assert(j.base + p == from + k);
            },
            None => {
                assert forall|k: int| 0 <= k < dests.len() implies #[trigger] dests[k] != b by {
                    assert(j.pend[k].blk != b);
                }
                assert forall|q: int| 0 <= q <= m implies (#[trigger] w[q]).0 != b by {
                    if 2 <= q < n + 2 {
                        assert(j.pend[q - 2].blk != b);
                    }
                }
                assert(rb_raw(r, b) == rb_raw(c, b));
            },
        }
    }
}

/// A cut within the journal superblock, or none: every block is in its place.
proof fn cut_at_the_end(s: FsView, j: JbdView, i: int, c: FsView)
    requires
        s.jbd == Some(j),
        log_ok(j),
        j.pend.len() > 0,
        reach(s, j),
        journal_agrees(s, j),
        1 <= i <= 8,
        c == (FsView { disk: c.disk, ..s }),
        c.disk.fixed == s.disk.fixed,
        c.disk.sec == part(
            state_at(s, commit_steps(s, j), j.pend.len() as int + 2),
            commit_steps(s, j)[j.pend.len() as int + 2].0,
            commit_steps(s, j)[j.pend.len() as int + 2].1,
            i,
        ).disk.sec,
    ensures
        recovered(c, j.base) == (c, Ok::<(), crate::fs::FsErr>(())),
        forall|b: int| !is_jbd_block(j.base, b) ==> #[trigger] rb_raw(c, b) == read_block(s, b),
{
    let n = j.pend.len() as int;
    let m = n + 2;
    let w = commit_steps(s, j);
    blocks_at(s, j, m, i, c);
    let base = j.base as int;
    let from = copies(j);
    let j1 = advance(j, n);
    let sb = rb_raw(s, base)->0;
    let sb1 = put32(sb, 8, j1.seq);
    assert(w[m] == (base, put32(sb1, 12, j1.start)));
    put32_then_read(sb, 8, j1.seq);
    put32_then_read(sb1, 12, j1.start);
    splice_keeps_fields(sb1, 12, le32(j1.start), 8);
    mixed_field(w[m].1, sb, i, 8);
    mixed_field(w[m].1, sb, i, 12);
    next_slot(j);
    let jr = journal_at(j.base, rb_raw(c, base)->0);
    let next = ring_slot(j1.start);
    assert(jr.start == next && jr.seq == j1.seq && jr.base == j.base);
    let slot = base + next;
    if next != j.start {
        assert forall|q: int| 0 <= q <= m implies (#[trigger] w[q]).0 != slot by {
            if 2 <= q < n + 2 {
                assert(!is_jbd_block(j.base, j.pend[q - 2].blk as int));
            }
        }
        assert(rb_raw(c, slot) == rb_raw(s, slot));
    } else {
        let d = descriptor(j.seq, dests_of(j.pend));
        assert(w[0] == (slot, d));
        assert(rb_raw(c, w[0].0) == Some(w[0].1));
        descriptor_fields(j.seq, dests_of(j.pend));
    }
    assert(unused(c, jr.base, next as int, jr.seq as int));
    replay_ends(c, jr);
    reveal(read_block);
    assert forall|b: int| !is_jbd_block(j.base, b) implies #[trigger] rb_raw(c, b) == read_block(
        s,
        b,
    ) by {
        pend_found(j.pend, b);
        match pend_pos(j.pend, b) {
            Some(p) => {
                let k = choose|k: int|
                    0 <= k < j.pend.len() && (#[trigger] j.pend[k]).blk == b && j.pend[k].pos == p;
                assert(w[k + 2].0 == b);
                assert(rb_raw(c, w[k + 2].0) == Some(w[k + 2].1));
                assert(rb_raw(s, from + k) is Some);
                assert(j.base + p == from + k);
            },
            None => {
                assert forall|q: int| 0 <= q <= m implies (#[trigger] w[q]).0 != b by {
                    if 2 <= q < n + 2 {
                        assert(j.pend[q - 2].blk != b);
                    }
                }
            },
        }
    }
}

/// A commit is atomic. Wherever the disk stops among the sector writes of the
/// commit, a restart succeeds, and after it the blocks outside the journal
/// are all as they were before the transaction, if the first sector of the
/// commit block was not written yet, and otherwise all as the transaction
/// left them.
pub proof fn commit_is_atomic(s: FsView, j: JbdView, p: int)
    requires
        s.jbd == Some(j),
        log_ok(j),
        j.pend.len() > 0,
        journal_agrees(s, j),
        commit_pending(s, j).1 is Ok,
        0 <= p <= commit_pending(s, j).0.disk.log.len() - s.disk.log.len(),
    ensures
        ({
            let (r, e) = recovered(cut(s, commit_pending(s, j).0, p), j.base);
            &&& e is Ok
            &&& p <= 8 ==> forall|b: int|
                !is_jbd_block(j.base, b) ==> #[trigger] rb_raw(r, b) == rb_raw(s, b)
            &&& p > 8 ==> forall|b: int|
                !is_jbd_block(j.base, b) ==> #[trigger] rb_raw(r, b) == read_block(s, b)
        }),
{
    committed(s, j);
    let n = j.pend.len() as int;
    let w = commit_steps(s, j);
    steps_there(s, j);
    stepped(s, w, n + 3);
    let t = commit_pending(s, j).0;
    let c = cut(s, t, p);
    assert(c == cut(s, state_at(s, w, w.len() as int), p));
    let m = if p == 8 * (n + 3) {
        n + 2
    } else {
        p / 8
    };
    let i = p - 8 * m;
    cut_within(s, w, m, i);
    if m == 0 || (m == 1 && i == 0) {
        cut_before_seal(s, j, m, i, c);
    } else if m == n + 2 && i >= 1 {
        cut_at_the_end(s, j, i, c);
    } else {
        cut_behind_seal(s, j, m, i, c);
    }
}

/// While a transaction is only logged, the blocks outside the journal stay as
/// they are on the disk: a write that does not force a commit changes none of
/// them.
pub proof fn logging_leaves_the_disk(s: FsView, j: JbdView, blk: int, data: Seq<u8>)
    requires
        s.jbd == Some(j),
        log_ok(j),
        !is_jbd_block(j.base, blk),
        data.len() == 4096,
        write_block(s, blk, data).1,
        pend_pos(j.pend, blk) is Some || j.pend.len() == 0 || (j.pend.len() < 1020 && j.start
            + j.pend.len() + 2 <= 1023),
    ensures
        forall|b: int|
            !is_jbd_block(j.base, b) ==> #[trigger] rb_raw(write_block(s, blk, data).0, b) == rb_raw(
                s,
                b,
            ),
{
    reveal(write_block);
    pend_found(j.pend, blk);
    match pend_pos(j.pend, blk) {
        Some(q) => {
            block_written(s, j.base + q, data);
        },
        None => {
            reveal(log_block);
            let j2 = if j.pend.len() == 0 {
                wrapped(j)
            } else {
                j
            };
            let s2 = FsView { jbd: Some(j2), ..s };
            raw_same(s, s2);
            let pos = j2.start + 1 + j2.pend.len();
            block_written(s2, j2.base + pos, data);
            let s3 = wb_raw(s2, j2.base + pos, data).0;
            raw_same(s3, write_block(s, blk, data).0);
        },
    }
}

/// After a commit the journal superblock names the slot and the number of the
/// transaction that comes next, and leads to where it will be logged.
pub proof fn superblock_follows(s: FsView, j: JbdView)
    requires
        s.jbd == Some(j),
        log_ok(j),
        j.pend.len() > 0,
        commit_pending(s, j).1 is Ok,
    ensures
        ({
            let t = commit_pending(s, j).0;
            let j1 = t.jbd->0;
            rb_raw(t, j1.base as int) matches Some(sb) && u32_at(sb, 8) == j1.seq && u32_at(sb, 12)
                == j1.start && journal_at(j1.base, sb) == wrapped(j1)
        }),
{
    committed(s, j);
    let n = j.pend.len() as int;
    let w = commit_steps(s, j);
    steps_there(s, j);
    stepped(s, w, n + 3);
    raw_same(state_at(s, w, n + 3), commit_pending(s, j).0);
    let j1 = advance(j, n);
    let sb = rb_raw(s, j.base as int)->0;
    assert(rb_raw(state_at(s, w, n + 3), w[n + 2].0) == Some(w[n + 2].1));
    put32_then_read(sb, 8, j1.seq);
    put32_then_read(put32(sb, 8, j1.seq), 12, j1.start);
    splice_keeps_fields(put32(sb, 8, j1.seq), 12, le32(j1.start), 8);
}

} // verus!
