//! The journal between two commands: its superblock leads to where the next
//! transaction is logged, and no slot holds a record that could be taken for
//! one of that transaction.

use vstd::prelude::*;
use crate::bytes::u32_at;
use crate::ext4::crash::{journal_agrees, superblock_follows, unused};
use crate::ext4::laws::{
    commit_steps, committed, committed_reach, copies, commit_fields, descriptor_fields, log_ok,
    pend_found, raw_same, seal, state_at, stepped, steps_there,
};
use crate::ext4::layout::{fresh_info, meta_blocks, mkfs_at};
use crate::ext4::making::{fresh_is_armed, fresh_journal, volume_written};
use crate::ext4::model::{
    advance, commit_pending, dests_of, is_jbd_block, journal_at, log_block, pend_pos, rb_raw,
    replay, ring_slot, txn_at, wb_raw, wrapped, write_block,
};
use crate::ext4::raw::block_written;
use crate::fs::{FsView, JbdView};

verus! {

/// The block is no record with the number `seq` or a later one.
pub open spec fn no_coming_record(b: Seq<u8>, seq: u32) -> bool {
    !(u32_at(b, 0) == 0xC03B_3998 && u32_at(b, 8) >= seq)
}

/// The slot can be read, and holds no record of a coming transaction.
pub open spec fn slot_quiet(s: FsView, base: u32, slot: int, seq: u32) -> bool {
    rb_raw(s, base + slot) matches Some(b) && no_coming_record(b, seq)
}

/// All slots of the journal are quiet.
pub open spec fn slots_quiet(s: FsView, j: JbdView) -> bool {
    forall|slot: int| 1 <= slot <= 1023 ==> #[trigger] slot_quiet(s, j.base, slot, j.seq)
}

/// The superblock of the journal leads to the slot and the number of the
/// running transaction.
pub open spec fn superblock_leads(s: FsView, j: JbdView) -> bool {
    rb_raw(s, j.base as int) matches Some(sb) && journal_at(j.base, sb).seq == j.seq && journal_at(
        j.base,
        sb,
    ).start == ring_slot(j.start)
}

/// The journal on the disk is ready for the running transaction.
pub open spec fn journal_settled(s: FsView, j: JbdView) -> bool {
    log_ok(j) && slots_quiet(s, j) && superblock_leads(s, j)
}

/// A settled journal agrees with the one in memory, so that a commit is atomic.
pub proof fn settled_agrees(s: FsView, j: JbdView)
    requires
        journal_settled(s, j),
        j.pend.len() > 0,
        j.seq < u32::MAX,
    ensures
        journal_agrees(s, j),
{
    let n = j.pend.len() as int;
    let next = ring_slot(advance(j, n).start);
    assert(slot_quiet(s, j.base, next as int, j.seq));
    assert(slot_quiet(s, j.base, j.start as int, j.seq));
    assert(slot_quiet(s, j.base, j.start + 1 + n, j.seq));
    assert(unused(s, j.base, j.start as int, j.seq as int));
}

/// A commit leaves a settled journal: the records that it writes have the
/// number of the transaction that is over.
pub proof fn commit_settles(s: FsView, j: JbdView)
    requires
        s.jbd == Some(j),
        log_ok(j),
        j.pend.len() > 0,
        slots_quiet(s, j),
        j.seq < u32::MAX,
        commit_pending(s, j).1 is Ok,
    ensures
        ({
            let t = commit_pending(s, j).0;
            t.jbd is Some && t.jbd->0.pend.len() == 0 && journal_settled(t, t.jbd->0)
        }),
{
    superblock_follows(s, j);
    committed(s, j);
    committed_reach(s, j);
    let n = j.pend.len() as int;
    let w = commit_steps(s, j);
    steps_there(s, j);
    stepped(s, w, n + 3);
    let t = commit_pending(s, j).0;
    let u = state_at(s, w, n + 3);
    raw_same(u, t);
    let j1 = t.jbd->0;
    descriptor_fields(j.seq, dests_of(j.pend));
    commit_fields(j.seq, seal(s, j)->0, n as u32);
    assert forall|slot: int| 1 <= slot <= 1023 implies #[trigger] slot_quiet(t, j1.base, slot, j1.seq) by {
        assert(slot_quiet(s, j.base, slot, j.seq));
        if slot == j.start {
            assert(rb_raw(u, w[0].0) == Some(w[0].1));
        } else if slot == j.start + 1 + n {
            assert(w[1].0 == copies(j) + n);
            assert(rb_raw(u, w[1].0) == Some(w[1].1));
        } else {
            assert forall|i: int| 0 <= i < n + 3 implies (#[trigger] w[i]).0 != j.base + slot by {
                if 2 <= i < n + 2 {
                    assert(!is_jbd_block(j.base, j.pend[i - 2].blk as int));
                }
            }
            assert(rb_raw(u, j.base + slot) == rb_raw(s, j.base + slot));
        }
    }
}

/// A block is logged to a slot of the journal.
proof fn slot_taken(s: FsView, j: JbdView, slot: int, data: Seq<u8>)
    requires
        slots_quiet(s, j),
        superblock_leads(s, j),
        1 <= slot <= 1023,
        data.len() == 4096,
        u32_at(data, 0) != 0xC03B_3998,
        wb_raw(s, j.base + slot, data).1,
    ensures
        slots_quiet(wb_raw(s, j.base + slot, data).0, j),
        superblock_leads(wb_raw(s, j.base + slot, data).0, j),
{
    block_written(s, j.base + slot, data);
    let t = wb_raw(s, j.base + slot, data).0;
    assert forall|k: int| 1 <= k <= 1023 implies #[trigger] slot_quiet(t, j.base, k, j.seq) by {
        assert(slot_quiet(s, j.base, k, j.seq));
        if k != slot {
            assert(rb_raw(t, j.base + k) == rb_raw(s, j.base + k));
        }
    }
    assert(rb_raw(t, j.base as int) == rb_raw(s, j.base as int));
}

/// A block write that does not look like a record leaves a settled journal,
/// also where it commits the transaction first.
pub proof fn writing_keeps_settled(s: FsView, j: JbdView, blk: int, data: Seq<u8>)
    requires
        s.jbd == Some(j),
        journal_settled(s, j),
        j.seq < u32::MAX,
        0 <= blk <= u32::MAX,
        !is_jbd_block(j.base, blk),
        data.len() == 4096,
        u32_at(data, 0) != 0xC03B_3998,
        write_block(s, blk, data).1,
    ensures
        ({
            let t = write_block(s, blk, data).0;
            t.jbd is Some && journal_settled(t, t.jbd->0)
        }),
{
    crate::ext4::laws::written_block_reads_back(s, blk, data);
    reveal(write_block);
    pend_found(j.pend, blk);
    let t = write_block(s, blk, data).0;
    match pend_pos(j.pend, blk) {
        Some(q) => {
            slot_taken(s, j, q as int, data);
            block_written(s, j.base + q, data);
            assert(t.jbd == s.jbd);
        },
        None => {
            reveal(log_block);
            let full = j.pend.len() > 0 && (j.pend.len() == 1020 || j.start + j.pend.len() + 2 > 1023);
            let s1 = if full {
                commit_pending(s, j).0
            } else {
                s
            };
            if full {
                commit_settles(s, j);
            }
            let j1 = s1.jbd->0;
            let j2 = if j1.pend.len() == 0 {
                wrapped(j1)
            } else {
                j1
            };
            let s2 = FsView { jbd: Some(j2), ..s1 };
            raw_same(s1, s2);
            assert forall|k: int| 1 <= k <= 1023 implies #[trigger] slot_quiet(s2, j2.base, k, j2.seq) by {
                assert(slot_quiet(s1, j1.base, k, j1.seq));
            }
            assert(superblock_leads(s2, j2));
            let pos = j2.start + 1 + j2.pend.len();
            slot_taken(s2, j2, pos, data);
            block_written(s2, j2.base + pos, data);
            let s3 = wb_raw(s2, j2.base + pos, data).0;
            raw_same(s3, t);
            let j3 = t.jbd->0;
            assert forall|k: int| 1 <= k <= 1023 implies #[trigger] slot_quiet(t, j3.base, k, j3.seq) by {
                assert(slot_quiet(s3, j2.base, k, j2.seq));
            }
            assert(superblock_leads(t, j3));
        },
    }
}

/// The journal of a fresh volume is settled, if its slots can be read and hold
/// no record of an earlier volume.
pub proof fn fresh_journal_is_settled(s: FsView, base: u32)
    requires
        mkfs_at(s, base).1 is Ok,
        ({
            let m = meta_blocks(fresh_info(s.dev->0)->Ok_0.groups as int);
            slots_quiet(volume_written(s, base), fresh_journal(m))
        }),
    ensures
        ({
            let t = mkfs_at(s, base).0;
            t.jbd is Some && t.jbd->0.pend.len() == 0 && journal_settled(t, t.jbd->0)
        }),
{
    let m = meta_blocks(fresh_info(s.dev->0)->Ok_0.groups as int);
    let u = volume_written(s, base);
    let j = fresh_journal(m);
    assert(slot_quiet(u, j.base, 1, j.seq));
    assert(!(txn_at(u, m as u32, 1, 1) is Redo)) by {
        reveal(txn_at);
    }
    fresh_is_armed(s, base);
    let t = mkfs_at(s, base).0;
    raw_same(u, t);
    assert forall|k: int| 1 <= k <= 1023 implies #[trigger] slot_quiet(t, j.base, k, j.seq) by {
        assert(slot_quiet(u, j.base, k, j.seq));
    }
}

/// A journal that a mount arms without replaying anything is settled, if its
/// slots can be read and hold no record of a coming transaction.
pub proof fn mounted_journal_is_settled(s: FsView, base: u32)
    requires
        rb_raw(s, base as int) is Some,
        ({
            let j = journal_at(base, rb_raw(s, base as int)->0);
            slots_quiet(s, j)
        }),
    ensures
        ({
            let j = journal_at(base, rb_raw(s, base as int)->0);
            let (t, j1, r) = replay(s, j);
            &&& r is Ok
            &&& t == s
            &&& journal_settled(t, j1)
        }),
{
    let j = journal_at(base, rb_raw(s, base as int)->0);
    assert(slot_quiet(s, j.base, j.start as int, j.seq));
    crate::ext4::crash::replay_ends(s, j);
}

} // verus!
