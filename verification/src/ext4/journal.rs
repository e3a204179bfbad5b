//! Block I/O and the journal, a write-ahead redo log.
//!
//! The journal area is 1024 blocks from the first extent of the journal inode
//! on. Slot 0 is the journal superblock, slots 1..1023 are a ring of
//! transactions. A transaction is a descriptor block, copies of the new block
//! contents, and a commit block whose checksum covers the descriptor and the
//! copies. Every block write of a transaction goes to the log; the write to
//! the final place happens at the commit, so that a transaction without its
//! commit block has no effect after a crash.

use vstd::prelude::*;
use crate::bytes;
use crate::bytes::{r32, w32, zeros};
use crate::crc::crc32c;
use crate::ext4::model;
use crate::fs::{raw_read, raw_write, Fs, FsErr, FsView, JbdPend, JbdState};

verus! {

pub const BLOCK: usize = 4096;

const JBD_MAGIC: u32 = 0xC03B_3998;

// ---------- block I/O ----------

/// Reads a block from the disk.
pub(crate) fn read_block_raw(fs: &Fs, blk: u64) -> (r: Option<Vec<u8>>)
    requires
        fs.wf(),
    ensures
        bytes::opt_view(r) == model::rb_raw(fs@, blk as int),
        r is Some ==> r->0@.len() == 4096,
{
    if blk >= 0x1000_0000 {
        assert(model::block_sector(fs@, blk as int, 0) is None);
        return None;
    }
    let mut b: Vec<u8> = Vec::with_capacity(BLOCK);
    let mut i: u64 = 0;
    while i < 8
        invariant
            fs.wf(),
            i <= 8,
            blk < 0x1000_0000,
            b@.len() == 512 * i,
            forall|k: int|
                0 <= k < i ==> (#[trigger] model::block_sector(fs@, blk as int, k)) is Some,
            forall|k: int|
                0 <= k < 512 * i ==> b@[k] == model::block_sector(fs@, blk as int, k / 512)->0[k
                    % 512],
        decreases 8 - i,
    {
        match raw_read(fs, 8 * blk + i) {
            None => {
                assert(model::block_sector(fs@, blk as int, i as int) is None);
                return None;
            },
            Some(mut sec) => {
                assert(model::block_sector(fs@, blk as int, i as int) is Some);
                let ghost before = b@;
                let ghost s = sec@;
                b.append(&mut sec);
                assert forall|k: int| 0 <= k < 512 * (i + 1) implies b@[k] == model::block_sector(
                    fs@,
                    blk as int,
                    k / 512,
                )->0[k % 512] by {
                    if k < 512 * i {
                        assert(b@[k] == before[k]);
                    } else {
                        assert(b@[k] == s[k - 512 * i]);
                    }
                }
            },
        }
        i += 1;
    }
    assert(b@ =~= model::rb_raw(fs@, blk as int)->0);
    Some(b)
}

/// Writes a block to the disk.
fn write_block_raw(fs: &mut Fs, blk: u64, data: &[u8]) -> (ok: bool)
    requires
        old(fs).wf(),
        data@.len() == 4096,
    ensures
        final(fs).wf(),
        (final(fs)@, ok) == model::wb_raw(old(fs)@, blk as int, data@),
{
    proof {
        reveal(model::wb_raw);
    }
    if blk >= 0x1000_0000 {
        return false;
    }
    let mut i: u64 = 0;
    while i < 8
        invariant
            fs.wf(),
            i <= 8,
            blk < 0x1000_0000,
            data@.len() == 4096,
            model::wb_from(fs@, blk as int, data@, i as int) == model::wb_raw(
                old(fs)@,
                blk as int,
                data@,
            ),
        decreases 8 - i,
    {
        let o: usize = 512 * (i as usize);
        if !raw_write(fs, 8 * blk + i, &data[o..o + 512]) {
            return false;
        }
        i += 1;
    }
    true
}

// ---------- the journal ----------

/// The slot that holds the newest copy of block `blk`, if it was logged.
fn pend_pos(pend: &Vec<JbdPend>, blk: u64) -> (r: Option<u32>)
    ensures
        r == model::pend_pos(pend@, blk as int),
{
    let mut k: usize = 0;
    assert(pend@.skip(0) =~= pend@);
    while k < pend.len()
        invariant
            k <= pend@.len(),
            model::pend_pos(pend@, blk as int) == model::pend_pos(pend@.skip(k as int), blk as int),
        decreases pend@.len() - k,
    {
        if pend[k].blk as u64 == blk {
            return Some(pend[k].pos);
        }
        assert(pend@.skip(k as int).skip(1) =~= pend@.skip(k + 1));
        k += 1;
    }
    None
}

/// Reads a block as the running transaction sees it.
pub(crate) fn read_block(fs: &Fs, blk: u64) -> (r: Option<Vec<u8>>)
    requires
        fs.wf(),
    ensures
        bytes::opt_view(r) == model::read_block(fs@, blk as int),
        r is Some ==> r->0@.len() == 4096,
{
    proof {
        reveal(model::read_block);
    }
    match &fs.jbd {
        Some(j) => match pend_pos(&j.pend, blk) {
            Some(p) => read_block_raw(fs, j.base as u64 + p as u64),
            None => read_block_raw(fs, blk),
        },
        None => read_block_raw(fs, blk),
    }
}

/// Writes a block into the running transaction.
pub(crate) fn write_block(fs: &mut Fs, blk: u32, data: &[u8]) -> (ok: bool)
    requires
        old(fs).wf(),
        data@.len() == 4096,
    ensures
        final(fs).wf(),
        (final(fs)@, ok) == model::write_block(old(fs)@, blk as int, data@),
{
    proof {
        reveal(model::write_block);
    }
    match &fs.jbd {
        None => write_block_raw(fs, blk as u64, data),
        Some(j) => {
            let base: u64 = j.base as u64;
            if base <= blk as u64 && (blk as u64) < base + 1024 {
                return write_block_raw(fs, blk as u64, data);
            }
            match pend_pos(&j.pend, blk as u64) {
                Some(p) => write_block_raw(fs, base + p as u64, data),
                None => log_block(fs, blk, data),
            }
        },
    }
}

/// Logs a block that is not pending yet.
fn log_block(fs: &mut Fs, blk: u32, data: &[u8]) -> (ok: bool)
    requires
        old(fs).wf(),
        old(fs)@.jbd is Some,
        data@.len() == 4096,
    ensures
        final(fs).wf(),
        (final(fs)@, ok) == model::log_block(old(fs)@, old(fs)@.jbd->0, blk as int, data@),
{
    proof {
        reveal(model::log_block);
    }
    let mut full: bool = false;
    if let Some(j) = &fs.jbd {
        let n: usize = j.pend.len();
        full = n > 0 && (n == 1020 || j.start as usize + n + 2 > 1023);
    }
    if full {
        match commit_pending(fs) {
            Err(_) => return false,
            Ok(()) => {},
        }
    }
    let ghost s1 = fs@;
    let mut base: u64 = 0;
    let mut pos: u32 = 0;
    match &mut fs.jbd {
        None => return false,
        Some(j) => {
            if j.pend.len() == 0 && j.start + 2 > 1023 {
                j.start = 1;
            }
            base = j.base as u64;
            pos = j.start + 1 + j.pend.len() as u32;
        },
    }
    let ghost s2 = fs@;
    assert(s2 =~= FsView { jbd: s2.jbd, ..s1 });
    if !write_block_raw(fs, base + pos as u64, data) {
        return false;
    }
    let ghost s3 = fs@;
    proof {
        reveal(model::wb_raw);
        wb_keeps_state(s2, base + pos, data@, 0);
    }
    if let Some(j) = &mut fs.jbd {
        j.pend.push(JbdPend { blk, pos });
    }
    assert(fs@ =~= FsView { jbd: fs@.jbd, ..s3 });
    true
}

/// A block write changes nothing but the disk.
pub proof fn wb_keeps_state(s: FsView, blk: int, data: Seq<u8>, i: int)
    requires
        0 <= i,
    ensures
        ({
            let (s1, ok) = model::wb_from(s, blk, data, i);
            &&& s1 == FsView { disk: s1.disk, ..s }
            &&& s1.disk.sec.dom() =~= s.disk.sec.dom()
            &&& s1.disk.fixed == s.disk.fixed
        }),
    decreases 8 - i,
{
    if i < 8 {
        match s.raw_write(8 * blk + i, data.subrange(512 * i, 512 * i + 512)) {
            None => {},
            Some(s1) => {
                wb_keeps_state(s1, blk, data, i + 1);
            },
        }
    }
}

/// Stores the sequence number and the start slot in the journal superblock.
fn jbd_write_super(fs: &mut Fs) -> (r: Result<(), FsErr>)
    requires
        old(fs).wf(),
        old(fs)@.jbd is Some,
    ensures
        final(fs).wf(),
        (final(fs)@, r) == model::write_super(old(fs)@, old(fs)@.jbd->0),
{
    let mut base: u64 = 0;
    let mut seq: u32 = 0;
    let mut start: u32 = 0;
    if let Some(j) = &fs.jbd {
        base = j.base as u64;
        seq = j.seq;
        start = j.start;
    }
    let mut sb = match read_block_raw(fs, base) {
        None => return Err(FsErr::Io),
        Some(b) => b,
    };
    w32(&mut sb, 8, seq);
    w32(&mut sb, 12, start);
    if !write_block_raw(fs, base, &sb) {
        return Err(FsErr::Io);
    }
    Ok(())
}

/// The checksum over the blocks `from .. from + n`, started from `init`.
pub(crate) fn chain_crc(fs: &Fs, from: u64, n: u64, init: u32) -> (r: Option<u32>)
    requires
        fs.wf(),
        from < 0x2_0000_0000,
        n <= 1020,
    ensures
        r == model::chain_crc(fs@, from as int, 0, n as int, init),
{
    let mut acc: u32 = init;
    let mut k: u64 = 0;
    while k < n
        invariant
            fs.wf(),
            k <= n <= 1020,
            from < 0x2_0000_0000,
            model::chain_crc(fs@, from as int, k as int, n as int, acc) == model::chain_crc(
                fs@,
                from as int,
                0,
                n as int,
                init,
            ),
        decreases n - k,
    {
        match read_block_raw(fs, from + k) {
            None => return None,
            Some(b) => {
                acc = crc32c(acc, &b);
            },
        }
        k += 1;
    }
    Some(acc)
}

/// Copies the logged blocks from `from` on to their destinations.
pub(crate) fn redo(fs: &mut Fs, from: u64, dests: &Vec<u32>) -> (ok: bool)
    requires
        old(fs).wf(),
        from < 0x2_0000_0000,
        dests@.len() <= 1020,
    ensures
        final(fs).wf(),
        (final(fs)@, ok) == model::redo(old(fs)@, from as int, dests@, 0),
        final(fs)@ == (FsView { disk: final(fs)@.disk, ..old(fs)@ }),
{
    let mut k: usize = 0;
    while k < dests.len()
        invariant
            fs.wf(),
            k <= dests@.len() <= 1020,
            from < 0x2_0000_0000,
            model::redo(fs@, from as int, dests@, k as int) == model::redo(
                old(fs)@,
                from as int,
                dests@,
                0,
            ),
            fs@ == (FsView { disk: fs@.disk, ..old(fs)@ }),
        decreases dests@.len() - k,
    {
        match read_block_raw(fs, from + k as u64) {
            None => return false,
            Some(b) => {
                let ghost before = fs@;
                proof {
                    reveal(model::wb_raw);
                    wb_keeps_state(before, dests@[k as int] as int, b@, 0);
                }
                if !write_block_raw(fs, dests[k] as u64, &b) {
                    return false;
                }
            },
        }
        k += 1;
    }
    true
}

/// The descriptor block of a transaction.
fn descriptor(seq: u32, dests: &Vec<u32>) -> (d: Vec<u8>)
    requires
        dests@.len() <= 1020,
    ensures
        d@ == model::descriptor(seq, dests@),
        d@.len() == 4096,
{
    let mut d = zeros(BLOCK);
    w32(&mut d, 0, JBD_MAGIC);
    w32(&mut d, 4, 2);
    w32(&mut d, 8, seq);
    w32(&mut d, 12, dests.len() as u32);
    let ghost head = d@;
    let mut k: usize = 0;
    while k < dests.len()
        invariant
            k <= dests@.len() <= 1020,
            d@.len() == 4096,
            d@ == model::desc_numbers(head, dests@, k as int),
        decreases dests@.len() - k,
    {
        w32(&mut d, 16 + 4 * k, dests[k]);
        k += 1;
    }
    d
}

/// Commits the pending blocks: descriptor, commit block (the seal), then the
/// blocks to their final places, then the journal superblock.
fn commit_pending(fs: &mut Fs) -> (r: Result<(), FsErr>)
    requires
        old(fs).wf(),
        old(fs)@.jbd is Some,
        old(fs)@.jbd->0.pend.len() > 0,
    ensures
        final(fs).wf(),
        (final(fs)@, r) == model::commit_pending(old(fs)@, old(fs)@.jbd->0),
        final(fs)@ == (FsView { disk: final(fs)@.disk, jbd: final(fs)@.jbd, ..old(fs)@ }),
        final(fs)@.jbd is Some,
        r is Ok ==> final(fs)@.jbd->0.pend.len() == 0,
{
    proof {
        reveal(model::commit_pending);
        reveal(model::wb_raw);
    }
    let mut base: u64 = 0;
    let mut start: u64 = 1;
    let mut seq: u32 = 0;
    let mut dests: Vec<u32> = Vec::new();
    let ghost j0 = fs@.jbd->0;
    if let Some(j) = &fs.jbd {
        base = j.base as u64;
        start = j.start as u64;
        seq = j.seq;
        let mut k: usize = 0;
        while k < j.pend.len()
            invariant
                k <= j.pend@.len(),
                dests@.len() == k,
                forall|i: int| 0 <= i < k ==> dests@[i] == j.pend@[i].blk,
            decreases j.pend@.len() - k,
        {
            dests.push(j.pend[k].blk);
            k += 1;
        }
    }
    assert(dests@ =~= model::dests_of(j0.pend));
    let n: u64 = dests.len() as u64;
    let d = descriptor(seq, &dests);
    let init = crc32c(0xFFFF_FFFF, &d);
    let chk = match chain_crc(fs, base + start + 1, n, init) {
        None => return Err(FsErr::Io),
        Some(c) => c,
    };
    let mut c = zeros(BLOCK);
    w32(&mut c, 0, JBD_MAGIC);
    w32(&mut c, 4, 3);
    w32(&mut c, 8, seq);
    w32(&mut c, 12, chk);
    w32(&mut c, 16, n as u32);
    proof {
        wb_keeps_state(fs@, base + start, d@, 0);
    }
    if !write_block_raw(fs, base + start, &d) {
        return Err(FsErr::Io);
    }
    proof {
        wb_keeps_state(fs@, base + start + 1 + n, c@, 0);
    }
    if !write_block_raw(fs, base + start + 1 + n, &c) {
        return Err(FsErr::Io);
    }
    if !redo(fs, base + start + 1, &dests) {
        return Err(FsErr::Io);
    }
    let ghost s3 = fs@;
    if let Some(j) = &mut fs.jbd {
        j.start = if start + 2 + n > 1023 {
            1
        } else {
            (start + 2 + n) as u32
        };
        j.seq = if seq == u32::MAX {
            0
        } else {
            seq + 1
        };
        j.pend.clear();
    }
    assert(fs@ =~= FsView { jbd: Some(model::advance(j0, n as int)), ..s3 });
    let ghost s4 = fs@;
    let r = jbd_write_super(fs);
    proof {
        let sb = model::rb_raw(s4, s4.jbd->0.base as int);
        if sb is Some {
            wb_keeps_state(
                s4,
                s4.jbd->0.base as int,
                bytes::put32(
                    bytes::put32(sb->0, 8, s4.jbd->0.seq),
                    12,
                    s4.jbd->0.start,
                ),
                0,
            );
        }
    }
    r
}

/// Commits the running transaction; called at the end of every command that
/// changes the file system.
pub(crate) fn commit(fs: &mut Fs) -> (r: Result<(), FsErr>)
    requires
        old(fs).wf(),
    ensures
        final(fs).wf(),
        (final(fs)@, r) == model::jbd_commit(old(fs)@),
{
    let mut pending: bool = false;
    if let Some(j) = &fs.jbd {
        pending = j.pend.len() > 0;
    }
    if pending {
        commit_pending(fs)
    } else {
        Ok(())
    }
}

/// Applies the committed transactions that the journal holds, in order.
pub(crate) fn replay(fs: &mut Fs, j: &mut JbdState) -> (r: Result<(), FsErr>)
    requires
        old(fs).wf(),
        old(j)@.wf(),
        old(j)@.pend.len() == 0,
    ensures
        final(fs).wf(),
        final(j)@.wf(),
        final(j)@.pend.len() == 0,
        (final(fs)@, final(j)@, r) == model::replay(old(fs)@, old(j)@),
{
    loop
        invariant
            fs.wf(),
            j@.wf(),
            j@.pend.len() == 0,
            model::replay(fs@, j@) == model::replay(old(fs)@, old(j)@),
        decreases u32::MAX - j.seq,
    {
        if j.start + 2 > 1023 {
            j.start = 1;
        }
        assert(model::wrapped(j@) =~= j@);
        let dests = match txn_at(fs, j.base, j.start, j.seq) {
            None => return Err(FsErr::Io),
            Some(None) => return Ok(()),
            Some(Some(d)) => d,
        };
        let n: u32 = dests.len() as u32;
        if !redo(fs, j.base as u64 + j.start as u64 + 1, &dests) {
            return Err(FsErr::Io);
        }
        if j.seq == u32::MAX {
            return Err(FsErr::Io);
        }
        let ghost before = j@;
        j.start = if j.start + 2 + n > 1023 {
            1
        } else {
            j.start + 2 + n
        };
        j.seq = j.seq + 1;
        assert(j@ =~= model::advance(before, n as int));
    }
}

/// The destinations of the committed transaction at a slot; none where there
/// is no such transaction, and no answer where the slots cannot be read.
fn txn_at(fs: &Fs, base: u32, start: u32, seq: u32) -> (r: Option<Option<Vec<u32>>>)
    requires
        fs.wf(),
        1 <= start <= 1023,
    ensures
        match (r, model::txn_at(fs@, base, start, seq)) {
            (None, model::Txn::Fault) => true,
            (Some(None), model::Txn::End) => true,
            (Some(Some(d)), model::Txn::Redo(m)) => d@ == m && m.len() <= 1020,
            _ => false,
        },
{
    proof {
        reveal(model::txn_at);
    }
    if start + 2 > 1024 {
        return Some(None);
    }
    let at: u64 = base as u64 + start as u64;
    let d = match read_block_raw(fs, at) {
        None => return None,
        Some(d) => d,
    };
    if r32(&d, 0) != JBD_MAGIC || r32(&d, 4) != 2 || r32(&d, 8) != seq {
        return Some(None);
    }
    let n: u32 = r32(&d, 12);
    if n > 1020 || start + 2 + n > 1024 {
        return Some(None);
    }
    let c = match read_block_raw(fs, at + 1 + n as u64) {
        None => return None,
        Some(c) => c,
    };
    if r32(&c, 0) != JBD_MAGIC || r32(&c, 4) != 3 || r32(&c, 8) != seq {
        return Some(None);
    }
    let init = crc32c(0xFFFF_FFFF, &d);
    let chk = match chain_crc(fs, at + 1, n as u64, init) {
        None => return None,
        Some(k) => k,
    };
    if r32(&c, 12) != chk {
        return Some(None);
    }
    let mut dests: Vec<u32> = Vec::new();
    let mut k: usize = 0;
    while k < n as usize
        invariant
            k <= n <= 1020,
            d@.len() == 4096,
            dests@.len() == k,
            forall|i: int| 0 <= i < k ==> dests@[i] == bytes::u32_at(d@, 16 + 4 * i),
        decreases n - k,
    {
        dests.push(r32(&d, 16 + 4 * k));
        k += 1;
    }
    assert(dests@ =~= model::desc_dests(d@, n as nat));
    Some(Some(dests))
}

} // verus!
