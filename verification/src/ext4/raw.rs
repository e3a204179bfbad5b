//! What a block write does to the blocks of the disk.

use vstd::prelude::*;
use crate::ext4::model::{block_sector, block_there, rb_raw, wb_from, wb_raw};
use crate::disk::DiskView;
use crate::fs::{same_but_disk, FsView};

verus! {

/// The sector writes that make up a block write, in order.
pub open spec fn block_log(s: FsView, blk: int, data: Seq<u8>) -> Seq<(int, Seq<u8>)> {
    Seq::new(
        8,
        |i: int| (s.base + 8 * blk + i, data.subrange(512 * i, 512 * i + 512)),
    )
}

/// The sectors after the first `p` of these writes.
pub open spec fn carried_out(
    sec: Map<int, Seq<u8>>,
    writes: Seq<(int, Seq<u8>)>,
    p: int,
) -> Map<int, Seq<u8>>
    decreases p,
{
    if p <= 0 {
        sec
    } else {
        carried_out(sec, writes, p - 1).insert(writes[p - 1].0, writes[p - 1].1)
    }
}

/// Every sector of the block is there and can be written.
#[verifier::opaque]
pub open spec fn block_open(s: FsView, blk: int) -> bool {
    &&& block_there(s, blk)
    &&& forall|i: int|
        0 <= i < 8 ==> !#[trigger] s.disk.fixed.contains(s.base + 8 * blk + i)
}

/// A block write of which only the first `i` sectors were carried out.
pub open spec fn part(s: FsView, blk: int, data: Seq<u8>, i: int) -> FsView {
    FsView {
        disk: DiskView {
            sec: carried_out(s.disk.sec, block_log(s, blk, data), i),
            ..s.disk
        },
        ..s
    }
}

proof fn part_sectors(s: FsView, blk: int, data: Seq<u8>, i: int)
    requires
        0 <= i <= 8,
        block_there(s, blk),
    ensures
        same_but_disk(s, part(s, blk, data, i)),
        forall|l: int|
            #![trigger part(s, blk, data, i).disk.sec[l]]
            part(s, blk, data, i).disk.sec[l] == if s.base + 8 * blk <= l < s.base + 8 * blk + i {
                data.subrange(
                    512 * (l - s.base - 8 * blk),
                    512 * (l - s.base - 8 * blk) + 512,
                )
            } else {
                s.disk.sec[l]
            },
    decreases i,
{
    if i > 0 {
        part_sectors(s, blk, data, i - 1);
        assert(block_sector(s, blk, i - 1) is Some);
        assert(part(s, blk, data, i).disk.sec.dom() =~= s.disk.sec.dom());
    }
}

/// The first `i` sectors of one block, the rest of another.
pub open spec fn mixed(new: Seq<u8>, rest: Seq<u8>, i: int) -> Seq<u8> {
    Seq::new(
        4096,
        |k: int|
            if k < 512 * i {
                new[k]
            } else {
                rest[k]
            },
    )
}

/// A block write that was cut short leaves a mixture in its block, and every
/// other block as it was.
pub proof fn block_partly_written(s: FsView, blk: int, data: Seq<u8>, i: int)
    requires
        0 <= i <= 8,
        data.len() == 4096,
        rb_raw(s, blk) is Some,
    ensures
        same_but_disk(s, part(s, blk, data, i)),
        rb_raw(part(s, blk, data, i), blk) == Some(mixed(data, rb_raw(s, blk)->0, i)),
        forall|b: int| b != blk ==> #[trigger] rb_raw(part(s, blk, data, i), b) == rb_raw(s, b),
{
    part_sectors(s, blk, data, i);
    let t = part(s, blk, data, i);
    assert forall|b: int, k: int|
        (#[trigger] block_sector(t, b, k)) is Some <==> block_sector(s, b, k) is Some by {}
    assert forall|b: int, k: int|
        (#[trigger] block_sector(s, b, k)) is Some <==> block_sector(t, b, k) is Some by {}
    assert forall|b: int| b != blk implies #[trigger] rb_raw(t, b) == rb_raw(s, b) by {
        assert(block_there(t, b) == block_there(s, b));
        if block_there(s, b) {
            assert forall|k: int| 0 <= k < 4096 implies rb_raw(t, b)->0[k] == rb_raw(s, b)->0[k] by {
                assert(block_sector(s, b, k / 512) is Some);
                assert(block_sector(t, b, k / 512) is Some);
            }
            assert(rb_raw(t, b)->0 =~= rb_raw(s, b)->0);
        }
    }
    let m = mixed(data, rb_raw(s, blk)->0, i);
    assert forall|k: int| 0 <= k < 4096 implies rb_raw(t, blk)->0[k] == m[k] by {
        let q = k / 512;
        assert(block_sector(s, blk, q) is Some);
        assert(block_sector(t, blk, q) is Some);
        if q < i {
            assert(data.subrange(512 * q, 512 * q + 512)[k % 512] == data[k]);
        }
    }
    assert(rb_raw(t, blk)->0 =~= m);
}

proof fn written_from(s: FsView, blk: int, data: Seq<u8>, i: int)
    requires
        0 <= i <= 8,
        data.len() == 4096,
        block_open(s, blk),
    ensures
        ({
            let (t, ok) = wb_from(s, blk, data, i);
            &&& ok
            &&& same_but_disk(s, t)
            &&& t.disk.log == s.disk.log + block_log(s, blk, data).skip(i)
            &&& forall|l: int|
                #![trigger t.disk.sec[l]]
                t.disk.sec[l] == if s.base + 8 * blk + i <= l < s.base + 8 * blk + 8 {
                    data.subrange(
                        512 * (l - s.base - 8 * blk),
                        512 * (l - s.base - 8 * blk) + 512,
                    )
                } else {
                    s.disk.sec[l]
                }
        }),
    decreases 8 - i,
{
    reveal(block_open);
    if i < 8 {
        assert(block_sector(s, blk, i) is Some);
        assert(!s.disk.fixed.contains(s.base + 8 * blk + i));
        let part = data.subrange(512 * i, 512 * i + 512);
        let s1 = s.raw_write(8 * blk + i, part)->0;
        assert(s1.disk.sec.dom() =~= s.disk.sec.dom());
        assert(block_there(s1, blk)) by {
            assert forall|k: int| 0 <= k < 8 implies (#[trigger] block_sector(s1, blk, k)) is Some by {
                assert(block_sector(s, blk, k) is Some);
            }
        }
        written_from(s1, blk, data, i + 1);
        let t = wb_from(s, blk, data, i).0;
        assert(t.disk.log =~= s.disk.log + block_log(s, blk, data).skip(i));
    } else {
        assert(block_log(s, blk, data).skip(i) =~= Seq::empty());
        assert(s.disk.log + Seq::empty() =~= s.disk.log);
    }
}

proof fn write_stops(s: FsView, blk: int, data: Seq<u8>, i: int, k: int)
    requires
        0 <= i <= k < 8,
        block_sector(s, blk, k) is None || s.disk.fixed.contains(s.base + 8 * blk + k),
    ensures
        !wb_from(s, blk, data, i).1,
    decreases 8 - i,
{
    match s.raw_write(8 * blk + i, data.subrange(512 * i, 512 * i + 512)) {
        None => {},
        Some(s1) => {
            assert(s1.disk.sec.dom() =~= s.disk.sec.dom());
            assert(i < k);
            write_stops(s1, blk, data, i + 1, k);
        },
    }
}

/// A block write succeeds exactly where all sectors of the block are there and
/// can be written; then the block holds the data, every other block is as it
/// was, and the sectors were written in order.
pub proof fn block_written(s: FsView, blk: int, data: Seq<u8>)
    requires
        data.len() == 4096,
    ensures
        wb_raw(s, blk, data).1 <==> block_open(s, blk),
        wb_raw(s, blk, data).1 ==> rb_raw(s, blk) is Some,
        wb_raw(s, blk, data).1 ==> {
            let t = wb_raw(s, blk, data).0;
            &&& same_but_disk(s, t)
            &&& t.disk.log == s.disk.log + block_log(s, blk, data)
            &&& t.disk.sec == carried_out(s.disk.sec, block_log(s, blk, data), 8)
            &&& s.disk.wf() ==> t.disk.wf()
            &&& rb_raw(t, blk) == Some(data)
            &&& forall|b: int| b != blk ==> #[trigger] rb_raw(t, b) == rb_raw(s, b)
        },
{
    reveal(wb_raw);
    reveal(block_open);
    if block_open(s, blk) {
        written_from(s, blk, data, 0);
        let t = wb_raw(s, blk, data).0;
        assert(block_log(s, blk, data).skip(0) =~= block_log(s, blk, data));
        assert forall|b: int| #[trigger] block_there(t, b) == block_there(s, b) by {
            assert forall|k: int| (#[trigger] block_sector(t, b, k)) is Some <==> block_sector(
                s,
                b,
                k,
            ) is Some by {}
            if block_there(s, b) {
                assert forall|k: int| 0 <= k < 8 implies (#[trigger] block_sector(t, b, k)) is Some by {
                    assert(block_sector(s, b, k) is Some);
                }
            }
            if block_there(t, b) {
                assert forall|k: int| 0 <= k < 8 implies (#[trigger] block_sector(s, b, k)) is Some by {
                    assert(block_sector(t, b, k) is Some);
                }
            }
        }
        assert forall|b: int| b != blk implies #[trigger] rb_raw(t, b) == rb_raw(s, b) by {
            assert(block_there(t, b) == block_there(s, b));
            if block_there(s, b) {
                assert forall|k: int| 0 <= k < 4096 implies rb_raw(t, b)->0[k] == rb_raw(s, b)->0[k] by {
                    let i = k / 512;
                    assert(block_sector(s, b, i) is Some);
                    assert(block_sector(t, b, i) is Some);
                }
                assert(rb_raw(t, b)->0 =~= rb_raw(s, b)->0);
            }
        }
        assert(block_there(t, blk));
        assert forall|k: int| 0 <= k < 4096 implies rb_raw(t, blk)->0[k] == data[k] by {
            let i = k / 512;
            assert(block_sector(s, blk, i) is Some);
            assert(block_sector(t, blk, i) is Some);
            assert(data.subrange(512 * i, 512 * i + 512)[k % 512] == data[k]);
        }
        assert(rb_raw(t, blk)->0 =~= data);
        part_sectors(s, blk, data, 8);
        assert(t.disk.sec =~= part(s, blk, data, 8).disk.sec) by {
            assert forall|l: int| #[trigger] t.disk.sec.dom().contains(l) implies t.disk.sec[l]
                == part(s, blk, data, 8).disk.sec[l] by {}
        }
        if s.disk.wf() {
            assert forall|l: int| #[trigger] t.disk.sec.dom().contains(l) implies t.disk.sec[l].len()
                == 512 by {
                assert(s.disk.sec.dom().contains(l));
            }
        }
    } else if block_there(s, blk) {
        let k = choose|k: int| 0 <= k < 8 && #[trigger] s.disk.fixed.contains(s.base + 8 * blk + k);
        write_stops(s, blk, data, 0, k);
    } else {
        let k = choose|k: int| 0 <= k < 8 && (#[trigger] block_sector(s, blk, k)) is None;
        write_stops(s, blk, data, 0, k);
    }
}

} // verus!
