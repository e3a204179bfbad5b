//! The kernel heap: a first-fit free-list allocator.
//!
//! Every block, used or free, starts with a header of 16 bytes. The allocator
//! is a value: the list of the free blocks, and the blocks that are in use.

use vstd::prelude::*;
use crate::acpi::PMO;
use crate::mem::{MemoryRegion, RegionKind};
use crate::text;
use crate::text::{chars_of, push_dec, push_hex, push_str};

verus! {

pub const BLOCK_HEADER: u64 = 16;

/// The smallest rest that is split off as a block of its own.
pub const MIN_BLOCK: u64 = 32;

pub const HEAP_MB: u64 = 16;

pub const HEAP_BYTES: u64 = 16_777_216;

/// A block: the bytes from `addr` on, its header among them.
#[derive(Clone, Copy, PartialEq, Eq, Debug, Structural)]
pub struct FreeBlock {
    pub addr: u64,
    pub size: u64,
}

pub struct HeapAllocator {
    /// The free list, first block first.
    pub free: Vec<FreeBlock>,
    /// The blocks in use.
    pub live: Vec<FreeBlock>,
    pub base: u64,
    pub total: u64,
    pub used: u64,
    pub allocs: u64,
    pub frees: u64,
}

#[verifier::ext_equal]
pub struct HeapView {
    pub free: Seq<FreeBlock>,
    pub live: Seq<FreeBlock>,
    pub base: u64,
    pub total: u64,
    pub used: u64,
    pub allocs: u64,
    pub frees: u64,
}

/// The two blocks share no byte.
pub open spec fn apart(a: FreeBlock, b: FreeBlock) -> bool {
    a.addr + a.size <= b.addr || b.addr + b.size <= a.addr
}

/// The bytes in a list of blocks.
pub open spec fn bytes_in(s: Seq<FreeBlock>) -> int
    decreases s.len(),
{
    if s.len() == 0 {
        0
    } else {
        s[0].size + bytes_in(s.skip(1))
    }
}

/// The least multiple of `a` that is not below `v`.
pub open spec fn rounded(v: int, a: int) -> int {
    (v + a - 1) / a * a
}

fn align_up(v: u64, a: u64) -> (r: u64)
    requires
        a >= 1,
        v + a - 1 <= u64::MAX,
    ensures
        r == rounded(v as int, a as int),
        v <= r < v + a,
        a == 16 ==> r % 16 == 0,
{
    proof {
        let (x, y) = (v + a - 1, a as int);
        assert(x / y * y <= x && x < x / y * y + y) by (nonlinear_arith)
            requires
                y >= 1,
                x >= 0,
        ;
    }
    (v + (a - 1)) / a * a
}

/// An alignment that can be asked for: a divisor of 16, or a multiple of it.
/// Every power of two is one.
pub open spec fn is_alignment(align: u64) -> bool {
    align == 1 || align == 2 || align == 4 || align == 8 || (align >= 16 && align % 16 == 0)
}

/// Every power of two can be asked for as an alignment.
pub proof fn powers_are_alignments(align: u64)
    requires
        align >= 1,
        align & (align - 1) as u64 == 0,
    ensures
        is_alignment(align),
{
    assert(align == 1 || align == 2 || align == 4 || align == 8 || (align >= 16 && align % 16 == 0))
        by (bit_vector)
        requires
            align >= 1,
            align & (align - 1) as u64 == 0,
    ;
}

/// The distance from a block to the bytes that it hands out: the header,
/// rounded up to the alignment.
pub open spec fn offset_of(align: u64) -> int {
    if align <= BLOCK_HEADER {
        BLOCK_HEADER as int
    } else {
        align as int
    }
}

/// The bytes to skip from an address to the next multiple of `a`.
pub open spec fn padding(addr: int, a: int) -> int {
    if addr % a == 0 {
        0
    } else {
        a - addr % a
    }
}

proof fn padded(addr: int, a: int)
    requires
        addr >= 0,
        a >= 1,
    ensures
        0 <= padding(addr, a) < a,
        (addr + padding(addr, a)) % a == 0,
{
    vstd::arithmetic::div_mod::lemma_fundamental_div_mod(addr, a);
    vstd::arithmetic::div_mod::lemma_mod_bound(addr, a);
    if addr % a != 0 {
        let q = addr / a;
        assert(addr + padding(addr, a) == (q + 1) * a) by (nonlinear_arith)
            requires
                addr == a * q + addr % a,
                padding(addr, a) == a - addr % a,
        ;
        vstd::arithmetic::div_mod::lemma_mod_multiples_basic(q + 1, a);
    }
}

/// Where a block of the heap is cut, it is cut at multiples of 16, and the
/// bytes that are handed out start at a multiple of the alignment.
proof fn aligned(addr: int, align: u64)
    requires
        addr >= 0,
        addr % 16 == 0,
        is_alignment(align),
    ensures
        ({
            let off = offset_of(align);
            let pad = padding(addr, off);
            &&& 0 <= pad
            &&& pad % 16 == 0
            &&& (addr + pad + off) % (align as int) == 0
            &&& off % 16 == 0
        }),
{
    let off = offset_of(align);
    let pad = padding(addr, off);
    padded(addr, off);
    if align > 16 {
        let at = addr + pad;
        let a = align as int;
        vstd::arithmetic::div_mod::lemma_fundamental_div_mod(at, a);
        vstd::arithmetic::div_mod::lemma_fundamental_div_mod(a, 16);
        let (q, r) = (at / a, a / 16);
        assert(at == 16 * (r * q)) by (nonlinear_arith)
            requires
                at == a * q,
                a == 16 * r,
        ;
        assert(at + a == (q + 1) * a) by (nonlinear_arith)
            requires
                at == a * q,
        ;
        vstd::arithmetic::div_mod::lemma_mod_multiples_basic(q + 1, a);
    }
}

/// A free block has room for `need` bytes behind the next multiple of `off`.
pub open spec fn has_room(b: FreeBlock, off: int, need: int) -> bool {
    padding(b.addr as int, off) + need <= b.size
}

impl HeapView {
    /// A block lies in the heap, at a multiple of 16.
    pub open spec fn holds(self, b: FreeBlock) -> bool {
        &&& b.addr % 16 == 0
        &&& self.base <= b.addr
        &&& b.addr + b.size <= self.base + self.total
        &&& b.size >= BLOCK_HEADER
    }

    /// The blocks lie in the heap, and no two of them share a byte.
    pub open spec fn laid_out(self) -> bool {
        &&& forall|i: int| 0 <= i < self.free.len() ==> self.holds(#[trigger] self.free[i])
        &&& forall|i: int| 0 <= i < self.live.len() ==> self.holds(#[trigger] self.live[i])
        &&& forall|i: int, j: int|
            0 <= i < j < self.free.len() ==> apart(#[trigger] self.free[i], #[trigger] self.free[j])
        &&& forall|i: int, j: int|
            0 <= i < j < self.live.len() ==> apart(#[trigger] self.live[i], #[trigger] self.live[j])
        &&& forall|i: int, j: int|
            0 <= i < self.free.len() && 0 <= j < self.live.len() ==> apart(
                #[trigger] self.free[i],
                #[trigger] self.live[j],
            )
    }

    /// The blocks are laid out, and none of the heap is lost but the 16 bytes
    /// that the first block leaves out.
    pub open spec fn wf(self) -> bool {
        &&& self.base >= PMO
        &&& self.base + self.total + 0x1_0000 <= u64::MAX
        &&& self.laid_out()
        &&& self.free.len() + self.live.len() > 0 ==> bytes_in(self.free) + bytes_in(self.live)
            + BLOCK_HEADER == self.total
        &&& self.used <= bytes_in(self.live)
    }

    /// The first block of the free list that is large enough.
    pub open spec fn first_fit(self, off: int, need: int) -> int {
        fit_from(self.free, 0, off, need)
    }

    /// An allocation of `size` bytes: the heap after it, and the address of
    /// the bytes. The block starts where the bytes behind its header are
    /// aligned; what it leaves before it and behind it stays free.
    pub open spec fn granted(self, size: u64, align: u64) -> (HeapView, Option<u64>) {
        let off = offset_of(align);
        let need = off + size;
        let i = self.first_fit(off, need);
        if i >= self.free.len() {
            (self, None)
        } else {
            let b = self.free[i];
            let at = b.addr + padding(b.addr as int, off);
            let end = b.addr + b.size;
            let rest = rounded(at + need, 16);
            let split = rest < end && end - rest >= MIN_BLOCK;
            let f0 = self.free.remove(i);
            let f1 = if split {
                f0.insert(i, FreeBlock { addr: rest as u64, size: (end - rest) as u64 })
            } else {
                f0
            };
            let f2 = if at > b.addr {
                f1.insert(i, FreeBlock { addr: b.addr, size: (at - b.addr) as u64 })
            } else {
                f1
            };
            let taken = FreeBlock {
                addr: at as u64,
                size: (if split {
                    rest - at
                } else {
                    end - at
                }) as u64,
            };
            (
                HeapView {
                    free: f2,
                    live: self.live.push(taken),
                    used: (self.used + need) as u64,
                    allocs: self.allocs.wrapping_add(1),
                    ..self
                },
                Some((at + off) as u64),
            )
        }
    }

    /// The block in use that starts at the address.
    pub open spec fn live_at(self, addr: int) -> int {
        at_from(self.live, 0, addr)
    }

    /// The heap after the bytes at `ptr` are given back: their block goes to
    /// the front of the free list.
    pub open spec fn dealloc(self, ptr: u64, align: u64) -> HeapView {
        let k = self.live_at(ptr - offset_of(align));
        let b = self.live[k];
        HeapView {
            free: self.free.insert(0, b),
            live: self.live.remove(k),
            used: if self.used >= b.size {
                (self.used - b.size) as u64
            } else {
                0
            },
            frees: self.frees.wrapping_add(1),
            ..self
        }
    }

    /// The bytes at `ptr` were handed out for this alignment.
    pub open spec fn owns(self, ptr: u64, align: u64) -> bool {
        self.live_at(ptr - offset_of(align)) < self.live.len()
    }
}

pub open spec fn fit_from(free: Seq<FreeBlock>, i: int, off: int, need: int) -> int
    decreases free.len() - i,
{
    if i < 0 || i >= free.len() || has_room(free[i], off, need) {
        i
    } else {
        fit_from(free, i + 1, off, need)
    }
}

pub open spec fn at_from(live: Seq<FreeBlock>, i: int, addr: int) -> int
    decreases live.len() - i,
{
    if i < 0 || i >= live.len() || live[i].addr == addr {
        i
    } else {
        at_from(live, i + 1, addr)
    }
}

proof fn bytes_in_removed(s: Seq<FreeBlock>, i: int)
    requires
        0 <= i < s.len(),
    ensures
        bytes_in(s) == bytes_in(s.remove(i)) + s[i].size,
    decreases s.len(),
{
    if i == 0 {
        assert(s.remove(0) =~= s.skip(1));
    } else {
        assert(s.remove(i).skip(1) =~= s.skip(1).remove(i - 1));
        bytes_in_removed(s.skip(1), i - 1);
    }
}

proof fn bytes_in_inserted(s: Seq<FreeBlock>, i: int, b: FreeBlock)
    requires
        0 <= i <= s.len(),
    ensures
        bytes_in(s.insert(i, b)) == bytes_in(s) + b.size,
{
    bytes_in_removed(s.insert(i, b), i);
    assert(s.insert(i, b).remove(i) =~= s);
}

proof fn bytes_in_pushed(s: Seq<FreeBlock>, b: FreeBlock)
    ensures
        bytes_in(s.push(b)) == bytes_in(s) + b.size,
    decreases s.len(),
{
    if s.len() == 0 {
        assert(s.push(b).skip(1) =~= s);
    } else {
        assert(s.push(b).skip(1) =~= s.skip(1).push(b));
        bytes_in_pushed(s.skip(1), b);
    }
}

proof fn bytes_in_positive(s: Seq<FreeBlock>)
    ensures
        bytes_in(s) >= 0,
    decreases s.len(),
{
    if s.len() > 0 {
        bytes_in_positive(s.skip(1));
    }
}

proof fn rounded_16(v: int)
    requires
        v >= 0,
    ensures
        v <= rounded(v, 16) < v + 16,
        rounded(v, 16) % 16 == 0,
{
}

proof fn fit_bounds(free: Seq<FreeBlock>, i: int, off: int, need: int)
    requires
        0 <= i <= free.len(),
    ensures
        i <= fit_from(free, i, off, need) <= free.len(),
        fit_from(free, i, off, need) < free.len() ==> has_room(
            free[fit_from(free, i, off, need)],
            off,
            need,
        ),
        forall|k: int|
            i <= k < fit_from(free, i, off, need) ==> !has_room(#[trigger] free[k], off, need),
    decreases free.len() - i,
{
    if i < free.len() && !has_room(free[i], off, need) {
        fit_bounds(free, i + 1, off, need);
    }
}

proof fn at_bounds(live: Seq<FreeBlock>, i: int, addr: int)
    requires
        0 <= i <= live.len(),
    ensures
        i <= at_from(live, i, addr) <= live.len(),
        at_from(live, i, addr) < live.len() ==> live[at_from(live, i, addr)].addr == addr,
    decreases live.len() - i,
{
    if i < live.len() && live[i].addr != addr {
        at_bounds(live, i + 1, addr);
    }
}

/// The block shares no byte with any block of the heap.
spec fn clear_of(h: HeapView, b: FreeBlock) -> bool {
    &&& forall|k: int| 0 <= k < h.free.len() ==> apart(#[trigger] h.free[k], b)
    &&& forall|k: int| 0 <= k < h.live.len() ==> apart(#[trigger] h.live[k], b)
}

proof fn free_inserted(h: HeapView, i: int, b: FreeBlock)
    requires
        h.laid_out(),
        h.holds(b),
        clear_of(h, b),
        0 <= i <= h.free.len(),
    ensures
        ({
            let g = HeapView { free: h.free.insert(i, b), ..h };
            &&& g.laid_out()
            &&& forall|x: FreeBlock| clear_of(h, x) && apart(b, x) ==> #[trigger] clear_of(g, x)
        }),
{
    let g = HeapView { free: h.free.insert(i, b), ..h };
    assert(forall|k: int|
        0 <= k < g.free.len() ==> #[trigger] g.free[k] == if k < i {
            h.free[k]
        } else if k == i {
            b
        } else {
            h.free[k - 1]
        });
}

proof fn free_removed(h: HeapView, i: int)
    requires
        h.laid_out(),
        0 <= i < h.free.len(),
    ensures
        ({
            let g = HeapView { free: h.free.remove(i), ..h };
            &&& g.laid_out()
            &&& forall|x: FreeBlock|
                x.addr >= h.free[i].addr && x.addr + x.size <= h.free[i].addr + h.free[i].size
                    ==> #[trigger] clear_of(g, x)
        }),
{
    let g = HeapView { free: h.free.remove(i), ..h };
    let b = h.free[i];
    assert(forall|k: int|
        0 <= k < g.free.len() ==> #[trigger] g.free[k] == if k < i {
            h.free[k]
        } else {
            h.free[k + 1]
        });
    assert forall|x: FreeBlock|
        x.addr >= b.addr && x.addr + x.size <= b.addr + b.size implies #[trigger] clear_of(g, x) by {
        assert forall|k: int| 0 <= k < g.free.len() implies apart(#[trigger] g.free[k], x) by {
            if k < i {
                assert(apart(h.free[k], h.free[i]));
            } else {
                assert(apart(h.free[i], h.free[k + 1]));
            }
        }
        assert forall|k: int| 0 <= k < g.live.len() implies apart(#[trigger] g.live[k], x) by {
            assert(apart(h.free[i], h.live[k]));
        }
    }
}

proof fn live_pushed(h: HeapView, b: FreeBlock)
    requires
        h.laid_out(),
        h.holds(b),
        clear_of(h, b),
    ensures
        (HeapView { live: h.live.push(b), ..h }).laid_out(),
{
    let g = HeapView { live: h.live.push(b), ..h };
    assert(forall|k: int|
        0 <= k < g.live.len() ==> #[trigger] g.live[k] == if k < h.live.len() {
            h.live[k]
        } else {
            b
        });
}

/// An allocation keeps the heap in order: the bytes that it hands out lie in
/// a block that was free before, which no other block shares, and they start
/// at a multiple of the alignment.
pub proof fn alloc_keeps_order(h: HeapView, size: u64, align: u64)
    requires
        h.wf(),
        is_alignment(align),
    ensures
        h.granted(size, align).0.wf(),
        h.granted(size, align).1 matches Some(p) ==> {
            let b = h.granted(size, align).0.live.last();
            &&& h.granted(size, align).0.live == h.live.push(b)
            &&& b.addr + offset_of(align) == p
            &&& p + size <= b.addr + b.size
            &&& h.used + offset_of(align) + size <= u64::MAX
            &&& p % align == 0
        },
{
    let off = offset_of(align);
    let need = off + size;
    fit_bounds(h.free, 0, off, need);
    let i = h.first_fit(off, need);
    bytes_in_positive(h.free);
    bytes_in_positive(h.live);
    if i < h.free.len() {
        let b = h.free[i];
        assert(h.holds(b));
        aligned(b.addr as int, align);
        let at = b.addr + padding(b.addr as int, off);
        let rest = rounded(at + need, 16);
        rounded_16(at + need);
        let end = b.addr + b.size;
        let split = rest < end && end - rest >= MIN_BLOCK;
        let h2 = h.granted(size, align).0;
        let t = h2.live.last();
        let g = FreeBlock { addr: b.addr, size: (at - b.addr) as u64 };
        let r = FreeBlock { addr: rest as u64, size: (end - rest) as u64 };
        bytes_in_removed(h.free, i);
        bytes_in_positive(h.free.remove(i));
        free_removed(h, i);
        let h0 = HeapView { free: h.free.remove(i), ..h };
        assert(clear_of(h0, t));
        assert(at > b.addr ==> clear_of(h0, g));
        let h1 = if split {
            assert(clear_of(h0, r));
            free_inserted(h0, i, r);
            bytes_in_inserted(h0.free, i, r);
            HeapView { free: h0.free.insert(i, r), ..h0 }
        } else {
            h0
        };
        assert(clear_of(h1, t));
        assert(at > b.addr ==> clear_of(h1, g));
        let h3 = if at > b.addr {
            free_inserted(h1, i, g);
            bytes_in_inserted(h1.free, i, g);
            HeapView { free: h1.free.insert(i, g), ..h1 }
        } else {
            h1
        };
        assert(clear_of(h3, t));
        live_pushed(h3, t);
        bytes_in_pushed(h.live, t);
        assert(h2.free == h3.free);
        assert(h2.live == h3.live.push(t));
        assert(h2.laid_out());
    }
}

/// Giving bytes back keeps the heap in order.
pub proof fn dealloc_keeps_order(h: HeapView, ptr: u64, align: u64)
    requires
        h.wf(),
        is_alignment(align),
        h.owns(ptr, align),
    ensures
        h.dealloc(ptr, align).wf(),
{
    let k = h.live_at(ptr - offset_of(align));
    at_bounds(h.live, 0, ptr - offset_of(align));
    let b = h.live[k];
    let h2 = h.dealloc(ptr, align);
    bytes_in_removed(h.live, k);
    assert(h.free.insert(0, b).skip(1) =~= h.free);
    assert(forall|j: int|
        0 <= j < h2.live.len() ==> #[trigger] h2.live[j] == h.live[if j < k {
            j
        } else {
            j + 1
        }]);
    assert(forall|j: int| 1 <= j < h2.free.len() ==> #[trigger] h2.free[j] == h.free[j - 1]);
    assert(h2.free[0] == b);
    assert(h.holds(b));
    assert forall|j: int| 0 <= j < h.live.len() && j != k implies apart(#[trigger] h.live[j], b) by {
        if j < k {
            assert(apart(h.live[j], h.live[k]));
        } else {
            assert(apart(h.live[k], h.live[j]));
        }
    }
    assert forall|j: int| 0 <= j < h.free.len() implies apart(#[trigger] h.free[j], b) by {
        assert(apart(h.free[j], h.live[k]));
    }
    bytes_in_positive(h2.live);
}

/// What is handed out twice never overlaps: of two allocations in a row, the
/// second does not touch the bytes of the first.
pub proof fn allocations_do_not_overlap(
    h: HeapView,
    size: u64,
    align: u64,
    size2: u64,
    align2: u64,
)
    requires
        h.wf(),
        is_alignment(align),
        is_alignment(align2),
        h.granted(size, align).1 is Some,
        h.granted(size, align).0.granted(size2, align2).1 is Some,
    ensures
        ({
            let p = h.granted(size, align).1->0;
            let q = h.granted(size, align).0.granted(size2, align2).1->0;
            p + size <= q || q + size2 <= p
        }),
{
    alloc_keeps_order(h, size, align);
    let h1 = h.granted(size, align).0;
    alloc_keeps_order(h1, size2, align2);
    let h2 = h1.granted(size2, align2).0;
    let n = h2.live.len() as int;
    assert(h2.live[n - 2] == h1.live.last());
    assert(apart(h2.live[n - 2], h2.live[n - 1]));
}

/// Giving back what was just handed out leaves the number of bytes in the
/// free list as it was, and the blocks in use too.
pub proof fn dealloc_undoes_alloc(h: HeapView, size: u64, align: u64)
    requires
        h.wf(),
        is_alignment(align),
        h.granted(size, align).1 is Some,
    ensures
        h.granted(size, align).0.owns(h.granted(size, align).1->0, align),
        h.granted(size, align).0.dealloc(h.granted(size, align).1->0, align).live == h.live,
        bytes_in(h.granted(size, align).0.dealloc(h.granted(size, align).1->0, align).free)
            == bytes_in(h.free),
{
    alloc_keeps_order(h, size, align);
    let h1 = h.granted(size, align).0;
    let p = h.granted(size, align).1->0;
    let n = h1.live.len() as int;
    let addr = p - offset_of(align);
    at_bounds(h1.live, 0, addr);
    let k = h1.live_at(addr);
    fresh_is_last(h1.live, 0, addr);
    if k < n - 1 {
        assert(apart(h1.live[k], h1.live[n - 1]));
        assert(h1.holds(h1.live[k]) && h1.holds(h1.live[n - 1]));
    }
    assert(h1.live.remove(n - 1) =~= h.live);
    dealloc_keeps_order(h1, p, align);
    // the pieces add up to the block that was cut
    let off = offset_of(align);
    let need = off + size;
    fit_bounds(h.free, 0, off, need);
    let i = h.first_fit(off, need);
    let b = h.free[i];
    assert(h.holds(b));
    aligned(b.addr as int, align);
    let at = b.addr + padding(b.addr as int, off);
    let rest = rounded(at + need, 16);
    rounded_16(at + need);
    let end = b.addr + b.size;
    let r = FreeBlock { addr: rest as u64, size: (end - rest) as u64 };
    let g = FreeBlock { addr: b.addr, size: (at - b.addr) as u64 };
    let f0 = h.free.remove(i);
    bytes_in_removed(h.free, i);
    bytes_in_inserted(f0, i, r);
    bytes_in_inserted(f0, i, g);
    bytes_in_inserted(f0.insert(i, r), i, g);
    let t = h1.live[n - 1];
    bytes_in_inserted(h1.free, 0, t);
}

proof fn fresh_is_last(live: Seq<FreeBlock>, i: int, addr: int)
    requires
        0 <= i < live.len(),
        live.last().addr == addr,
    ensures
        at_from(live, i, addr) < live.len(),
    decreases live.len() - i,
{
    if live[i].addr != addr {
        fresh_is_last(live, i + 1, addr);
    }
}

impl HeapAllocator {
    pub open spec fn seen(&self) -> HeapView {
        HeapView {
            free: self.free@,
            live: self.live@,
            base: self.base,
            total: self.total,
            used: self.used,
            allocs: self.allocs,
            frees: self.frees,
        }
    }

    pub open spec fn wf(&self) -> bool {
        self.seen().wf()
    }

    /// A heap without memory.
    pub fn new() -> (h: HeapAllocator)
        ensures
            h.wf(),
            h.free@.len() == 0,
            h.live@.len() == 0,
            h.total == 0 && h.used == 0 && h.allocs == 0 && h.frees == 0,
    {
        HeapAllocator {
            free: Vec::new(),
            live: Vec::new(),
            base: PMO,
            total: 0,
            used: 0,
            allocs: 0,
            frees: 0,
        }
    }

    /// Takes over the physical memory `[base_phys, base_phys + size)`.
    pub fn init(&mut self, base_phys: u64, size: u64)
        requires
            base_phys + size <= 0x7FFF_FFFE_0000,
            size >= 48,
        ensures
            final(self).wf(),
            ({
                let base = rounded(base_phys as int, 16) + PMO;
                let usable = size - (base - PMO - base_phys);
                &&& final(self).base == base
                &&& final(self).total == usable
                &&& final(self).free@ == seq![
                    FreeBlock { addr: base as u64, size: (usable - BLOCK_HEADER) as u64 },
                ]
                &&& final(self).live@ == Seq::<FreeBlock>::empty()
                &&& final(self).used == 0 && final(self).allocs == 0 && final(self).frees == 0
            }),
    {
        let phys: u64 = align_up(base_phys, 16);
        let base: u64 = phys + PMO;
        let usable: u64 = size - (phys - base_phys);
        let mut free: Vec<FreeBlock> = Vec::new();
        free.push(FreeBlock { addr: base, size: usable - BLOCK_HEADER });
        self.free = free;
        self.live = Vec::new();
        self.base = base;
        self.total = usable;
        self.used = 0;
        self.allocs = 0;
        self.frees = 0;
        proof {
            assert(self.free@ =~= seq![FreeBlock { addr: base, size: (usable - 16) as u64 }]);
            assert(self.free@.skip(1) =~= Seq::<FreeBlock>::empty());
            reveal_with_fuel(bytes_in, 3);
        }
    }

    /// Size, used bytes, and the number of allocations.
    pub fn stats(&self) -> (r: (u64, u64, u64))
        ensures
            r == (self.total, self.used, self.allocs),
    {
        (self.total, self.used, self.allocs)
    }

    /// Hands out `size` bytes at a multiple of `align`. There is no answer
    /// where no free block is large enough.
    pub fn alloc_locked(&mut self, size: u64, align: u64) -> (r: Option<u64>)
        requires
            old(self).wf(),
            is_alignment(align),
        ensures
            final(self).wf(),
            (final(self).seen(), r) == old(self).seen().granted(size, align),
            r matches Some(p) ==> p % align == 0,
    {
        let ghost h = self.seen();
        let off: u64 = if align <= BLOCK_HEADER {
            BLOCK_HEADER
        } else {
            align
        };
        let ghost need_spec = off + size;
        proof {
            alloc_keeps_order(h, size, align);
            fit_bounds(h.free, 0, off as int, need_spec);
        }
        if size > u64::MAX - off {
            proof {
                let i = h.first_fit(off as int, need_spec);
                if i < h.free.len() {
                    padded(h.free[i].addr as int, off as int);
                }
            }
            return None;
        }
        let need: u64 = off + size;
        let mut i: usize = 0;
        while i < self.free.len()
            invariant
                i <= self.free@.len(),
                self.seen() == h,
                h == old(self).seen(),
                h.wf(),
                is_alignment(align),
                off == offset_of(align),
                need == off + size,
                h.first_fit(off as int, need as int) == fit_from(
                    h.free,
                    i as int,
                    off as int,
                    need as int,
                ),
            decreases self.free@.len() - i,
        {
            let b: FreeBlock = self.free[i];
            let over: u64 = b.addr % off;
            let pad: u64 = if over == 0 {
                0
            } else {
                off - over
            };
            if pad <= b.size && need <= b.size - pad {
                proof {
                    alloc_keeps_order(h, size, align);
                    assert(h.holds(b));
                    aligned(b.addr as int, align);
                }
                let at: u64 = b.addr + pad;
                let end: u64 = b.addr + b.size;
                let rest: u64 = align_up(at + need, 16);
                let split: bool = rest < end && end - rest >= MIN_BLOCK;
                self.free.remove(i);
                if split {
                    self.free.insert(i, FreeBlock { addr: rest, size: end - rest });
                }
                if at > b.addr {
                    self.free.insert(i, FreeBlock { addr: b.addr, size: at - b.addr });
                }
                let last: u64 = if split {
                    rest
                } else {
                    end
                };
                self.live.push(FreeBlock { addr: at, size: last - at });
                self.used = self.used + need;
                self.allocs = self.allocs.wrapping_add(1);
                assert(self.seen() =~= h.granted(size, align).0);
                return Some(at + off);
            }
            i += 1;
        }
        None
    }

    /// Gives back the bytes at `ptr`, which were handed out for the same
    /// alignment. The null pointer is accepted and changes nothing.
    pub fn dealloc(&mut self, ptr: u64, align: u64)
        requires
            old(self).wf(),
            is_alignment(align),
            ptr != 0 ==> old(self).seen().owns(ptr, align),
        ensures
            final(self).wf(),
            final(self).seen() == (if ptr == 0 {
                old(self).seen()
            } else {
                old(self).seen().dealloc(ptr, align)
            }),
    {
        if ptr == 0 {
            return;
        }
        let ghost h = self.seen();
        proof {
            at_bounds(h.live, 0, ptr - offset_of(align));
            dealloc_keeps_order(h, ptr, align);
        }
        let off: u64 = if align <= BLOCK_HEADER {
            BLOCK_HEADER
        } else {
            align
        };
        let ghost k = h.live_at(ptr - off);
        assert(h.live[k].addr == ptr - off);
        let block: u64 = ptr - off;
        let mut i: usize = 0;
        while i < self.live.len() && self.live[i].addr != block
            invariant
                i <= self.live@.len(),
                self.seen() == h,
                k < h.live.len(),
                k == at_from(h.live, i as int, block as int),
            decreases self.live@.len() - i,
        {
            i += 1;
        }
        let b: FreeBlock = self.live[i];
        self.live.remove(i);
        self.free.insert(0, b);
        self.used = self.used.saturating_sub(b.size);
        self.frees = self.frees.wrapping_add(1);
        assert(self.seen() =~= h.dealloc(ptr, align));
    }

    /// Moves an allocation to one of another size: the new address, and the
    /// number of bytes to carry over. Where there is no room nothing changes.
    pub fn realloc(&mut self, ptr: u64, size: u64, align: u64, new_size: u64) -> (r: Option<
        (u64, u64),
    >)
        requires
            old(self).wf(),
            is_alignment(align),
            ptr != 0,
            old(self).seen().owns(ptr, align),
        ensures
            final(self).wf(),
            ({
                let (h, p) = old(self).seen().granted(new_size, align);
                match p {
                    None => r is None && final(self).seen() == old(self).seen(),
                    Some(q) => {
                        &&& r == Some(
                            (
                                q,
                                if size < new_size {
                                    size
                                } else {
                                    new_size
                                },
                            ),
                        )
                        &&& final(self).seen() == h.dealloc(ptr, align)
                    },
                }
            }),
    {
        let ghost h = self.seen();
        match self.alloc_locked(new_size, align) {
            None => None,
            Some(q) => {
                proof {
                    alloc_keeps_order(h, new_size, align);
                    at_bounds(h.live, 0, ptr - offset_of(align));
                    push_keeps_place(h.live, 0, ptr - offset_of(align), self.live@.last());
                }
                let copy: u64 = if size < new_size {
                    size
                } else {
                    new_size
                };
                self.dealloc(ptr, align);
                Some((q, copy))
            },
        }
    }
}

proof fn push_keeps_place(live: Seq<FreeBlock>, i: int, addr: int, b: FreeBlock)
    requires
        0 <= i <= live.len(),
        at_from(live, i, addr) < live.len(),
    ensures
        at_from(live.push(b), i, addr) == at_from(live, i, addr),
    decreases live.len() - i,
{
    if live[i].addr != addr {
        push_keeps_place(live, i + 1, addr, b);
    }
}

// ---------- where the heap stands ----------

/// The largest usable region among the first `n`, the first of them where
/// several are as large: its start and its length.
pub open spec fn largest(regions: Seq<MemoryRegion>, n: int) -> (u64, u64)
    decreases n,
{
    if n <= 0 {
        (0, 0)
    } else {
        let best = largest(regions, n - 1);
        let r = regions[n - 1];
        let len = if r.end >= r.start {
            r.end - r.start
        } else {
            0
        };
        if r.kind == RegionKind::Usable && len > best.1 {
            (r.start, len as u64)
        } else {
            best
        }
    }
}

/// Where the heap goes: the last 16 MiB of the largest usable region. The
/// second number is the length of that region. There is no answer where no
/// region is large enough.
pub open spec fn heap_place(regions: Seq<MemoryRegion>) -> Option<(u64, u64)> {
    let (start, len) = largest(regions, regions.len() as int);
    if len < HEAP_BYTES {
        None
    } else {
        Some(((start + len - HEAP_BYTES) as u64, len))
    }
}

proof fn largest_fits(regions: Seq<MemoryRegion>, n: int)
    requires
        n <= regions.len(),
    ensures
        largest(regions, n).0 + largest(regions, n).1 <= u64::MAX,
    decreases n,
{
    if n > 0 {
        largest_fits(regions, n - 1);
    }
}

pub fn init(regions: &Vec<MemoryRegion>) -> (r: Option<(u64, u64)>)
    ensures
        r == heap_place(regions@),
{
    let mut start: u64 = 0;
    let mut len: u64 = 0;
    let mut k: usize = 0;
    while k < regions.len()
        invariant
            k <= regions@.len(),
            (start, len) == largest(regions@, k as int),
        decreases regions@.len() - k,
    {
        let r = regions[k];
        let n: u64 = r.end.saturating_sub(r.start);
        if r.kind == RegionKind::Usable && n > len {
            start = r.start;
            len = n;
        }
        k += 1;
    }
    if len < HEAP_BYTES {
        return None;
    }
    proof {
        largest_fits(regions@, regions@.len() as int);
    }
    Some((start + (len - HEAP_BYTES), len))
}

/// The line that the boot log shows for the heap.
pub open spec fn init_text(stats: (u64, u64, u64), phys: u64, len: u64) -> Seq<char> {
    "Heap: "@ + text::dec(stats.0 as nat / 1024 / 1024) + " MB @ phys 0x"@ + text::hex(
        phys as nat,
        0,
    ) + " (last 16 MB of "@ + text::dec(len as nat / 1024 / 1024) + " MB usable region) - "@
        + text::dec(stats.1 as nat) + " used after init, "@ + text::dec(stats.2 as nat)
        + " allocs"@
}

pub fn init_line(h: &HeapAllocator, phys: u64, len: u64) -> (v: Vec<char>)
    ensures
        v@ == init_text((h.total, h.used, h.allocs), phys, len),
{
    let (total, used, allocs) = h.stats();
    let mut v = chars_of("Heap: ");
    push_dec(&mut v, total / 1024 / 1024);
    push_str(&mut v, " MB @ phys 0x");
    push_hex(&mut v, phys, 0);
    push_str(&mut v, " (last 16 MB of ");
    push_dec(&mut v, len / 1024 / 1024);
    push_str(&mut v, " MB usable region) - ");
    push_dec(&mut v, used);
    push_str(&mut v, " used after init, ");
    push_dec(&mut v, allocs);
    push_str(&mut v, " allocs");
    v
}

/// The line that the self-test shows.
pub open spec fn selftest_text(stats: (u64, u64, u64)) -> Seq<char> {
    "Heap selftest: Vec<u64> x2048 sum "@ + text::dec(6290432) + " (ok) String 'heap-ok!' - "@
        + text::dec(stats.1 as nat / 1024) + "/"@ + text::dec(stats.0 as nat / 1024)
        + " KB used, "@ + text::dec(stats.2 as nat) + " allocs"@
}

/// Fills a vector, adds it up, and shows the outcome.
pub fn selftest(h: &HeapAllocator) -> (v: Vec<char>)
    ensures
        v@ == selftest_text((h.total, h.used, h.allocs)),
{
    let mut data: Vec<u64> = Vec::new();
    let mut i: u64 = 0;
    while i < 2048
        invariant
            i <= 2048,
            data@.len() == i,
            forall|k: int| 0 <= k < i ==> #[trigger] data@[k] == k * 3 + 1,
        decreases 2048 - i,
    {
        data.push(i * 3 + 1);
        i += 1;
    }
    let mut sum: u64 = 0;
    let mut k: usize = 0;
    while k < 2048
        invariant
            k <= 2048,
            data@.len() == 2048,
            forall|j: int| 0 <= j < 2048 ==> #[trigger] data@[j] == j * 3 + 1,
            2 * sum == 3 * (k * k) - k,
            sum <= 6145 * k,
        decreases 2048 - k,
    {
        assert(data@[k as int] == k * 3 + 1);
        assert(3 * ((k + 1) * (k + 1)) - (k + 1) == 3 * (k * k) - k + 2 * (k * 3 + 1))
            by (nonlinear_arith);
        sum = sum + data[k];
        k += 1;
    }
    let (total, used, allocs) = h.stats();
    let mut v = chars_of("Heap selftest: Vec<u64> x2048 sum ");
    push_dec(&mut v, sum);
    push_str(
        &mut v,
        if sum == 6290432 {
            " (ok) String 'heap-ok!' - "
        } else {
            " (BAD) String 'heap-ok!' - "
        },
    );
    push_dec(&mut v, used / 1024);
    push_str(&mut v, "/");
    push_dec(&mut v, total / 1024);
    push_str(&mut v, " KB used, ");
    push_dec(&mut v, allocs);
    push_str(&mut v, " allocs");
    v
}

} // verus!
