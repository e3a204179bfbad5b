//! What a program that was loaded looks like in memory.

use vstd::prelude::*;
use crate::acpi::PMO;
use crate::bytes;
use crate::bytes::{put64_then_read, u64_at};
use crate::elf::{
    all_applied, copied, dynamic, image_size, is_pie, loaded, magic, phdr_off, phdrs, place_of,
    placed, relocated, span, span_bounds, table_applied, Phdr, Rela, USER_STACK_BYTES,
};
use crate::heap;
use crate::heap::HeapView;
use crate::mem;
use crate::mem::{more_open, more_open_is_transitive, open_ranges_stay_open};

verus! {

/// Where the address `v` of a program that is moved by `base` stands in physical
/// memory: the sum, in 64 bits, counted from the start of the window.
pub open spec fn spot(base: u64, v: u64) -> int {
    (base + v - PMO) % 0x1_0000_0000_0000_0000
}

/// A sum in 64 bits.
pub open spec fn sum(a: u64, b: u64) -> int {
    (a + b) % 0x1_0000_0000_0000_0000
}

proof fn spot_is_place(base: u64, v: u64)
    ensures
        spot(base, v) == place_of(base, v),
        sum(base, v) == base.wrapping_add(v),
{
}

// ---------- relocations ----------

/// The table has an entry `k`.
pub open spec fn has_entry(f: Rela, k: int) -> bool {
    0 <= k && k * f.ent + 24 <= f.size
}

/// Where the entry `k` of the table stands.
pub open spec fn entry_at(base: u64, f: Rela, k: int) -> int {
    spot(base, f.addr) + k * f.ent
}

/// The entry `k` is a relative relocation.
pub open spec fn is_relative(m: Seq<u8>, base: u64, f: Rela, k: int) -> bool {
    has_entry(f, k) && u64_at(m, entry_at(base, f, k) + 8) & 0xFFFF_FFFF == 8
}

/// The place that the entry `k` relocates.
pub open spec fn target(m: Seq<u8>, base: u64, f: Rela, k: int) -> int {
    spot(base, u64_at(m, entry_at(base, f, k)))
}

/// What the entry `k` puts there.
pub open spec fn value(m: Seq<u8>, base: u64, f: Rela, k: int) -> int {
    sum(base, u64_at(m, entry_at(base, f, k) + 16))
}

/// No relocation goes into the table itself.
pub open spec fn beside_the_table(m: Seq<u8>, base: u64, f: Rela) -> bool {
    forall|k: int| #[trigger]
        is_relative(m, base, f, k) ==> target(m, base, f, k) + 8 <= spot(base, f.addr) || spot(
            base,
            f.addr,
        ) + f.size <= target(m, base, f, k)
}

/// The entries from `k` on and the places that they relocate lie in memory.
pub open spec fn in_memory(m: Seq<u8>, base: u64, f: Rela, k: int) -> bool {
    forall|j: int|
        k <= j && #[trigger] has_entry(f, j) ==> entry_at(base, f, j) + 24 <= m.len() && (
        is_relative(m, base, f, j) ==> target(m, base, f, j) + 8 <= m.len())
}

/// A relocation behind `k` goes to some of the same bytes.
pub open spec fn redone(m: Seq<u8>, base: u64, f: Rela, k: int) -> bool {
    exists|j: int|
        k < j && #[trigger] is_relative(m, base, f, j) && target(m, base, f, k) < target(
            m,
            base,
            f,
            j,
        ) + 8 && target(m, base, f, j) < target(m, base, f, k) + 8
}

/// Memory `t` is `m` with the relocations of the table applied: each relative
/// one, unless another one is applied over it, has put `base + addend` at
/// `base + offset`, and no other byte has changed.
pub open spec fn relocations_done(m: Seq<u8>, t: Seq<u8>, base: u64, f: Rela) -> bool {
    &&& t.len() == m.len()
    &&& forall|k: int| #[trigger]
        is_relative(m, base, f, k) && !redone(m, base, f, k) ==> u64_at(t, target(m, base, f, k))
            == value(m, base, f, k)
    &&& forall|a: int|
        0 <= a < m.len() && (forall|k: int| #[trigger]
            is_relative(m, base, f, k) ==> !(target(m, base, f, k) <= a < target(m, base, f, k) + 8))
            ==> #[trigger] t[a] == m[a]
}

proof fn field_same(a: Seq<u8>, b: Seq<u8>, o: int)
    requires
        forall|i: int| o <= i < o + 8 ==> #[trigger] a[i] == b[i],
    ensures
        u64_at(a, o) == u64_at(b, o),
{
}

proof fn low_half(v: u64)
    ensures
        v % 0x1_0000_0000 == v & 0xFFFF_FFFF,
{
    assert(v % 0x1_0000_0000 == v & 0xFFFF_FFFF) by (bit_vector);
}

/// Memory `t` is `m` with the relocations from `k` on applied, as the table in
/// `m0` lists them.
spec fn done_from(m0: Seq<u8>, m: Seq<u8>, t: Seq<u8>, base: u64, f: Rela, k: int) -> bool {
    &&& t.len() == m.len()
    &&& forall|j: int|
        k <= j && #[trigger] is_relative(m0, base, f, j) && !redone(m0, base, f, j) ==> u64_at(
            t,
            target(m0, base, f, j),
        ) == value(m0, base, f, j)
    &&& forall|a: int| 0 <= a < m.len() && !hit_from(m0, base, f, k, a) ==> #[trigger] t[a] == m[a]
}

/// A relocation from `k` on goes to the byte.
spec fn hit_from(m: Seq<u8>, base: u64, f: Rela, k: int, a: int) -> bool {
    exists|j: int|
        k <= j && #[trigger] is_relative(m, base, f, j) && target(m, base, f, j) <= a < target(
            m,
            base,
            f,
            j,
        ) + 8
}

proof fn hit_later(m: Seq<u8>, base: u64, f: Rela, k: int, a: int)
    ensures
        hit_from(m, base, f, k + 1, a) ==> hit_from(m, base, f, k, a),
        is_relative(m, base, f, k) && target(m, base, f, k) <= a < target(m, base, f, k) + 8
            ==> hit_from(m, base, f, k, a),
{
    if hit_from(m, base, f, k + 1, a) {
        let j = choose|j: int|
            k + 1 <= j && #[trigger] is_relative(m, base, f, j) && target(m, base, f, j) <= a
                < target(m, base, f, j) + 8;
        assert(is_relative(m, base, f, j));
    }
}

/// One relocation is passed over.
proof fn none_here(m0: Seq<u8>, m: Seq<u8>, t: Seq<u8>, base: u64, f: Rela, k: int)
    requires
        !is_relative(m0, base, f, k),
        done_from(m0, m, t, base, f, k + 1),
    ensures
        done_from(m0, m, t, base, f, k),
{
    assert forall|a: int| 0 <= a < m.len() && !hit_from(m0, base, f, k, a) implies #[trigger] t[a]
        == m[a] by {
        hit_later(m0, base, f, k, a);
    }
    assert forall|j: int|
        k <= j && #[trigger] is_relative(m0, base, f, j) && !redone(m0, base, f, j) implies u64_at(
        t,
        target(m0, base, f, j),
    ) == value(m0, base, f, j) by {
        assert(j != k);
    }
}

/// One relocation is applied.
proof fn one_here(m0: Seq<u8>, m: Seq<u8>, t: Seq<u8>, base: u64, f: Rela, k: int, v: u64)
    requires
        is_relative(m0, base, f, k),
        0 <= target(m0, base, f, k),
        target(m0, base, f, k) + 8 <= m.len(),
        v == value(m0, base, f, k),
        done_from(m0, bytes::put64(m, target(m0, base, f, k), v), t, base, f, k + 1),
    ensures
        done_from(m0, m, t, base, f, k),
{
    let place = target(m0, base, f, k);
    let m1 = bytes::put64(m, place, v);
    put64_then_read(m, place, v);
    assert(bytes::le64(v).len() == 8);
    assert forall|j: int|
        k <= j && #[trigger] is_relative(m0, base, f, j) && !redone(m0, base, f, j) implies u64_at(
        t,
        target(m0, base, f, j),
    ) == value(m0, base, f, j) by {
        if j == k {
            assert forall|i: int| place <= i < place + 8 implies #[trigger] t[i] == m1[i] by {
                if hit_from(m0, base, f, k + 1, i) {
                    let l = choose|l: int|
                        k + 1 <= l && #[trigger] is_relative(m0, base, f, l) && target(
                            m0,
                            base,
                            f,
                            l,
                        ) <= i < target(m0, base, f, l) + 8;
                    assert(is_relative(m0, base, f, l));
                    assert(redone(m0, base, f, k));
                }
            }
            field_same(t, m1, place);
        }
    }
    assert forall|a: int| 0 <= a < m.len() && !hit_from(m0, base, f, k, a) implies #[trigger] t[a]
        == m[a] by {
        hit_later(m0, base, f, k, a);
        assert(t[a] == m1[a]);
    }
}

#[verifier::spinoff_prover]
proof fn relocated_from(m0: Seq<u8>, m: Seq<u8>, base: u64, f: Rela, k: int, off: int)
    requires
        f.ent >= 24,
        0 <= k,
        off == k * f.ent,
        m.len() == m0.len(),
        beside_the_table(m0, base, f),
        forall|a: int|
            spot(base, f.addr) <= a < spot(base, f.addr) + f.size && a < m.len() ==> #[trigger] m[a]
                == m0[a],
    ensures
        relocated(m, base, f, off).1 == in_memory(m0, base, f, k),
        relocated(m, base, f, off).1 ==> done_from(
            m0,
            m,
            relocated(m, base, f, off).0,
            base,
            f,
            k,
        ),
    decreases
            if off <= f.size {
                f.size - off + 1
            } else {
                0
            },
{
    let (t, ok) = relocated(m, base, f, off);
    let r = spot(base, f.addr);
    spot_is_place(base, f.addr);
    assert(off >= 0) by (nonlinear_arith)
        requires
            off == k * f.ent,
            k >= 0,
            f.ent >= 24,
    ;
    if off + 24 > f.size {
        assert forall|j: int| k <= j implies !(#[trigger] has_entry(f, j)) by {
            assert(j * f.ent >= k * f.ent) by (nonlinear_arith)
                requires
                    j >= k,
                    f.ent >= 24,
            ;
        }
        assert(in_memory(m0, base, f, k));
    } else {
        assert(has_entry(f, k));
        if r + off + 24 <= m.len() {
            field_same(m, m0, r + off);
            field_same(m, m0, r + off + 8);
            field_same(m, m0, r + off + 16);
            let info = u64_at(m, r + off + 8);
            low_half(info);
            let place = target(m0, base, f, k);
            spot_is_place(base, u64_at(m, r + off));
            spot_is_place(base, u64_at(m, r + off + 16));
            assert((k + 1) * f.ent == off + f.ent) by (nonlinear_arith)
                requires
                    off == k * f.ent,
            ;
            assert(is_relative(m0, base, f, k) == (info % 0x1_0000_0000 == 8));
            if info % 0x1_0000_0000 != 8 {
                relocated_from(m0, m, base, f, k + 1, off + f.ent);
                split_at(m0, base, f, k);
                if ok {
                    none_here(m0, m, t, base, f, k);
                }
            } else if place + 8 <= m.len() {
                let v = base.wrapping_add(u64_at(m, r + off + 16));
                assert(bytes::le64(v).len() == 8);
                relocated_from(m0, bytes::put64(m, place, v), base, f, k + 1, off + f.ent);
                split_at(m0, base, f, k);
                if ok {
                    one_here(m0, m, t, base, f, k, v);
                }
            }
        }
    }
}

proof fn split_at(m: Seq<u8>, base: u64, f: Rela, k: int)
    requires
        has_entry(f, k),
        entry_at(base, f, k) + 24 <= m.len(),
        is_relative(m, base, f, k) ==> target(m, base, f, k) + 8 <= m.len(),
    ensures
        in_memory(m, base, f, k) == in_memory(m, base, f, k + 1),
{
    if in_memory(m, base, f, k + 1) {
        assert forall|j: int| k <= j && #[trigger] has_entry(f, j) implies entry_at(base, f, j) + 24
            <= m.len() && (is_relative(m, base, f, j) ==> target(m, base, f, j) + 8 <= m.len()) by {
            if j > k {
                assert(k + 1 <= j);
            }
        }
    } else {
        let j = choose|j: int|
            k + 1 <= j && #[trigger] has_entry(f, j) && !(entry_at(base, f, j) + 24 <= m.len() && (
            is_relative(m, base, f, j) ==> target(m, base, f, j) + 8 <= m.len()));
        assert(has_entry(f, j));
    }
}

/// Applying a table of relocations succeeds exactly where the table and the
/// places that it names lie in memory, and then every one of them has been
/// applied.
pub proof fn relocations_are_applied(m: Seq<u8>, base: u64, f: Rela)
    requires
        f.ent >= 24,
        beside_the_table(m, base, f),
    ensures
        relocated(m, base, f, 0).1 == in_memory(m, base, f, 0),
        relocated(m, base, f, 0).1 ==> relocations_done(m, relocated(m, base, f, 0).0, base, f),
{
    assert(0 * f.ent == 0) by (nonlinear_arith);
    relocated_from(m, m, base, f, 0, 0);
    let t = relocated(m, base, f, 0).0;
    if relocated(m, base, f, 0).1 {
        assert forall|k: int| #[trigger]
            is_relative(m, base, f, k) && !redone(m, base, f, k) implies u64_at(
            t,
            target(m, base, f, k),
        ) == value(m, base, f, k) by {
            assert(0 <= k);
        }
        assert forall|a: int|
            0 <= a < m.len() && (forall|k: int| #[trigger]
                is_relative(m, base, f, k) ==> !(target(m, base, f, k) <= a < target(m, base, f, k)
                    + 8)) implies #[trigger] t[a] == m[a] by {
            assert(!hit_from(m, base, f, 0, a));
        }
    }
}

// ---------- the dynamic table ----------

/// The value of the last entry with the tag among the first `z` entries of the
/// table at byte `d`; the number `without` where there is none.
#[verifier::opaque]
pub open spec fn tagged(m: Seq<u8>, d: int, z: int, tag: u64, without: u64, v: u64) -> bool {
    &&& forall|i: int|
        0 <= i < z && #[trigger] u64_at(m, d + 16 * i) == tag && (forall|j: int|
            i < j < z ==> #[trigger] u64_at(m, d + 16 * j) != tag) ==> v == u64_at(
            m,
            d + 16 * i + 8,
        )
    &&& (forall|i: int| 0 <= i < z ==> #[trigger] u64_at(m, d + 16 * i) != tag) ==> v == without
}

/// The table at byte `d`, with room for `n` entries, ends at entry `z`: there is
/// a zero tag, and none before it, or there is no more room.
pub open spec fn ends_at(m: Seq<u8>, d: int, n: int, z: int) -> bool {
    &&& 0 <= z <= n
    &&& forall|i: int| 0 <= i < z ==> #[trigger] u64_at(m, d + 16 * i) != 0
    &&& z < n ==> u64_at(m, d + 16 * z) == 0
}

/// The table of relocations that a dynamic table names: its address (tag 7), its
/// size (tag 8), and the distance of its entries (tag 9), which is 24 where the
/// table does not say.
pub open spec fn names_table(m: Seq<u8>, d: int, n: int, f: Rela) -> bool {
    exists|z: int| #[trigger]
        ends_at(m, d, n, z) && tagged(m, d, z, 7, 0, f.addr) && tagged(m, d, z, 8, 0, f.size)
            && tagged(m, d, z, 9, 24, f.ent)
}

/// A value stays the last one with its tag, or a new entry has the tag.
proof fn tagged_further(m: Seq<u8>, d: int, i: int, tag: u64, without: u64, v: u64, w: u64)
    requires
        0 <= i,
        tagged(m, d, i, tag, without, v),
        w == (if u64_at(m, d + 16 * i) == tag {
            u64_at(m, d + 16 * i + 8)
        } else {
            v
        }),
    ensures
        tagged(m, d, i + 1, tag, without, w),
{
    reveal(tagged);
    if u64_at(m, d + 16 * i) == tag {
        assert forall|k: int|
            0 <= k < i + 1 && #[trigger] u64_at(m, d + 16 * k) == tag && (forall|j: int|
                k < j < i + 1 ==> #[trigger] u64_at(m, d + 16 * j) != tag) implies w == u64_at(
            m,
            d + 16 * k + 8,
        ) by {
            if k < i {
                assert(u64_at(m, d + 16 * i) != tag);
            }
        }
    } else {
        assert forall|k: int|
            0 <= k < i + 1 && #[trigger] u64_at(m, d + 16 * k) == tag && (forall|j: int|
                k < j < i + 1 ==> #[trigger] u64_at(m, d + 16 * j) != tag) implies w == u64_at(
            m,
            d + 16 * k + 8,
        ) by {
            assert(k != i);
            assert(forall|j: int| k < j < i ==> #[trigger] u64_at(m, d + 16 * j) != tag);
        }
        if forall|k: int| 0 <= k < i + 1 ==> #[trigger] u64_at(m, d + 16 * k) != tag {
            assert(forall|k: int| 0 <= k < i ==> #[trigger] u64_at(m, d + 16 * k) != tag);
        }
    }
}

#[verifier::spinoff_prover]
proof fn dynamic_from(m: Seq<u8>, d: u64, n: int, i: int, f: Rela)
    requires
        0 <= i <= n,
        forall|k: int| 0 <= k < i ==> #[trigger] u64_at(m, d + 16 * k) != 0,
        tagged(m, d as int, i, 7, 0, f.addr),
        tagged(m, d as int, i, 8, 0, f.size),
        tagged(m, d as int, i, 9, 24, f.ent),
    ensures
        dynamic(m, d, n, i, f) matches Some(g) ==> names_table(m, d as int, n, g),
    decreases n - i,
{
    if i >= n || d + 16 * i + 16 > m.len() {
        if i >= n {
            assert(ends_at(m, d as int, n, i));
        }
    } else {
        let tag = u64_at(m, d + 16 * i);
        let val = u64_at(m, d + 16 * i + 8);
        if tag == 0 {
            assert(ends_at(m, d as int, n, i));
        } else {
            let g = if tag == 7 {
                Rela { addr: val, ..f }
            } else if tag == 8 {
                Rela { size: val, ..f }
            } else if tag == 9 {
                Rela { ent: val, ..f }
            } else {
                f
            };
            tagged_further(m, d as int, i, 7, 0, f.addr, g.addr);
            tagged_further(m, d as int, i, 8, 0, f.size, g.size);
            tagged_further(m, d as int, i, 9, 24, f.ent, g.ent);
            dynamic_from(m, d, n, i + 1, g);
        }
    }
}

/// What a dynamic table names is what its entries say.
pub proof fn dynamic_table_is_read(m: Seq<u8>, d: u64, n: int)
    requires
        0 <= n,
    ensures
        dynamic(m, d, n, 0, Rela { addr: 0, size: 0, ent: 24 }) matches Some(f) ==> names_table(
            m,
            d as int,
            n,
            f,
        ),
{
    reveal(tagged);
    dynamic_from(m, d, n, 0, Rela { addr: 0, size: 0, ent: 24 });
}

/// Memory `t` is `m` with the relocations applied that the dynamic table of the
/// header names, where the table has entries of a full length and no relocation
/// goes into it.
pub open spec fn header_applied(m: Seq<u8>, t: Seq<u8>, base: u64, h: Phdr) -> bool {
    exists|f: Rela| #[trigger]
        names_table(m, spot(base, h.p_vaddr), h.p_memsz as int / 16, f) && (f.ent >= 24
            && beside_the_table(m, base, f) ==> relocations_done(m, t, base, f)) && (f.ent < 24
            ==> t == m)
}

/// Where the relocations of a dynamic header are applied with success, they
/// have all been applied.
pub proof fn header_is_applied(m: Seq<u8>, base: u64, h: Phdr)
    requires
        table_applied(m, base, h).1,
    ensures
        header_applied(m, table_applied(m, base, h).0, base, h),
{
    let d = place_of(base, h.p_vaddr);
    let n = h.p_memsz as int / 16;
    spot_is_place(base, h.p_vaddr);
    dynamic_table_is_read(m, d, n);
    let f = dynamic(m, d, n, 0, Rela { addr: 0, size: 0, ent: 24 })->0;
    assert(names_table(m, spot(base, h.p_vaddr), n, f));
    if f.ent >= 24 && beside_the_table(m, base, f) {
        relocations_are_applied(m, base, f);
    }
}

proof fn one_header_applied(m: Seq<u8>, base: u64, p: Seq<Phdr>, d: int, i: int)
    requires
        0 <= i <= p.len(),
        forall|k: int| 0 <= k < p.len() && k != d ==> (#[trigger] p[k]).p_type != 2,
        0 <= d < p.len(),
        p[d].p_type == 2,
        all_applied(m, base, p, i).1,
    ensures
        i <= d ==> all_applied(m, base, p, i) == table_applied(m, base, p[d]),
        i > d ==> all_applied(m, base, p, i).0 == m,
    decreases p.len() - i,
{
    reveal(all_applied);
    if i < p.len() {
        if i == d {
            one_header_applied(table_applied(m, base, p[d]).0, base, p, d, i + 1);
        } else {
            one_header_applied(m, base, p, d, i + 1);
        }
    }
}

// ---------- segments ----------

/// A loaded header behind `i`, or from `i` on, covers the byte `a` of memory.
pub open spec fn covered(p: Seq<Phdr>, base: u64, i: int, a: int) -> bool {
    exists|j: int|
        i <= j < p.len() && (#[trigger] p[j]).p_type == 1 && spot(base, p[j].p_vaddr) <= a && (a
            < spot(base, p[j].p_vaddr) + p[j].p_filesz || a < spot(base, p[j].p_vaddr)
            + p[j].p_memsz)
}

/// Memory `t` is `m` with the segments of the headers from `i` on in place: each
/// byte holds what the last segment that covers it says, the byte of the file or
/// zero behind its file bytes; the other bytes have not changed.
pub open spec fn segments_in_place(
    m: Seq<u8>,
    t: Seq<u8>,
    base: u64,
    p: Seq<Phdr>,
    i: int,
    blob: Seq<u8>,
) -> bool {
    &&& t.len() == m.len()
    &&& forall|j: int, a: int|
        #![trigger p[j], t[a]]
        i <= j < p.len() && p[j].p_type == 1 && !covered(p, base, j + 1, a) && 0 <= a - spot(
            base,
            p[j].p_vaddr,
        ) < p[j].p_filesz ==> t[a] == blob[p[j].p_offset + (a - spot(base, p[j].p_vaddr))]
    &&& forall|j: int, a: int|
        #![trigger p[j], t[a]]
        i <= j < p.len() && p[j].p_type == 1 && !covered(p, base, j + 1, a) && p[j].p_filesz <= a
            - spot(base, p[j].p_vaddr) < p[j].p_memsz ==> t[a] == 0
    &&& forall|a: int| 0 <= a < m.len() && !covered(p, base, i, a) ==> #[trigger] t[a] == m[a]
}

/// The segments of the headers from `i` on lie in the file and in memory.
pub open spec fn segments_fit(
    m: Seq<u8>,
    base: u64,
    p: Seq<Phdr>,
    i: int,
    blob: Seq<u8>,
) -> bool {
    forall|j: int|
        i <= j < p.len() && (#[trigger] p[j]).p_type == 1 ==> {
            &&& p[j].p_offset + p[j].p_filesz <= blob.len()
            &&& spot(base, p[j].p_vaddr) + p[j].p_filesz <= m.len()
            &&& spot(base, p[j].p_vaddr) + p[j].p_memsz <= m.len()
        }
}

proof fn covered_from(p: Seq<Phdr>, base: u64, i: int, a: int)
    requires
        0 <= i < p.len(),
    ensures
        covered(p, base, i + 1, a) ==> covered(p, base, i, a),
        p[i].p_type != 1 ==> covered(p, base, i, a) == covered(p, base, i + 1, a),
        p[i].p_type == 1 && spot(base, p[i].p_vaddr) <= a && (a < spot(base, p[i].p_vaddr)
            + p[i].p_filesz || a < spot(base, p[i].p_vaddr) + p[i].p_memsz) ==> covered(
            p,
            base,
            i,
            a,
        ),
        covered(p, base, i, a) ==> covered(p, base, i + 1, a) || (p[i].p_type == 1 && spot(
            base,
            p[i].p_vaddr,
        ) <= a && (a < spot(base, p[i].p_vaddr) + p[i].p_filesz || a < spot(base, p[i].p_vaddr)
            + p[i].p_memsz)),
{
    if covered(p, base, i + 1, a) {
        let j = choose|j: int|
            i + 1 <= j < p.len() && (#[trigger] p[j]).p_type == 1 && spot(base, p[j].p_vaddr) <= a
                && (a < spot(base, p[j].p_vaddr) + p[j].p_filesz || a < spot(base, p[j].p_vaddr)
                + p[j].p_memsz);
        assert(p[j].p_type == 1);
    }
    if covered(p, base, i, a) {
        let j = choose|j: int|
            i <= j < p.len() && (#[trigger] p[j]).p_type == 1 && spot(base, p[j].p_vaddr) <= a && (a
                < spot(base, p[j].p_vaddr) + p[j].p_filesz || a < spot(base, p[j].p_vaddr)
                + p[j].p_memsz);
        if j > i {
            assert(covered(p, base, i + 1, a));
        }
    }
}

#[verifier::spinoff_prover]
#[verifier::rlimit(60)]
proof fn copied_from(m: Seq<u8>, base: u64, p: Seq<Phdr>, i: int, blob: Seq<u8>)
    requires
        0 <= i <= p.len(),
    ensures
        copied(m, base, p, i, blob).1 == segments_fit(m, base, p, i, blob),
        copied(m, base, p, i, blob).1 ==> segments_in_place(
            m,
            copied(m, base, p, i, blob).0,
            base,
            p,
            i,
            blob,
        ),
    decreases p.len() - i,
{
    reveal(copied);
    let (t, ok) = copied(m, base, p, i, blob);
    if i < p.len() {
        assert forall|a: int| #[trigger] covered(p, base, i + 1, a) implies covered(p, base, i, a) by {
            covered_from(p, base, i, a);
        }
        if p[i].p_type != 1 {
            copied_from(m, base, p, i + 1, blob);
            assert(segments_fit(m, base, p, i, blob) == segments_fit(m, base, p, i + 1, blob)) by {
                if segments_fit(m, base, p, i + 1, blob) {
                    assert forall|j: int| i <= j < p.len() && (#[trigger] p[j]).p_type
                        == 1 implies i + 1 <= j by {}
                }
            }
            if ok {
                assert forall|a: int| 0 <= a < m.len() && !covered(p, base, i, a) implies #[trigger] t[a]
                    == m[a] by {
                    covered_from(p, base, i, a);
                }
            }
        } else {
            let h = p[i];
            let o = spot(base, h.p_vaddr);
            spot_is_place(base, h.p_vaddr);
            if h.p_offset + h.p_filesz > blob.len() || o + h.p_filesz > m.len() || o + h.p_memsz
                > m.len() {
                assert(!segments_fit(m, base, p, i, blob));
            } else {
                let m1 = bytes::splice(
                    m,
                    o,
                    blob.subrange(h.p_offset as int, h.p_offset + h.p_filesz),
                );
                let m2 = if h.p_memsz > h.p_filesz {
                    bytes::splice(
                        m1,
                        o + h.p_filesz,
                        bytes::zero_bytes((h.p_memsz - h.p_filesz) as nat),
                    )
                } else {
                    m1
                };
                assert(m2.len() == m.len());
                copied_from(m2, base, p, i + 1, blob);
                assert(segments_fit(m, base, p, i, blob) == segments_fit(m2, base, p, i + 1, blob)) by {
                    if segments_fit(m2, base, p, i + 1, blob) {
                        assert forall|j: int|
                            i <= j < p.len() && (#[trigger] p[j]).p_type == 1 implies p[j].p_offset
                            + p[j].p_filesz <= blob.len() && spot(base, p[j].p_vaddr)
                            + p[j].p_filesz <= m.len() && spot(base, p[j].p_vaddr) + p[j].p_memsz
                            <= m.len() by {
                            if j > i {
                                assert(i + 1 <= j);
                            }
                        }
                    }
                }
                if ok {
                    assert forall|a: int|
                        0 <= a < m.len() && !covered(p, base, i, a) implies #[trigger] t[a]
                        == m[a] by {
                        covered_from(p, base, i, a);
                        assert(t[a] == m2[a]);
                    }
                    assert forall|j: int, a: int|
                        #![trigger p[j], t[a]]
                        i <= j < p.len() && p[j].p_type == 1 && !covered(p, base, j + 1, a) && 0 <= a
                            - spot(base, p[j].p_vaddr) < p[j].p_filesz implies t[a]
                        == blob[p[j].p_offset + (a - spot(base, p[j].p_vaddr))] by {
                        if j == i {
                            assert(t[a] == m2[a]);
                        }
                    }
                    assert forall|j: int, a: int|
                        #![trigger p[j], t[a]]
                        i <= j < p.len() && p[j].p_type == 1 && !covered(p, base, j + 1, a)
                            && p[j].p_filesz <= a - spot(base, p[j].p_vaddr) < p[j].p_memsz implies t[a]
                        == 0 by {
                        if j == i {
                            assert(t[a] == m2[a]);
                        }
                    }
                }
            }
        }
    }
}

/// The segments are copied exactly where they lie in the file and in memory,
/// and then each of them stands in its place.
pub proof fn segments_are_copied(m: Seq<u8>, base: u64, p: Seq<Phdr>, blob: Seq<u8>)
    ensures
        copied(m, base, p, 0, blob).1 == segments_fit(m, base, p, 0, blob),
        copied(m, base, p, 0, blob).1 ==> segments_in_place(
            m,
            copied(m, base, p, 0, blob).0,
            base,
            p,
            0,
            blob,
        ),
{
    copied_from(m, base, p, 0, blob);
}

// ---------- the program ----------

/// The image starts with a page and holds every segment; some segment starts in
/// its first page, and some segment ends in its last one.
pub open spec fn holds_the_segments(p: Seq<Phdr>, lo: u64, size: u64) -> bool {
    &&& lo % 0x1000 == 0 && size % 0x1000 == 0
    &&& forall|i: int|
        0 <= i < p.len() && (#[trigger] p[i]).p_type == 1 ==> lo <= p[i].p_vaddr && (p[i].p_vaddr
            + p[i].p_memsz <= u64::MAX ==> p[i].p_vaddr + p[i].p_memsz <= lo + size)
    &&& exists|i: int|
        0 <= i < p.len() && (#[trigger] p[i]).p_type == 1 && p[i].p_vaddr < lo + 0x1000
    &&& size > 0 ==> exists|i: int|
        0 <= i < p.len() && (#[trigger] p[i]).p_type == 1 && p[i].p_vaddr + p[i].p_memsz + 0x1000
            > lo + size
}

proof fn span_is(p: Seq<Phdr>, n: int)
    requires
        0 <= n <= p.len(),
    ensures
        ({
            let (lo, hi) = span(p, n);
            &&& lo == u64::MAX || lo % 0x1000 == 0
            &&& forall|i: int|
                0 <= i < n && (#[trigger] p[i]).p_type == 1 ==> lo <= p[i].p_vaddr && (p[i].p_vaddr
                    + p[i].p_memsz <= u64::MAX ==> p[i].p_vaddr + p[i].p_memsz <= hi)
            &&& lo < u64::MAX ==> exists|i: int|
                0 <= i < n && (#[trigger] p[i]).p_type == 1 && p[i].p_vaddr < lo + 0x1000
            &&& hi > 0 ==> exists|i: int|
                0 <= i < n && (#[trigger] p[i]).p_type == 1 && p[i].p_vaddr + p[i].p_memsz >= hi
        }),
    decreases n,
{
    if n > 0 {
        span_is(p, n - 1);
        let (lo, hi) = span(p, n - 1);
        let h = p[n - 1];
        if lo < u64::MAX {
            let i = choose|i: int|
                0 <= i < n - 1 && (#[trigger] p[i]).p_type == 1 && p[i].p_vaddr < lo + 0x1000;
            assert(p[i].p_type == 1);
        }
        if hi > 0 {
            let i = choose|i: int|
                0 <= i < n - 1 && (#[trigger] p[i]).p_type == 1 && p[i].p_vaddr + p[i].p_memsz >= hi;
            assert(p[i].p_type == 1);
        }
        if h.p_type == 1 {
            assert(p[n - 1].p_type == 1);
        }
    }
}

/// Whole pages hold what they were counted for.
proof fn pages_hold(p: Seq<Phdr>, lo: u64, hi: u64, size: u64)
    requires
        lo % 0x1000 == 0,
        lo <= hi,
        size == (hi - lo + 0xFFF) / 0x1000 * 0x1000,
        forall|i: int|
            0 <= i < p.len() && (#[trigger] p[i]).p_type == 1 ==> lo <= p[i].p_vaddr && (p[i].p_vaddr
                + p[i].p_memsz <= u64::MAX ==> p[i].p_vaddr + p[i].p_memsz <= hi),
        exists|i: int|
            0 <= i < p.len() && (#[trigger] p[i]).p_type == 1 && p[i].p_vaddr < lo + 0x1000,
        hi > 0 ==> exists|i: int|
            0 <= i < p.len() && (#[trigger] p[i]).p_type == 1 && p[i].p_vaddr + p[i].p_memsz >= hi,
    ensures
        holds_the_segments(p, lo, size),
{
    assert(hi <= lo + size < hi + 0x1000);
    if size > 0 {
        assert(hi > 0);
        let i = choose|i: int|
            0 <= i < p.len() && (#[trigger] p[i]).p_type == 1 && p[i].p_vaddr + p[i].p_memsz >= hi;
        assert(p[i].p_type == 1);
    }
}

/// The block that is taken for an image holds it, and is no larger than whole
/// pages make it.
pub proof fn image_holds_the_segments(blob: Seq<u8>)
    ensures
        image_size(blob) matches Some((lo, size)) ==> holds_the_segments(phdrs(blob), lo, size),
{
    let p = phdrs(blob);
    let n = p.len() as int;
    span_is(p, n);
    span_bounds(p, n);
    if let Some((lo, size)) = image_size(blob) {
        pages_hold(p, lo, span(p, n).1, size);
    }
}

/// What the making of the pages leaves of memory `m2`.
proof fn pages_are_opened(m2: Seq<u8>, root: int, block: u64, size: u64, s: u64)
    requires
        root % 0x1000 == 0,
        block % 0x1000 == 0,
        size % 0x1000 == 0,
    ensures
        ({
            let m3 = mem::mark_pages(
                m2,
                root,
                mem::page_of(block as int),
                mem::page_of(block + size + 0xFFF),
                true,
            );
            let t = mem::mark_pages(
                m3.0,
                root,
                mem::page_of(s as int),
                mem::page_of(s + USER_STACK_BYTES + 0xFFF),
                true,
            ).0;
            &&& more_open(m2, t)
            &&& m3.1 ==> mem::user_pages(t, root, block as int, block + size)
        }),
{
    let (from, to) = (mem::page_of(block as int), mem::page_of(block + size + 0xFFF));
    let m3 = mem::mark_pages(m2, root, from, to, true);
    mem::marked_range_is_user_range(m2, root, from, to, true);
    let (sf, st) = (mem::page_of(s as int), mem::page_of(s + USER_STACK_BYTES + 0xFFF));
    let t = mem::mark_pages(m3.0, root, sf, st, true).0;
    mem::marked_range_is_user_range(m3.0, root, sf, st, true);
    more_open_is_transitive(m2, m3.0, t);
    if m3.1 {
        open_ranges_stay_open(m3.0, t, root, from, to);
    }
    assert(from == block);
    assert(to == block + size);
}

/// A block of the image and a stack are apart, and start with a page.
proof fn blocks_are_apart(h: HeapView, size: u64)
    requires
        h.wf(),
        h.granted(size, 0x1000).1 is Some,
        h.granted(size, 0x1000).0.granted(USER_STACK_BYTES, 0x1000).1 is Some,
    ensures
        ({
            let block = h.granted(size, 0x1000).1->0;
            let s = h.granted(size, 0x1000).0.granted(USER_STACK_BYTES, 0x1000).1->0;
            &&& block % 0x1000 == 0
            &&& s % 0x1000 == 0
            &&& block + size <= u64::MAX
            &&& s + USER_STACK_BYTES <= u64::MAX
            &&& s >= block + size || s + USER_STACK_BYTES <= block
        }),
{
    let h1 = h.granted(size, 0x1000).0;
    heap::alloc_keeps_order(h, size, 0x1000);
    heap::alloc_keeps_order(h1, USER_STACK_BYTES, 0x1000);
    heap::allocations_do_not_overlap(h, size, 0x1000, USER_STACK_BYTES, 0x1000);
    let h2 = h1.granted(USER_STACK_BYTES, 0x1000).0;
    assert(h1.holds(h1.live.last()));
    assert(h2.holds(h2.live.last()));
}

/// The parts of a load that succeeds.
proof fn loaded_parts(h: HeapView, m: Seq<u8>, root: int, blob: Seq<u8>)
    requires
        loaded(h, m, root, blob).2 is Some,
    ensures
        image_size(blob) is Some,
        ({
            let (lo, size) = image_size(blob)->0;
            let h1 = h.granted(size, 0x1000).0;
            let block = h.granted(size, 0x1000).1->0;
            let s = h1.granted(USER_STACK_BYTES, 0x1000).1->0;
            let base = block.wrapping_sub(lo);
            let m1 = placed(m, root, blob, lo, size, block);
            &&& h.granted(size, 0x1000).1 is Some
            &&& h1.granted(USER_STACK_BYTES, 0x1000).1 is Some
            &&& m1.1
            &&& loaded(h, m, root, blob).1 == mem::mark_pages(
                m1.0,
                root,
                mem::page_of(s as int),
                mem::page_of(s + USER_STACK_BYTES + 0xFFF),
                true,
            ).0
            &&& (loaded(h, m, root, blob).2->0).entry == base.wrapping_add(u64_at(blob, 0x18))
            &&& (loaded(h, m, root, blob).2->0).stack_top == (s + USER_STACK_BYTES) as u64
        }),
{
}

/// The parts of a program that is put in its place.
proof fn placed_parts(m: Seq<u8>, root: int, blob: Seq<u8>, lo: u64, size: u64, block: u64)
    requires
        placed(m, root, blob, lo, size, block).1,
    ensures
        ({
            let base = block.wrapping_sub(lo);
            let m1 = copied(m, base, phdrs(blob), 0, blob);
            let m2 = all_applied(m1.0, base, phdrs(blob), 0);
            &&& m1.1
            &&& m2.1
            &&& placed(m, root, blob, lo, size, block) == mem::mark_pages(
                m2.0,
                root,
                mem::page_of(block as int),
                mem::page_of(block + size + 0xFFF),
                true,
            )
        }),
{
}

/// The program of the image stands in memory `t`, moved by `base`, where memory
/// was `m` before. Its segments were put at `base` plus their addresses; then the
/// relocations of the dynamic table of header `d` were applied, every one of
/// them; and what changed behind that is page table entries, which are open to
/// user mode now.
pub open spec fn in_place(m: Seq<u8>, t: Seq<u8>, base: u64, blob: Seq<u8>, d: int) -> bool {
    &&& segments_fit(m, base, phdrs(blob), 0, blob)
    &&& exists|m1: Seq<u8>, m2: Seq<u8>| #[trigger]
        segments_in_place(m, m1, base, phdrs(blob), 0, blob) && #[trigger] header_applied(
            m1,
            m2,
            base,
            phdrs(blob)[d],
        ) && more_open(m2, t)
}

proof fn program_is_in_place(
    m: Seq<u8>,
    t: Seq<u8>,
    root: int,
    blob: Seq<u8>,
    lo: u64,
    size: u64,
    block: u64,
    d: int,
)
    requires
        0 <= d < phdrs(blob).len(),
        phdrs(blob)[d].p_type == 2,
        forall|k: int| 0 <= k < phdrs(blob).len() && k != d ==> (#[trigger] phdrs(blob)[k]).p_type != 2,
        copied(m, block.wrapping_sub(lo), phdrs(blob), 0, blob).1,
        all_applied(
            copied(m, block.wrapping_sub(lo), phdrs(blob), 0, blob).0,
            block.wrapping_sub(lo),
            phdrs(blob),
            0,
        ).1,
        more_open(
            all_applied(
                copied(m, block.wrapping_sub(lo), phdrs(blob), 0, blob).0,
                block.wrapping_sub(lo),
                phdrs(blob),
                0,
            ).0,
            t,
        ),
    ensures
        in_place(m, t, block.wrapping_sub(lo), blob, d),
{
    let base = block.wrapping_sub(lo);
    let ph = phdrs(blob);
    segments_are_copied(m, base, ph, blob);
    let m1 = copied(m, base, ph, 0, blob).0;
    one_header_applied(m1, base, ph, d, 0);
    header_is_applied(m1, base, ph[d]);
    let m2 = all_applied(m1, base, ph, 0).0;
    assert(segments_in_place(m, m1, base, ph, 0, blob) && header_applied(m1, m2, base, ph[d]));
}

proof fn assembled(
    m: Seq<u8>,
    t: Seq<u8>,
    root: int,
    blob: Seq<u8>,
    lo: u64,
    size: u64,
    block: u64,
    s: u64,
    d: int,
)
    requires
        root % 0x1000 == 0,
        block % 0x1000 == 0,
        size % 0x1000 == 0,
        0 <= d < phdrs(blob).len(),
        phdrs(blob)[d].p_type == 2,
        forall|k: int| 0 <= k < phdrs(blob).len() && k != d ==> (#[trigger] phdrs(blob)[k]).p_type != 2,
        placed(m, root, blob, lo, size, block).1,
        t == mem::mark_pages(
            placed(m, root, blob, lo, size, block).0,
            root,
            mem::page_of(s as int),
            mem::page_of(s + USER_STACK_BYTES + 0xFFF),
            true,
        ).0,
    ensures
        in_place(m, t, block.wrapping_sub(lo), blob, d),
        mem::user_pages(t, root, block as int, block + size),
{
    let base = block.wrapping_sub(lo);
    placed_parts(m, root, blob, lo, size, block);
    let m2 = all_applied(copied(m, base, phdrs(blob), 0, blob).0, base, phdrs(blob), 0).0;
    pages_are_opened(m2, root, block, size, s);
    program_is_in_place(m, t, root, blob, lo, size, block, d);
}

/// The pages of an image that was placed are open to user mode.
proof fn image_is_open(m: Seq<u8>, root: int, blob: Seq<u8>, lo: u64, size: u64, block: u64)
    requires
        root % 0x1000 == 0,
        block % 0x1000 == 0,
        size % 0x1000 == 0,
        placed(m, root, blob, lo, size, block).1,
    ensures
        mem::user_pages(
            placed(m, root, blob, lo, size, block).0,
            root,
            block as int,
            block + size,
        ),
{
    placed_parts(m, root, blob, lo, size, block);
    let base = block.wrapping_sub(lo);
    let m2 = all_applied(copied(m, base, phdrs(blob), 0, blob).0, base, phdrs(blob), 0).0;
    let (from, to) = (mem::page_of(block as int), mem::page_of(block + size + 0xFFF));
    mem::marked_range_is_user_range(m2, root, from, to, true);
    assert(from == block && to == block + size);
}

/// A program that was loaded runs at `base` plus the entry that its header names,
/// where `base` moves its lowest page to the block that was taken for it. The
/// block has room for all the segments; they are in place, with every relocation
/// applied; and all pages of the block are open to user mode. The stack lies in
/// another block.
#[verifier::spinoff_prover]
#[verifier::rlimit(60)]
pub proof fn loaded_program_is_in_place(h: HeapView, m: Seq<u8>, root: int, blob: Seq<u8>, d: int)
    requires
        h.wf(),
        root % 0x1000 == 0,
        loaded(h, m, root, blob).2 is Some,
        0 <= d < phdrs(blob).len(),
        phdrs(blob)[d].p_type == 2,
        forall|k: int| 0 <= k < phdrs(blob).len() && k != d ==> (#[trigger] phdrs(blob)[k]).p_type != 2,
    ensures
        ({
            let t = loaded(h, m, root, blob).1;
            let program = loaded(h, m, root, blob).2->0;
            let (lo, size) = image_size(blob)->0;
            let block = h.granted(size, 0x1000).1->0;
            let base = block.wrapping_sub(lo);
            &&& program.entry == sum(base, u64_at(blob, 0x18))
            &&& holds_the_segments(phdrs(blob), lo, size)
            &&& block % 0x1000 == 0
            &&& in_place(m, t, base, blob, d)
            &&& mem::user_pages(t, root, block as int, block + size)
            &&& program.stack_top % 0x1000 == 0
            &&& program.stack_top - 65536 >= block + size || program.stack_top <= block
        }),
{
    loaded_parts(h, m, root, blob);
    let (lo, size) = image_size(blob)->0;
    let h1 = h.granted(size, 0x1000).0;
    let block = h.granted(size, 0x1000).1->0;
    let base = block.wrapping_sub(lo);
    let s = h1.granted(USER_STACK_BYTES, 0x1000).1->0;
    blocks_are_apart(h, size);
    image_holds_the_segments(blob);
    let t = loaded(h, m, root, blob).1;
    assembled(m, t, root, blob, lo, size, block, s, d);
    spot_is_place(base, u64_at(blob, 0x18));
}

/// The pages of the stack, 64 KiB below its top, are opened to user mode last, on
/// memory in which those of the image are open: where each of them can be opened
/// there, user mode can access the whole stack.
#[verifier::spinoff_prover]
pub proof fn stack_is_opened(h: HeapView, m: Seq<u8>, root: int, blob: Seq<u8>)
    requires
        h.wf(),
        root % 0x1000 == 0,
        loaded(h, m, root, blob).2 is Some,
    ensures
        ({
            let t = loaded(h, m, root, blob).1;
            let top = (loaded(h, m, root, blob).2->0).stack_top as int;
            let (lo, size) = image_size(blob)->0;
            let block = h.granted(size, 0x1000).1->0;
            let m3 = placed(m, root, blob, lo, size, block).0;
            &&& mem::user_pages(m3, root, block as int, block + size)
            &&& mem::mark_pages(m3, root, top - 65536, top, true).1 ==> mem::user_pages(
                t,
                root,
                top - 65536,
                top,
            )
        }),
{
    loaded_parts(h, m, root, blob);
    let (lo, size) = image_size(blob)->0;
    let h1 = h.granted(size, 0x1000).0;
    let block = h.granted(size, 0x1000).1->0;
    let s = h1.granted(USER_STACK_BYTES, 0x1000).1->0;
    blocks_are_apart(h, size);
    image_holds_the_segments(blob);
    image_is_open(m, root, blob, lo, size, block);
    let m3 = placed(m, root, blob, lo, size, block).0;
    stack_pages(m3, root, s);
}

proof fn stack_pages(m3: Seq<u8>, root: int, s: u64)
    requires
        root % 0x1000 == 0,
        s % 0x1000 == 0,
    ensures
        mem::page_of(s as int) == s,
        mem::page_of(s + USER_STACK_BYTES + 0xFFF) == s + USER_STACK_BYTES,
        mem::mark_pages(m3, root, s as int, s + USER_STACK_BYTES, true).1 ==> mem::user_pages(
            mem::mark_pages(m3, root, s as int, s + USER_STACK_BYTES, true).0,
            root,
            s as int,
            s + USER_STACK_BYTES,
        ),
{
    mem::marked_range_is_user_range(m3, root, s as int, s + USER_STACK_BYTES, true);
}

/// Only a position-independent ELF image is loaded: the mark at its start, the
/// type, and program headers that lie in the file. Anything else leaves the heap
/// and memory as they were.
pub proof fn only_such_images_are_loaded(h: HeapView, m: Seq<u8>, root: int, blob: Seq<u8>)
    ensures
        ({
            let such = blob.len() >= 64 && blob[0] == 0x7F && blob[1] == 69 && blob[2] == 76 && blob[3]
                == 70 && bytes::u16_at(blob, 0x10) == 3 && forall|i: int|
                0 <= i < bytes::u16_at(blob, 0x38) ==> #[trigger] header_at(blob, i) + 56
                    <= blob.len();
            &&& loaded(h, m, root, blob).2 is Some ==> such
            &&& !such ==> loaded(h, m, root, blob).0 == h && loaded(h, m, root, blob).1 == m
        }),
{
    let first = blob.subrange(0, 4);
    if blob.len() >= 64 {
        assert(first[0] == blob[0] && first[1] == blob[1] && first[2] == blob[2] && first[3]
            == blob[3]);
        if blob[0] == 0x7F && blob[1] == 69 && blob[2] == 76 && blob[3] == 70 {
            assert(first =~= magic());
        }
        assert(magic()[0] == 0x7F && magic()[1] == 69 && magic()[2] == 76 && magic()[3] == 70);
    }
    assert forall|i: int| #[trigger] header_at(blob, i) == phdr_off(blob, i) by {}
    if is_pie(blob) {
        assert forall|i: int| 0 <= i < bytes::u16_at(blob, 0x38) implies #[trigger] header_at(blob, i)
            + 56 <= blob.len() by {
            assert(phdr_off(blob, i) + 56 <= blob.len());
        }
    }
    if blob.len() >= 64 && first == magic() && bytes::u16_at(blob, 0x10) == 3 && (forall|i: int|
        0 <= i < bytes::u16_at(blob, 0x38) ==> #[trigger] header_at(blob, i) + 56 <= blob.len()) {
        assert forall|i: int| 0 <= i < bytes::u16_at(blob, 0x38) implies #[trigger] phdr_off(blob, i)
            + 56 <= blob.len() by {
            assert(header_at(blob, i) + 56 <= blob.len());
        }
    }
}

/// Where the program header `i` stands: the file says where the first one is, and
/// how far apart they are.
pub open spec fn header_at(blob: Seq<u8>, i: int) -> int {
    u64_at(blob, 0x20) + i * bytes::u16_at(blob, 0x36)
}

/// The program headers are read from their places, each field from its own.
pub proof fn headers_are_read(blob: Seq<u8>, i: int)
    requires
        0 <= i < bytes::u16_at(blob, 0x38),
    ensures
        phdrs(blob).len() == bytes::u16_at(blob, 0x38),
        phdrs(blob)[i].p_type == bytes::u32_at(blob, header_at(blob, i)),
        phdrs(blob)[i].p_offset == u64_at(blob, header_at(blob, i) + 8),
        phdrs(blob)[i].p_vaddr == u64_at(blob, header_at(blob, i) + 16),
        phdrs(blob)[i].p_filesz == u64_at(blob, header_at(blob, i) + 32),
        phdrs(blob)[i].p_memsz == u64_at(blob, header_at(blob, i) + 40),
{
}

} // verus!
