//! The loader of user programs: position-independent ELF64 images.
//!
//! The image goes to a block of the heap. Heap addresses lie in the window of
//! physical memory that starts at [`PMO`], so the byte at heap address `a` is
//! the byte `a - PMO` of physical memory. What the headers and tables of the
//! image name is taken as it is, also where it lies beside the block; only an
//! address outside the window ends the load.

use vstd::prelude::*;
use crate::acpi::PMO;
use crate::bytes;
use crate::bytes::{put_bytes, r16, r32, r64, same_bytes, w64, zero_range};
use crate::heap;
use crate::heap::{HeapAllocator, HeapView};
use crate::mem;

pub mod laws;

verus! {

pub const ET_DYN: u16 = 3;

pub const PT_LOAD: u32 = 1;

pub const PT_DYNAMIC: u32 = 2;

pub const DT_NULL: u64 = 0;

pub const DT_RELA: u64 = 7;

pub const DT_RELASZ: u64 = 8;

pub const DT_RELAENT: u64 = 9;

pub const R_X86_64_RELATIVE: u64 = 8;

pub const USER_STACK_BYTES: u64 = 65536;

#[derive(Clone, Copy, PartialEq, Eq, Debug, Structural)]
pub struct LoadedUserProgram {
    pub entry: u64,
    pub stack_top: u64,
}

/// A program header.
#[derive(Clone, Copy, PartialEq, Eq, Debug, Structural)]
pub struct Phdr {
    pub p_type: u32,
    pub p_offset: u64,
    pub p_vaddr: u64,
    pub p_filesz: u64,
    pub p_memsz: u64,
}

pub open spec fn magic() -> Seq<u8> {
    seq![0x7Fu8, 69, 76, 70]
}

pub open spec fn phdr_at(b: Seq<u8>, off: int) -> Phdr {
    Phdr {
        p_type: bytes::u32_at(b, off),
        p_offset: bytes::u64_at(b, off + 8),
        p_vaddr: bytes::u64_at(b, off + 0x10),
        p_filesz: bytes::u64_at(b, off + 0x20),
        p_memsz: bytes::u64_at(b, off + 0x28),
    }
}

/// Where the program header `i` stands.
pub open spec fn phdr_off(b: Seq<u8>, i: int) -> int {
    bytes::u64_at(b, 0x20) + i * bytes::u16_at(b, 0x36)
}

/// A position-independent image whose program headers all lie in it.
pub open spec fn is_pie(b: Seq<u8>) -> bool {
    &&& b.len() >= 64
    &&& b.subrange(0, 4) == magic()
    &&& bytes::u16_at(b, 0x10) == ET_DYN
    &&& forall|i: int|
        0 <= i < bytes::u16_at(b, 0x38) ==> #[trigger] phdr_off(b, i) + 56 <= b.len()
}

pub open spec fn phdrs(b: Seq<u8>) -> Seq<Phdr> {
    Seq::new(bytes::u16_at(b, 0x38) as nat, |i: int| phdr_at(b, phdr_off(b, i)))
}

/// The lowest page and the highest end of the first `n` headers that are
/// loaded.
pub open spec fn span(p: Seq<Phdr>, n: int) -> (u64, u64)
    decreases n,
{
    if n <= 0 {
        (u64::MAX, 0)
    } else {
        let (lo, hi) = span(p, n - 1);
        let h = p[n - 1];
        if h.p_type != PT_LOAD {
            (lo, hi)
        } else {
            let start = (h.p_vaddr / 0x1000 * 0x1000) as u64;
            let end = if h.p_vaddr + h.p_memsz > u64::MAX {
                u64::MAX
            } else {
                (h.p_vaddr + h.p_memsz) as u64
            };
            (
                if start < lo {
                    start
                } else {
                    lo
                },
                if end > hi {
                    end
                } else {
                    hi
                },
            )
        }
    }
}

/// Where the address `v` of the program stands in physical memory, for an image
/// that is moved by `base`.
pub open spec fn place_of(base: u64, v: u64) -> u64 {
    base.wrapping_add(v).wrapping_sub(PMO)
}

fn find_place(base: u64, v: u64) -> (p: u64)
    ensures
        p == place_of(base, v),
{
    base.wrapping_add(v).wrapping_sub(PMO)
}

/// Copies the segments from header `i` on to their places, and clears what a
/// segment has beyond its file bytes. The copy ends without success at a
/// segment that does not lie in the file, or whose place is outside physical
/// memory.
#[verifier::opaque]
pub open spec fn copied(m: Seq<u8>, base: u64, p: Seq<Phdr>, i: int, blob: Seq<u8>) -> (Seq<u8>, bool)
    decreases p.len() - i,
{
    if i < 0 || i >= p.len() {
        (m, true)
    } else if p[i].p_type != PT_LOAD {
        copied(m, base, p, i + 1, blob)
    } else {
        let h = p[i];
        let o = place_of(base, h.p_vaddr);
        if h.p_offset + h.p_filesz > blob.len() || o + h.p_filesz > m.len() || o + h.p_memsz
            > m.len() {
            (m, false)
        } else {
            let m1 = bytes::splice(
                m,
                o as int,
                blob.subrange(h.p_offset as int, h.p_offset + h.p_filesz),
            );
            let m2 = if h.p_memsz > h.p_filesz {
                bytes::splice(
                    m1,
                    o + h.p_filesz,
                    bytes::zero_bytes((h.p_memsz - h.p_filesz) as nat),
                )
            } else {
                m1
            };
            copied(m2, base, p, i + 1, blob)
        }
    }
}

/// Where the relocations are: address, length in bytes, and distance.
#[derive(Clone, Copy, PartialEq, Eq, Debug, Structural)]
pub struct Rela {
    pub addr: u64,
    pub size: u64,
    pub ent: u64,
}

/// The entries of the dynamic table from `i` on; the table stands at byte `d`
/// of physical memory and has at most `n` entries. There is no answer where
/// the table runs out of physical memory.
pub open spec fn dynamic(m: Seq<u8>, d: u64, n: int, i: int, f: Rela) -> Option<Rela>
    decreases n - i,
{
    if i >= n {
        Some(f)
    } else if d + 16 * i + 16 > m.len() {
        None
    } else {
        let tag = bytes::u64_at(m, d + 16 * i);
        let val = bytes::u64_at(m, d + 16 * i + 8);
        if tag == DT_NULL {
            Some(f)
        } else {
            dynamic(
                m,
                d,
                n,
                i + 1,
                if tag == DT_RELA {
                    Rela { addr: val, ..f }
                } else if tag == DT_RELASZ {
                    Rela { size: val, ..f }
                } else if tag == DT_RELAENT {
                    Rela { ent: val, ..f }
                } else {
                    f
                },
            )
        }
    }
}

/// Applies the relocations from byte `off` of their table on: a relative one
/// writes `base + addend` at its place. The work ends without success where
/// the table or a place runs out of physical memory.
pub open spec fn relocated(m: Seq<u8>, base: u64, f: Rela, off: int) -> (Seq<u8>, bool)
    decreases
            if off <= f.size {
                f.size - off + 1
            } else {
                0
            },
{
    let r = place_of(base, f.addr);
    if off < 0 || off + 24 > f.size || f.ent < 24 {
        (m, true)
    } else if r + off + 24 > m.len() {
        (m, false)
    } else {
        let place = place_of(base, bytes::u64_at(m, r + off));
        let info = bytes::u64_at(m, r + off + 8);
        let addend = bytes::u64_at(m, r + off + 16);
        if info % 0x1_0000_0000 != R_X86_64_RELATIVE {
            relocated(m, base, f, off + f.ent)
        } else if place + 8 > m.len() {
            (m, false)
        } else {
            relocated(
                bytes::put64(m, place as int, base.wrapping_add(addend)),
                base,
                f,
                off + f.ent,
            )
        }
    }
}

/// Applies the relocations that one dynamic table names.
pub open spec fn table_applied(m: Seq<u8>, base: u64, h: Phdr) -> (Seq<u8>, bool) {
    match dynamic(
        m,
        place_of(base, h.p_vaddr),
        h.p_memsz as int / 16,
        0,
        Rela { addr: 0, size: 0, ent: 24 },
    ) {
        None => (m, false),
        Some(f) => relocated(m, base, f, 0),
    }
}

/// Applies the relocations of all the dynamic tables from header `i` on.
#[verifier::opaque]
pub open spec fn all_applied(m: Seq<u8>, base: u64, p: Seq<Phdr>, i: int) -> (Seq<u8>, bool)
    decreases p.len() - i,
{
    if i < 0 || i >= p.len() {
        (m, true)
    } else if p[i].p_type != PT_DYNAMIC {
        all_applied(m, base, p, i + 1)
    } else {
        let (m1, ok) = table_applied(m, base, p[i]);
        if ok {
            all_applied(m1, base, p, i + 1)
        } else {
            (m1, false)
        }
    }
}

/// The program in the block at `p`: segments and relocations, then the pages
/// are opened to user mode.
pub open spec fn placed(
    m: Seq<u8>,
    root: int,
    blob: Seq<u8>,
    lo: u64,
    size: u64,
    p: u64,
) -> (Seq<u8>, bool) {
    let base = p.wrapping_sub(lo);
    let (m1, ok1) = copied(m, base, phdrs(blob), 0, blob);
    if !ok1 {
        (m1, false)
    } else {
        let (m2, ok2) = all_applied(m1, base, phdrs(blob), 0);
        if !ok2 {
            (m2, false)
        } else {
            mem::mark_pages(
                m2,
                root,
                mem::page_of(p as int),
                mem::page_of(p + size + 0xFFF),
                true,
            )
        }
    }
}

/// The size of the image: whole pages from the lowest page to the highest
/// end. There is none without a loadable segment, or where the size is out of
/// bounds.
pub open spec fn image_size(blob: Seq<u8>) -> Option<(u64, u64)> {
    let p = phdrs(blob);
    let (lo, hi) = span(p, p.len() as int);
    if !is_pie(blob) || lo == u64::MAX || hi - lo > u64::MAX - 0xFFF {
        None
    } else {
        Some((lo, ((hi - lo + 0xFFF) / 0x1000 * 0x1000) as u64))
    }
}

/// Loading a program: the heap and the memory after it, and the program.
pub open spec fn loaded(h: HeapView, m: Seq<u8>, root: int, blob: Seq<u8>) -> (
    HeapView,
    Seq<u8>,
    Option<LoadedUserProgram>,
) {
    match image_size(blob) {
        None => (h, m, None),
        Some((lo, size)) => {
            let (h1, p) = h.granted(size, 0x1000);
            match p {
                None => (h1, m, None),
                Some(p) => {
                    let (m1, ok) = placed(m, root, blob, lo, size, p);
                    if !ok {
                        (h1, m1, None)
                    } else {
                        let (h2, s) = h1.granted(USER_STACK_BYTES, 0x1000);
                        match s {
                            None => (h2, m1, None),
                            Some(s) => (
                                h2,
                                mem::mark_pages(
                                    m1,
                                    root,
                                    mem::page_of(s as int),
                                    mem::page_of(s + USER_STACK_BYTES + 0xFFF),
                                    true,
                                ).0,
                                Some(
                                    LoadedUserProgram {
                                        entry: p.wrapping_sub(lo).wrapping_add(
                                            bytes::u64_at(blob, 0x18),
                                        ),
                                        stack_top: (s + USER_STACK_BYTES) as u64,
                                    },
                                ),
                            ),
                        }
                    }
                },
            }
        },
    }
}

fn read_phdr(b: &[u8], off: usize) -> (h: Phdr)
    requires
        off + 56 <= b@.len(),
    ensures
        h == phdr_at(b@, off as int),
{
    let n: usize = b.len();
    assert(off + 56 <= n);
    Phdr {
        p_type: r32(b, off),
        p_offset: r64(b, off + 8),
        p_vaddr: r64(b, off + 0x10),
        p_filesz: r64(b, off + 0x20),
        p_memsz: r64(b, off + 0x28),
    }
}

/// The program headers of a position-independent image.
fn read_headers(blob: &[u8]) -> (r: Option<Vec<Phdr>>)
    ensures
        r is Some <==> is_pie(blob@),
        r matches Some(v) ==> v@ == phdrs(blob@),
{
    let n: usize = blob.len();
    if n < 64 {
        return None;
    }
    let m: [u8; 4] = [0x7F, 69, 76, 70];
    assert(m@ =~= magic());
    if !same_bytes(&blob[0..4], &m) {
        return None;
    }
    if r16(blob, 0x10) != ET_DYN {
        return None;
    }
    let phoff: u64 = r64(blob, 0x20);
    let ent: usize = r16(blob, 0x36) as usize;
    let num: usize = r16(blob, 0x38) as usize;
    let mut out: Vec<Phdr> = Vec::new();
    if num == 0 {
        assert(out@ =~= phdrs(blob@));
        return Some(out);
    }
    if phoff > n as u64 || n as u64 - phoff < 56 {
        assert(phdr_off(blob@, 0) + 56 > n);
        return None;
    }
    let mut off: usize = phoff as usize;
    let mut i: usize = 0;
    assert(phdr_off(blob@, 0) == phoff) by (nonlinear_arith)
        requires
            phdr_off(blob@, 0) == phoff + 0 * ent,
    ;
    while i < num
        invariant
            n == blob@.len(),
            n >= 64,
            blob@.subrange(0, 4) == magic(),
            bytes::u16_at(blob@, 0x10) == ET_DYN,
            num == bytes::u16_at(blob@, 0x38),
            ent == bytes::u16_at(blob@, 0x36),
            phoff == bytes::u64_at(blob@, 0x20),
            0 <= i <= num,
            i < num ==> off == phdr_off(blob@, i as int),
            i < num ==> off + 56 <= n,
            forall|k: int| 0 <= k < i ==> #[trigger] phdr_off(blob@, k) + 56 <= n,
            out@ == phdrs(blob@).take(i as int),
        decreases num - i,
    {
        out.push(read_phdr(blob, off));
        assert(out@ =~= phdrs(blob@).take(i + 1));
        assert(phdr_off(blob@, i + 1) == phdr_off(blob@, i as int) + ent) by (nonlinear_arith)
            requires
                phdr_off(blob@, i + 1) == phoff + (i + 1) * ent,
                phdr_off(blob@, i as int) == phoff + i * ent,
        ;
        i += 1;
        if i < num {
            if ent > n - 56 - off {
                assert(phdr_off(blob@, i as int) + 56 > n);
                return None;
            }
            off += ent;
        }
    }
    assert(out@ =~= phdrs(blob@));
    Some(out)
}

/// The lowest page is not above the highest end, nor above a segment.
pub proof fn span_bounds(p: Seq<Phdr>, n: int)
    requires
        0 <= n <= p.len(),
    ensures
        span(p, n).0 == u64::MAX || span(p, n).0 <= span(p, n).1,
        forall|i: int|
            0 <= i < n && (#[trigger] p[i]).p_type == PT_LOAD ==> span(p, n).0 <= p[i].p_vaddr,
    decreases n,
{
    if n > 0 {
        span_bounds(p, n - 1);
    }
}

fn read_span(p: &Vec<Phdr>) -> (r: (u64, u64))
    ensures
        r == span(p@, p@.len() as int),
{
    let mut lo: u64 = u64::MAX;
    let mut hi: u64 = 0;
    let mut i: usize = 0;
    while i < p.len()
        invariant
            i <= p@.len(),
            (lo, hi) == span(p@, i as int),
        decreases p@.len() - i,
    {
        let h = p[i];
        if h.p_type == PT_LOAD {
            let start: u64 = h.p_vaddr / 0x1000 * 0x1000;
            let end: u64 = h.p_vaddr.saturating_add(h.p_memsz);
            if start < lo {
                lo = start;
            }
            if end > hi {
                hi = end;
            }
        }
        i += 1;
    }
    (lo, hi)
}

fn copy_segments(m: &mut [u8], base: u64, p: &Vec<Phdr>, blob: &[u8]) -> (ok: bool)
    ensures
        (final(m)@, ok) == copied(old(m)@, base, p@, 0, blob@),
        final(m)@.len() == old(m)@.len(),
{
    let n: usize = blob.len();
    let total: usize = m.len();
    let mut i: usize = 0;
    while i < p.len()
        invariant
            i <= p@.len(),
            n == blob@.len(),
            total == m@.len(),
            m@.len() == old(m)@.len(),
            copied(old(m)@, base, p@, 0, blob@) == copied(m@, base, p@, i as int, blob@),
        decreases p@.len() - i,
    {
        reveal(copied);
        let h = p[i];
        if h.p_type == PT_LOAD {
            let o: u64 = find_place(base, h.p_vaddr);
            if h.p_offset > n as u64 || h.p_filesz > n as u64 - h.p_offset {
                return false;
            }
            if o > total as u64 || h.p_filesz > total as u64 - o || h.p_memsz > total as u64 - o {
                return false;
            }
            let src: usize = h.p_offset as usize;
            let dst: usize = o as usize;
            let len: usize = h.p_filesz as usize;
            put_bytes(m, dst, &blob[src..src + len]);
            if h.p_memsz > h.p_filesz {
                zero_range(m, dst + len, (h.p_memsz - h.p_filesz) as usize);
            }
        }
        i += 1;
    }
    reveal(copied);
    true
}

fn read_dynamic(m: &[u8], d: u64, n: u64) -> (r: Option<Rela>)
    ensures
        r == dynamic(m@, d, n as int, 0, Rela { addr: 0, size: 0, ent: 24 }),
{
    let total: usize = m.len();
    let mut f = Rela { addr: 0, size: 0, ent: 24 };
    let mut i: u64 = 0;
    while i < n
        invariant
            total == m@.len(),
            i <= n,
            i > 0 ==> d + 16 * i <= total,
            dynamic(m@, d, n as int, 0, Rela { addr: 0, size: 0, ent: 24 }) == dynamic(
                m@,
                d,
                n as int,
                i as int,
                f,
            ),
        decreases n - i,
    {
        if d > total as u64 || total as u64 - d < 16 || i > (total as u64 - d - 16) / 16 {
            return None;
        }
        let o: usize = d as usize + 16 * i as usize;
        let tag: u64 = r64(m, o);
        let val: u64 = r64(m, o + 8);
        if tag == DT_NULL {
            return Some(f);
        }
        if tag == DT_RELA {
            f.addr = val;
        } else if tag == DT_RELASZ {
            f.size = val;
        } else if tag == DT_RELAENT {
            f.ent = val;
        }
        i += 1;
    }
    Some(f)
}

/// Applies the dynamic relocations of an image: a relative one writes
/// `base + addend` at `base + offset`. Only that type can occur in a fully
/// static image.
fn apply_relocations(m: &mut [u8], base: u64, h: &Phdr) -> (ok: bool)
    ensures
        (final(m)@, ok) == table_applied(old(m)@, base, *h),
        final(m)@.len() == old(m)@.len(),
{
    let f = match read_dynamic(m, find_place(base, h.p_vaddr), h.p_memsz / 16) {
        Some(f) => f,
        None => {
            return false;
        },
    };
    if f.size == 0 || f.ent < 24 {
        return true;
    }
    let total: usize = m.len();
    let r: u64 = find_place(base, f.addr);
    let mut off: u64 = 0;
    while off <= f.size && f.size - off >= 24
        invariant
            total == m@.len(),
            m@.len() == old(m)@.len(),
            f.ent >= 24,
            r == place_of(base, f.addr),
            table_applied(old(m)@, base, *h) == relocated(old(m)@, base, f, 0),
            relocated(old(m)@, base, f, 0) == relocated(m@, base, f, off as int),
        decreases
                if off <= f.size {
                    f.size - off + 1
                } else {
                    0
                },
    {
        if r > total as u64 || off > total as u64 - r || total as u64 - r - off < 24 {
            return false;
        }
        let o: usize = r as usize + off as usize;
        let place: u64 = find_place(base, r64(m, o));
        let info: u64 = r64(m, o + 8);
        let addend: u64 = r64(m, o + 16);
        if info % 0x1_0000_0000 == R_X86_64_RELATIVE {
            if total < 8 || place > total as u64 - 8 {
                return false;
            }
            w64(m, place as usize, base.wrapping_add(addend));
        }
        if f.ent > f.size - off {
            assert(relocated(m@, base, f, off + f.ent) == (m@, true));
            return true;
        }
        off += f.ent;
    }
    true
}

fn apply_all(m: &mut [u8], base: u64, p: &Vec<Phdr>) -> (ok: bool)
    ensures
        (final(m)@, ok) == all_applied(old(m)@, base, p@, 0),
        final(m)@.len() == old(m)@.len(),
{
    let mut i: usize = 0;
    while i < p.len()
        invariant
            i <= p@.len(),
            m@.len() == old(m)@.len(),
            all_applied(old(m)@, base, p@, 0) == all_applied(m@, base, p@, i as int),
        decreases p@.len() - i,
    {
        reveal(all_applied);
        if p[i].p_type == PT_DYNAMIC {
            if !apply_relocations(m, base, &p[i]) {
                return false;
            }
        }
        i += 1;
    }
    reveal(all_applied);
    true
}

fn place(
    m: &mut [u8],
    root: u64,
    blob: &[u8],
    p: &Vec<Phdr>,
    lo: u64,
    size: u64,
    block: u64,
) -> (ok: bool)
    requires
        p@ == phdrs(blob@),
        PMO <= block,
        block + size + 0x1000 <= u64::MAX,
        block - PMO + size <= old(m)@.len(),
    ensures
        (final(m)@, ok) == placed(old(m)@, root as int, blob@, lo, size, block),
        final(m)@.len() == old(m)@.len(),
{
    let base: u64 = block.wrapping_sub(lo);
    if !copy_segments(m, base, p, blob) {
        return false;
    }
    if !apply_all(m, base, p) {
        return false;
    }
    mem::mark_user_pages(m, root, block, size)
}

/// Loads a position-independent ELF64 image into heap memory and maps every
/// page of it and of a fresh user stack as ring-3 accessible. `base + vaddr`,
/// with `base = block - lowest page`, puts every segment at its runtime
/// address. Returns the entry point and the top of the user stack.
pub fn load_user_elf(h: &mut HeapAllocator, m: &mut [u8], root: u64, blob: &[u8]) -> (r: Option<
    LoadedUserProgram,
>)
    requires
        old(h).wf(),
        old(h).base + old(h).total - PMO <= old(m)@.len(),
    ensures
        final(h).wf(),
        final(m)@.len() == old(m)@.len(),
        (final(h).seen(), final(m)@, r) == loaded(old(h).seen(), old(m)@, root as int, blob@),
{
    let p = match read_headers(blob) {
        Some(p) => p,
        None => {
            return None;
        },
    };
    let (lo, hi) = read_span(&p);
    proof {
        span_bounds(p@, p@.len() as int);
    }
    if lo == u64::MAX {
        return None;
    }
    if hi - lo > u64::MAX - 0xFFF {
        return None;
    }
    let size: u64 = (hi - lo + 0xFFF) / 0x1000 * 0x1000;
    assert(image_size(blob@) == Some((lo, size)));
    let ghost h0 = h.seen();
    proof {
        heap::alloc_keeps_order(h0, size, 0x1000);
    }
    let block = match h.alloc_locked(size, 0x1000) {
        Some(b) => b,
        None => {
            return None;
        },
    };
    let ghost h1 = h.seen();
    assert(h1.holds(h1.live.last()));
    assert(heap::offset_of(0x1000) == 0x1000);
    if !place(m, root, blob, &p, lo, size, block) {
        return None;
    }
    proof {
        heap::alloc_keeps_order(h1, USER_STACK_BYTES, 0x1000);
    }
    let stack = match h.alloc_locked(USER_STACK_BYTES, 0x1000) {
        Some(s) => s,
        None => {
            return None;
        },
    };
    let ghost h2 = h.seen();
    assert(h2.holds(h2.live.last()));
    mem::mark_user_pages(m, root, stack, USER_STACK_BYTES);
    let entry: u64 = block.wrapping_sub(lo).wrapping_add(r64(blob, 0x18));
    Some(LoadedUserProgram { entry, stack_top: stack + USER_STACK_BYTES })
}

} // verus!
