//! Little-endian fields inside byte buffers.
//!
//! Every on-disk and in-memory structure of the kernel is a run of bytes. The
//! specification functions here say what a field of such a run is; the
//! executable functions read and write the fields.

use vstd::prelude::*;

verus! {

/// A run of `n` zero bytes.
pub open spec fn zero_bytes(n: nat) -> Seq<u8> {
    Seq::new(n, |i: int| 0u8)
}

/// `s` with the bytes from offset `o` on replaced by `t`.
pub open spec fn splice(s: Seq<u8>, o: int, t: Seq<u8>) -> Seq<u8> {
    Seq::new(s.len(), |i: int| if o <= i < o + t.len() { t[i - o] } else { s[i] })
}

/// The first bytes of `s`, as many as fit `room`.
pub open spec fn head(s: Seq<u8>, room: int) -> Seq<u8> {
    if room < s.len() {
        s.take(room)
    } else {
        s
    }
}

/// An optional buffer as an optional sequence.
pub open spec fn opt_view(r: Option<Vec<u8>>) -> Option<Seq<u8>> {
    match r {
        Some(v) => Some(v@),
        None => None,
    }
}

/// The 16-bit little-endian field at offset `o`.
pub open spec fn u16_at(s: Seq<u8>, o: int) -> u16 {
    (s[o] + 0x100 * s[o + 1]) as u16
}

/// The 32-bit little-endian field at offset `o`.
pub open spec fn u32_at(s: Seq<u8>, o: int) -> u32 {
    (s[o] + 0x100 * s[o + 1] + 0x1_0000 * s[o + 2] + 0x100_0000 * s[o + 3]) as u32
}

/// The 64-bit little-endian field at offset `o`.
pub open spec fn u64_at(s: Seq<u8>, o: int) -> u64 {
    (u32_at(s, o) + 0x1_0000_0000 * u32_at(s, o + 4)) as u64
}

/// The two bytes of `v`, low byte first.
pub open spec fn le16(v: u16) -> Seq<u8> {
    seq![(v % 0x100) as u8, (v / 0x100) as u8]
}

/// The four bytes of `v`, low byte first.
pub open spec fn le32(v: u32) -> Seq<u8> {
    seq![
        (v % 0x100) as u8,
        (v / 0x100 % 0x100) as u8,
        (v / 0x1_0000 % 0x100) as u8,
        (v / 0x100_0000) as u8,
    ]
}

/// The eight bytes of `v`, low byte first.
pub open spec fn le64(v: u64) -> Seq<u8> {
    le32((v % 0x1_0000_0000) as u32) + le32((v / 0x1_0000_0000) as u32)
}

/// `s` with the 16-bit field at `o` set to `v`.
pub open spec fn put16(s: Seq<u8>, o: int, v: u16) -> Seq<u8> {
    splice(s, o, le16(v))
}

/// `s` with the 32-bit field at `o` set to `v`.
pub open spec fn put32(s: Seq<u8>, o: int, v: u32) -> Seq<u8> {
    splice(s, o, le32(v))
}

/// `s` with the 64-bit field at `o` set to `v`.
pub open spec fn put64(s: Seq<u8>, o: int, v: u64) -> Seq<u8> {
    splice(s, o, le64(v))
}

/// A 16-bit field reads back what was put there.
pub proof fn put16_then_read(s: Seq<u8>, o: int, v: u16)
    requires
        0 <= o,
        o + 2 <= s.len(),
    ensures
        u16_at(put16(s, o, v), o) == v,
{
}

/// A 32-bit field reads back what was put there.
pub proof fn put32_then_read(s: Seq<u8>, o: int, v: u32)
    requires
        0 <= o,
        o + 4 <= s.len(),
    ensures
        u32_at(put32(s, o, v), o) == v,
{
    let t = put32(s, o, v);
    assert(t[o] == le32(v)[0]);
    assert(t[o + 1] == le32(v)[1]);
    assert(t[o + 2] == le32(v)[2]);
    assert(t[o + 3] == le32(v)[3]);
}

/// A 64-bit field reads back what was put there.
pub proof fn put64_then_read(s: Seq<u8>, o: int, v: u64)
    requires
        0 <= o,
        o + 8 <= s.len(),
    ensures
        u64_at(put64(s, o, v), o) == v,
{
    let lo = (v % 0x1_0000_0000) as u32;
    let hi = (v / 0x1_0000_0000) as u32;
    assert(put64(s, o, v) =~= put32(put32(s, o, lo), o + 4, hi)) by {
        assert(le64(v).len() == 8);
    }
    put32_then_read(s, o, lo);
    put32_then_read(put32(s, o, lo), o + 4, hi);
    splice_keeps_fields(put32(s, o, lo), o + 4, le32(hi), o);
}

/// A splice leaves every field outside the bytes it replaces as it was.
pub proof fn splice_keeps_fields(s: Seq<u8>, o: int, t: Seq<u8>, f: int)
    requires
        0 <= o,
        o + t.len() <= s.len(),
        0 <= f,
    ensures
        f + 2 <= s.len() && (f + 2 <= o || o + t.len() <= f) ==> u16_at(splice(s, o, t), f) == u16_at(s, f),
        f + 4 <= s.len() && (f + 4 <= o || o + t.len() <= f) ==> u32_at(splice(s, o, t), f) == u32_at(s, f),
{
}

/// A buffer of `n` zero bytes.
pub fn zeros(n: usize) -> (v: Vec<u8>)
    ensures
        v@ == zero_bytes(n as nat),
{
    let mut v: Vec<u8> = Vec::with_capacity(n);
    let mut i: usize = 0;
    while i < n
        invariant
            i <= n,
            v@ == zero_bytes(i as nat),
        decreases n - i,
    {
        v.push(0);
        i += 1;
        assert(v@ =~= zero_bytes(i as nat));
    }
    v
}

/// An owned copy of `s`.
pub fn copy_of(s: &[u8]) -> (v: Vec<u8>)
    ensures
        v@ == s@,
{
    let mut v: Vec<u8> = Vec::with_capacity(s.len());
    let mut i: usize = 0;
    while i < s.len()
        invariant
            i <= s@.len(),
            v@ == s@.take(i as int),
        decreases s@.len() - i,
    {
        v.push(s[i]);
        i += 1;
        assert(v@ =~= s@.take(i as int));
    }
    assert(s@.take(s@.len() as int) =~= s@);
    v
}

/// An owned copy of the `n` bytes of `s` from offset `o` on.
pub fn copy_range(s: &[u8], o: usize, n: usize) -> (v: Vec<u8>)
    requires
        o + n <= s@.len(),
    ensures
        v@ == s@.subrange(o as int, o + n),
{
    let total: usize = s.len();
    assert(o + n <= total);
    copy_of(&s[o..o + n])
}

pub fn r16(b: &[u8], o: usize) -> (v: u16)
    requires
        o + 2 <= b@.len(),
    ensures
        v == u16_at(b@, o as int),
{
    b[o] as u16 + 0x100 * (b[o + 1] as u16)
}

pub fn r32(b: &[u8], o: usize) -> (v: u32)
    requires
        o + 4 <= b@.len(),
    ensures
        v == u32_at(b@, o as int),
{
    b[o] as u32 + 0x100 * (b[o + 1] as u32) + 0x1_0000 * (b[o + 2] as u32) + 0x100_0000 * (b[o
        + 3] as u32)
}

pub fn r64(b: &[u8], o: usize) -> (v: u64)
    requires
        o + 8 <= b@.len(),
    ensures
        v == u64_at(b@, o as int),
{
    let total: usize = b.len();
    assert(o + 8 <= total);
    r32(b, o) as u64 + 0x1_0000_0000 * (r32(b, o + 4) as u64)
}

/// Overwrites the bytes of `b` from offset `o` on with `t`.
pub fn put_bytes(b: &mut [u8], o: usize, t: &[u8])
    requires
        o + t@.len() <= old(b)@.len(),
    ensures
        final(b)@ == splice(old(b)@, o as int, t@),
{
    let total: usize = b.len();
    let mut i: usize = 0;
    while i < t.len()
        invariant
            i <= t@.len(),
            o + t@.len() <= old(b)@.len(),
            old(b)@.len() == total,
            b@ == splice(old(b)@, o as int, t@.take(i as int)),
        decreases t@.len() - i,
    {
        b[o + i] = t[i];
        i += 1;
        assert(b@ =~= splice(old(b)@, o as int, t@.take(i as int)));
    }
    assert(t@.take(t@.len() as int) =~= t@);
    assert(b@ =~= splice(old(b)@, o as int, t@));
}

pub fn w16(b: &mut [u8], o: usize, v: u16)
    requires
        o + 2 <= old(b)@.len(),
    ensures
        final(b)@ == put16(old(b)@, o as int, v),
{
    b[o] = (v % 0x100) as u8;
    b[o + 1] = (v / 0x100) as u8;
    assert(b@ =~= put16(old(b)@, o as int, v));
}

pub fn w32(b: &mut [u8], o: usize, v: u32)
    requires
        o + 4 <= old(b)@.len(),
    ensures
        final(b)@ == put32(old(b)@, o as int, v),
{
    b[o] = (v % 0x100) as u8;
    b[o + 1] = (v / 0x100 % 0x100) as u8;
    b[o + 2] = (v / 0x1_0000 % 0x100) as u8;
    b[o + 3] = (v / 0x100_0000) as u8;
    assert(b@ =~= put32(old(b)@, o as int, v));
}

pub fn w64(b: &mut [u8], o: usize, v: u64)
    requires
        o + 8 <= old(b)@.len(),
    ensures
        final(b)@ == put64(old(b)@, o as int, v),
{
    let total: usize = b.len();
    assert(o + 8 <= total);
    w32(b, o, (v % 0x1_0000_0000) as u32);
    w32(b, o + 4, (v / 0x1_0000_0000) as u32);
    assert(b@ =~= put64(old(b)@, o as int, v));
}

/// Sets the `n` bytes of `b` from offset `o` on to zero.
pub fn zero_range(b: &mut [u8], o: usize, n: usize)
    requires
        o + n <= old(b)@.len(),
    ensures
        final(b)@ == splice(old(b)@, o as int, zero_bytes(n as nat)),
{
    let z = zeros(n);
    put_bytes(b, o, &z);
}

/// The two buffers hold the same bytes.
pub fn same_bytes(a: &[u8], b: &[u8]) -> (r: bool)
    ensures
        r == (a@ == b@),
{
    if a.len() != b.len() {
        return false;
    }
    let mut i: usize = 0;
    while i < a.len()
        invariant
            a@.len() == b@.len(),
            i <= a@.len(),
            forall|k: int| 0 <= k < i ==> a@[k] == b@[k],
        decreases a@.len() - i,
    {
        if a[i] != b[i] {
            assert(a@[i as int] != b@[i as int]);
            return false;
        }
        i += 1;
    }
    assert(a@ =~= b@);
    true
}

} // verus!
