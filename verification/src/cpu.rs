//! What the processor says of itself.

use vstd::prelude::*;
use crate::bytes;
use crate::bytes::{w32, zeros};

verus! {

/// The registers after the identification instruction.
#[derive(Clone, Copy, PartialEq, Eq, Debug, Structural)]
pub struct CpuIdResult {
    pub eax: u32,
    pub ebx: u32,
    pub ecx: u32,
    pub edx: u32,
}

/// The name of the vendor, from leaf 0.
pub fn cpu_vendor(r: &CpuIdResult) -> (v: Vec<u8>)
    ensures
        v@ == bytes::le32(r.ebx) + bytes::le32(r.edx) + bytes::le32(r.ecx),
{
    let mut v = zeros(12);
    w32(&mut v, 0, r.ebx);
    w32(&mut v, 4, r.edx);
    w32(&mut v, 8, r.ecx);
    assert(v@ =~= bytes::le32(r.ebx) + bytes::le32(r.edx) + bytes::le32(r.ecx));
    v
}

/// The model, from leaf 1.
pub fn cpu_model(r: &CpuIdResult) -> (m: u32)
    ensures
        m == r.eax,
{
    r.eax
}

/// The leaf from which on the brand string is there.
pub const BRAND_LEAF: u32 = 0x8000_0004;

pub open spec fn leaf_bytes(r: CpuIdResult) -> Seq<u8> {
    bytes::le32(r.eax) + bytes::le32(r.ebx) + bytes::le32(r.ecx) + bytes::le32(r.edx)
}

/// The brand string, from its three leaves; zeros where the highest leaf is
/// below them.
pub fn cpu_brand(highest: u32, a: &CpuIdResult, b: &CpuIdResult, c: &CpuIdResult) -> (v: Vec<u8>)
    ensures
        v@ == (if highest >= BRAND_LEAF {
            leaf_bytes(*a) + leaf_bytes(*b) + leaf_bytes(*c)
        } else {
            bytes::zero_bytes(48)
        }),
{
    let mut v = zeros(48);
    if highest < BRAND_LEAF {
        return v;
    }
    w32(&mut v, 0, a.eax);
    w32(&mut v, 4, a.ebx);
    w32(&mut v, 8, a.ecx);
    w32(&mut v, 12, a.edx);
    w32(&mut v, 16, b.eax);
    w32(&mut v, 20, b.ebx);
    w32(&mut v, 24, b.ecx);
    w32(&mut v, 28, b.edx);
    w32(&mut v, 32, c.eax);
    w32(&mut v, 36, c.ebx);
    w32(&mut v, 40, c.ecx);
    w32(&mut v, 44, c.edx);
    assert(v@ =~= leaf_bytes(*a) + leaf_bytes(*b) + leaf_bytes(*c));
    v
}

} // verus!
