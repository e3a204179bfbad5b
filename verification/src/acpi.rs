//! ACPI tables: finding the root table and the tables that it lists.
//!
//! Physical memory is a run of bytes, indexed by physical address.

use vstd::prelude::*;
use crate::bytes::{copy_range, r32, r64, same_bytes};
use crate::bytes;
use crate::mem::{MemoryRegion, RegionKind};
use crate::pci::lines_view;
use crate::text;
use crate::text::{chars_of, push_hex, push_str};

verus! {

/// Where physical memory starts in the virtual address space.
pub const PMO: u64 = 0xFFFF_8000_0000_0000;

/// The length of the header of a table.
pub const HEADER_BYTES: usize = 36;

/// The longest table that is read.
pub const TABLE_LIMIT: usize = 65536;

pub const MAX_TABLES: usize = 32;

/// The header that every table starts with.
pub struct SdtHeader {
    pub sig: Vec<u8>,
    pub len: u32,
    pub revision: u8,
}

/// A table: its signature and where it stands.
pub struct AcpiTable {
    pub sig: Vec<u8>,
    pub addr: u64,
}

/// The tables of the machine.
pub struct Acpi {
    pub revision: u8,
    pub xsdt: bool,
    pub root_sig: Vec<u8>,
    pub root_addr: u64,
    pub tables: Vec<AcpiTable>,
    pub table_count: usize,
}

/// The virtual address of a physical one, if it has one.
pub fn ptr(phys_addr: u64) -> (v: Option<u64>)
    ensures
        v == (if phys_addr + PMO <= u64::MAX {
            Some((phys_addr + PMO) as u64)
        } else {
            None
        }),
{
    phys_addr.checked_add(PMO)
}

/// The sum of the bytes.
pub open spec fn total(b: Seq<u8>) -> int
    decreases b.len(),
{
    if b.len() == 0 {
        0
    } else {
        total(b.drop_last()) + b.last()
    }
}

/// The bytes add up to zero modulo 256.
fn checksum_ok(b: &[u8]) -> (r: bool)
    ensures
        r == (total(b@) % 256 == 0),
{
    let mut a: u8 = 0;
    let mut k: usize = 0;
    assert(b@.take(0) =~= Seq::<u8>::empty());
    while k < b.len()
        invariant
            k <= b@.len(),
            a == total(b@.take(k as int)) % 256,
        decreases b@.len() - k,
    {
        assert(b@.take(k + 1).drop_last() =~= b@.take(k as int));
        a = a.wrapping_add(b[k]);
        k += 1;
    }
    assert(b@.take(b@.len() as int) =~= b@);
    a == 0
}

/// A whole table stands at the address: its length is within bounds, it lies
/// in memory, and its bytes add up to zero.
pub open spec fn is_table(mem: Seq<u8>, addr: int) -> bool {
    let len = bytes::u32_at(mem, addr + 4);
    &&& addr != 0
    &&& addr + HEADER_BYTES <= mem.len()
    &&& len <= TABLE_LIMIT
    &&& addr + len <= mem.len()
    &&& total(mem.subrange(addr, addr + len)) % 256 == 0
}

pub open spec fn sig_at(mem: Seq<u8>, addr: int) -> Seq<u8> {
    mem.subrange(addr, addr + 4)
}

/// The header of the table at the address, if one is there.
fn sdt_at(mem: &[u8], addr: u64) -> (r: Option<SdtHeader>)
    ensures
        r is Some <==> is_table(mem@, addr as int),
        r matches Some(h) ==> {
            &&& h.sig@ == sig_at(mem@, addr as int)
            &&& h.len == bytes::u32_at(mem@, addr + 4)
            &&& h.revision == mem@[addr + 8]
        },
{
    let n: usize = mem.len();
    if addr == 0 || addr > n as u64 || n as u64 - addr < HEADER_BYTES as u64 {
        return None;
    }
    let a: usize = addr as usize;
    let len: u32 = r32(mem, a + 4);
    if len as usize > TABLE_LIMIT || len as usize > n - a {
        return None;
    }
    if !checksum_ok(&mem[a..a + len as usize]) {
        return None;
    }
    Some(SdtHeader { sig: copy_range(mem, a, 4), len, revision: mem[a + 8] })
}

pub open spec fn xsdt_sig() -> Seq<u8> {
    seq![88u8, 83, 68, 84]
}

pub open spec fn rsdt_sig() -> Seq<u8> {
    seq![82u8, 83, 68, 84]
}

pub open spec fn is_root(mem: Seq<u8>, addr: int) -> bool {
    &&& addr + 4 <= mem.len()
    &&& sig_at(mem, addr) == xsdt_sig() || sig_at(mem, addr) == rsdt_sig()
    &&& is_table(mem, addr)
}

/// The first root table from `a` on, in steps of 16 bytes, before `end`.
pub open spec fn root_from(mem: Seq<u8>, a: int, end: int) -> Option<u64>
    decreases end + 16 - a,
{
    if a >= end || a < 0 {
        None
    } else if is_root(mem, a) {
        Some(a as u64)
    } else {
        root_from(mem, a + 16, end)
    }
}

/// Where the last 64 KiB of a region start.
pub open spec fn tail_of(r: MemoryRegion) -> int {
    if r.end - 0x1_0000 < r.start {
        r.start as int
    } else {
        r.end - 0x1_0000
    }
}

/// The first root table in the last 64 KiB of a usable region.
pub open spec fn root_in(mem: Seq<u8>, regions: Seq<MemoryRegion>) -> Option<u64>
    decreases regions.len(),
{
    if regions.len() == 0 {
        None
    } else if regions[0].kind == RegionKind::Usable && root_from(mem, tail_of(regions[0]), regions[0].end as int)
        is Some {
        root_from(mem, tail_of(regions[0]), regions[0].end as int)
    } else {
        root_in(mem, regions.skip(1))
    }
}

fn sig_is(mem: &[u8], a: usize, s: &[u8]) -> (r: bool)
    requires
        a + 4 <= mem@.len(),
    ensures
        r == (sig_at(mem@, a as int) == s@),
{
    let n: usize = mem.len();
    assert(a + 4 <= n);
    same_bytes(&mem[a..a + 4], s)
}

fn find_in(mem: &[u8], from: u64, end: u64) -> (r: Option<u64>)
    ensures
        r == root_from(mem@, from as int, end as int),
{
    let mut a: u64 = from;
    let xs: [u8; 4] = [88, 83, 68, 84];
    let rs: [u8; 4] = [82, 83, 68, 84];
    assert(xs@ =~= xsdt_sig());
    assert(rs@ =~= rsdt_sig());
    let n: usize = mem.len();
    while a < end
        invariant
            root_from(mem@, from as int, end as int) == root_from(mem@, a as int, end as int),
            xs@ == xsdt_sig(),
            rs@ == rsdt_sig(),
            n == mem@.len(),
        decreases end - a,
    {
        if a < n as u64 && n as u64 - a >= 4 && (sig_is(mem, a as usize, &xs) || sig_is(
            mem,
            a as usize,
            &rs,
        )) {
            if sdt_at(mem, a).is_some() {
                return Some(a);
            }
        }
        if end - a <= 16 {
            assert(root_from(mem@, a + 16, end as int) is None);
            return None;
        }
        a += 16;
    }
    None
}

fn find_root(mem: &[u8], regions: &Vec<MemoryRegion>) -> (r: Option<u64>)
    ensures
        r == root_in(mem@, regions@),
{
    let mut k: usize = 0;
    assert(regions@.skip(0) =~= regions@);
    while k < regions.len()
        invariant
            k <= regions@.len(),
            root_in(mem@, regions@) == root_in(mem@, regions@.skip(k as int)),
        decreases regions@.len() - k,
    {
        assert(regions@.skip(k as int).skip(1) =~= regions@.skip(k + 1));
        let g = regions[k];
        if g.kind == RegionKind::Usable {
            let tail: u64 = g.end.saturating_sub(0x1_0000);
            let from: u64 = if tail < g.start {
                g.start
            } else {
                tail
            };
            let found = find_in(mem, from, g.end);
            if found.is_some() {
                return found;
            }
        }
        k += 1;
    }
    None
}

pub open spec fn rsdp_sig() -> Seq<u8> {
    seq![82u8, 83, 68, 32, 80, 84, 82, 32]
}

/// A root pointer stands at the address.
pub open spec fn is_rsdp(mem: Seq<u8>, p: int) -> bool {
    &&& p + 36 <= mem.len()
    &&& mem.subrange(p, p + 8) == rsdp_sig()
    &&& total(mem.subrange(p, p + 20)) % 256 == 0
}

/// The address of the root table: what the root pointer names, where there is
/// a root pointer, and otherwise what a search of the memory finds.
pub open spec fn root_of(
    mem: Seq<u8>,
    rsdp: Option<u64>,
    regions: Seq<MemoryRegion>,
) -> Option<u64> {
    match rsdp {
        Some(p) if is_rsdp(mem, p as int) => {
            let a = if mem[p + 15] >= 2 {
                bytes::u64_at(mem, p + 24)
            } else {
                bytes::u32_at(mem, p + 16) as u64
            };
            if is_table(mem, a as int) {
                Some(a)
            } else {
                None
            }
        },
        _ => root_in(mem, regions),
    }
}

fn locate(mem: &[u8], rsdp: Option<u64>, regions: &Vec<MemoryRegion>) -> (r: Option<u64>)
    ensures
        r == root_of(mem@, rsdp, regions@),
{
    let n: usize = mem.len();
    if let Some(p) = rsdp {
        if p < n as u64 && n as u64 - p >= 36 {
            let a: usize = p as usize;
            let name: [u8; 8] = [82, 83, 68, 32, 80, 84, 82, 32];
            assert(name@ =~= rsdp_sig());
            if same_bytes(&mem[a..a + 8], &name) && checksum_ok(&mem[a..a + 20]) {
                let root: u64 = if mem[a + 15] >= 2 {
                    r64(mem, a + 24)
                } else {
                    r32(mem, a + 16) as u64
                };
                if sdt_at(mem, root).is_some() {
                    return Some(root);
                }
                return None;
            }
        }
    }
    find_root(mem, regions)
}

/// The entry `i` of the root table.
pub open spec fn entry_at(mem: Seq<u8>, root: int, xsdt: bool, i: int) -> u64 {
    if xsdt {
        bytes::u64_at(mem, root + 36 + i * 8)
    } else {
        bytes::u32_at(mem, root + 36 + i * 4) as u64
    }
}

/// The number of entries of the root table that are read.
pub open spec fn entry_count(mem: Seq<u8>, root: int, xsdt: bool) -> int {
    let room = bytes::u32_at(mem, root + 4) - 36;
    let n = if xsdt {
        room / 8
    } else {
        room / 4
    };
    if n > MAX_TABLES {
        MAX_TABLES as int
    } else {
        n
    }
}

/// The tables that the first `n` entries of the root table name.
pub open spec fn listed(mem: Seq<u8>, root: int, xsdt: bool, n: int) -> Seq<(Seq<u8>, u64)>
    decreases n,
{
    if n <= 0 {
        Seq::empty()
    } else {
        let before = listed(mem, root, xsdt, n - 1);
        let e = entry_at(mem, root, xsdt, n - 1);
        if is_table(mem, e as int) {
            before.push((sig_at(mem, e as int), e))
        } else {
            before
        }
    }
}

pub open spec fn tables_view(t: Seq<AcpiTable>) -> Seq<(Seq<u8>, u64)> {
    Seq::new(t.len(), |i: int| (t[i].sig@, t[i].addr))
}

/// What is known of the machine when its root table stands at `root`.
pub open spec fn describes(a: Acpi, mem: Seq<u8>, root: u64) -> bool {
    let xsdt = sig_at(mem, root as int) == xsdt_sig();
    &&& a.root_addr == root
    &&& a.root_sig@ == sig_at(mem, root as int)
    &&& a.xsdt == xsdt
    &&& a.revision == if xsdt {
        2u8
    } else {
        1u8
    }
    &&& tables_view(a.tables@) == listed(
        mem,
        root as int,
        xsdt,
        entry_count(mem, root as int, xsdt),
    )
    &&& a.table_count == a.tables@.len()
}

/// Reads the tables. There is no answer where no root table is found or the
/// root table is shorter than its own header.
pub fn init(mem: &[u8], rsdp: Option<u64>, regions: &Vec<MemoryRegion>) -> (r: Option<Acpi>)
    ensures
        r is Some <==> (root_of(mem@, rsdp, regions@) matches Some(root) && bytes::u32_at(
            mem@,
            root + 4,
        ) >= 36),
        r matches Some(a) ==> describes(a, mem@, root_of(mem@, rsdp, regions@)->0),
{
    let root = match locate(mem, rsdp, regions) {
        Some(a) => a,
        None => {
            return None;
        },
    };
    proof {
        root_is_table(mem@, rsdp, regions@);
    }
    let h = match sdt_at(mem, root) {
        Some(h) => h,
        None => {
            return None;
        },
    };
    if h.len < 36 {
        return None;
    }
    let xs: [u8; 4] = [88, 83, 68, 84];
    assert(xs@ =~= xsdt_sig());
    let xsdt: bool = same_bytes(&h.sig, &xs);
    let n_mem: usize = mem.len();
    assert(root + h.len <= n_mem);
    let base: usize = root as usize;
    let room: usize = h.len as usize - 36;
    let all: usize = if xsdt {
        room / 8
    } else {
        room / 4
    };
    let n: usize = if all > MAX_TABLES {
        MAX_TABLES
    } else {
        all
    };
    let mut tables: Vec<AcpiTable> = Vec::new();
    let mut i: usize = 0;
    assert(tables_view(tables@) =~= listed(mem@, root as int, xsdt, 0));
    while i < n
        invariant
            i <= n <= MAX_TABLES,
            base == root,
            n_mem == mem@.len(),
            n == entry_count(mem@, root as int, xsdt),
            is_table(mem@, root as int),
            bytes::u32_at(mem@, root + 4) == room + 36,
            tables@.len() <= i,
            tables_view(tables@) == listed(mem@, root as int, xsdt, i as int),
        decreases n - i,
    {
        let e: u64 = if xsdt {
            r64(mem, base + 36 + i * 8)
        } else {
            r32(mem, base + 36 + i * 4) as u64
        };
        if let Some(t) = sdt_at(mem, e) {
            let ghost before = tables_view(tables@);
            tables.push(AcpiTable { sig: t.sig, addr: e });
            assert(tables_view(tables@) =~= before.push((sig_at(mem@, e as int), e)));
        }
        i += 1;
    }
    let count: usize = tables.len();
    Some(
        Acpi {
            revision: if xsdt {
                2
            } else {
                1
            },
            xsdt,
            root_sig: h.sig,
            root_addr: root,
            tables,
            table_count: count,
        },
    )
}

proof fn root_from_is_table(mem: Seq<u8>, a: int, end: int)
    requires
        end <= u64::MAX,
    ensures
        root_from(mem, a, end) matches Some(r) ==> is_table(mem, r as int),
    decreases end + 16 - a,
{
    if a < end && a >= 0 && !is_root(mem, a) {
        root_from_is_table(mem, a + 16, end);
    }
}

proof fn root_in_is_table(mem: Seq<u8>, regions: Seq<MemoryRegion>)
    ensures
        root_in(mem, regions) matches Some(r) ==> is_table(mem, r as int),
    decreases regions.len(),
{
    if regions.len() > 0 {
        root_from_is_table(mem, tail_of(regions[0]), regions[0].end as int);
        root_in_is_table(mem, regions.skip(1));
    }
}

/// Whichever way the root table is found, it is a whole table with a valid
/// checksum.
pub proof fn root_is_table(mem: Seq<u8>, rsdp: Option<u64>, regions: Seq<MemoryRegion>)
    ensures
        root_of(mem, rsdp, regions) matches Some(r) ==> is_table(mem, r as int),
{
    root_in_is_table(mem, regions);
}

/// The first table with the signature.
pub open spec fn found(t: Seq<(Seq<u8>, u64)>, sig: Seq<u8>) -> Option<u64>
    decreases t.len(),
{
    if t.len() == 0 {
        None
    } else if t[0].0 == sig {
        Some(t[0].1)
    } else {
        found(t.skip(1), sig)
    }
}

/// The address of the first table with the signature.
pub fn find(acpi: &Acpi, sig: &[u8]) -> (r: Option<u64>)
    ensures
        r == found(tables_view(acpi.tables@), sig@),
{
    let ghost all = tables_view(acpi.tables@);
    let mut k: usize = 0;
    assert(all.skip(0) =~= all);
    while k < acpi.tables.len()
        invariant
            k <= acpi.tables@.len(),
            all == tables_view(acpi.tables@),
            found(all, sig@) == found(all.skip(k as int), sig@),
        decreases acpi.tables@.len() - k,
    {
        assert(all.skip(k as int).skip(1) =~= all.skip(k + 1));
        assert(all.skip(k as int)[0] == all[k as int]);
        if same_bytes(&acpi.tables[k].sig, sig) {
            return Some(acpi.tables[k].addr);
        }
        k += 1;
    }
    None
}

// ---------- messages ----------

/// A signature as text.
pub open spec fn sig_text(sig: Seq<u8>) -> Seq<char> {
    if vstd::utf8::valid_utf8(sig) {
        vstd::utf8::decode_utf8(sig)
    } else {
        "????"@
    }
}

fn show_sig(sig: &[u8]) -> (v: Vec<char>)
    ensures
        v@ == sig_text(sig@),
{
    match text::from_utf8(sig) {
        Some(s) => chars_of(&s),
        None => chars_of("????"),
    }
}

/// The lines that the boot log shows for the tables.
pub open spec fn boot_text(a: Acpi) -> Seq<Seq<char>> {
    seq![
        "ACPI: root "@ + sig_text(a.root_sig@) + " at 0x"@ + text::hex(a.root_addr as nat, 0),
    ] + Seq::new(a.tables@.len(), |i: int| "ACPI: "@ + sig_text(a.tables@[i].sig@))
}

pub fn boot_lines(a: &Acpi) -> (out: Vec<Vec<char>>)
    ensures
        lines_view(out@) == boot_text(*a),
{
    let mut out: Vec<Vec<char>> = Vec::new();
    let mut head = chars_of("ACPI: root ");
    text::push_all(&mut head, &show_sig(&a.root_sig));
    push_str(&mut head, " at 0x");
    push_hex(&mut head, a.root_addr, 0);
    out.push(head);
    let mut k: usize = 0;
    while k < a.tables.len()
        invariant
            k <= a.tables@.len(),
            out@.len() == k + 1,
            forall|i: int| 0 <= i <= k ==> #[trigger] out@[i]@ == boot_text(*a)[i],
        decreases a.tables@.len() - k,
    {
        let mut line = chars_of("ACPI: ");
        text::push_all(&mut line, &show_sig(&a.tables[k].sig));
        out.push(line);
        k += 1;
    }
    assert(lines_view(out@) =~= boot_text(*a));
    out
}

// ---------- laws ----------

/// The address that entry `i` of the root table holds: 64 bits of an extended
/// table, 32 bits of another, behind the 36 bytes of the header.
pub open spec fn named_address(mem: Seq<u8>, root: int, xsdt: bool, i: int) -> int {
    if xsdt {
        bytes::u64_at(mem, root + 36 + 8 * i) as int
    } else {
        bytes::u32_at(mem, root + 36 + 4 * i) as int
    }
}

/// The tables that are known are the valid ones that the first entries of the
/// root table name, each with its signature and in their order.
pub proof fn named_tables_are_listed(mem: Seq<u8>, root: int, xsdt: bool, n: int)
    requires
        0 <= n,
    ensures
        forall|k: int|
            0 <= k < listed(mem, root, xsdt, n).len() ==> exists|i: int|
                0 <= i < n && #[trigger] named_address(mem, root, xsdt, i) == (#[trigger] listed(
                    mem,
                    root,
                    xsdt,
                    n,
                )[k]).1 && is_table(mem, named_address(mem, root, xsdt, i)),
        forall|k: int|
            0 <= k < listed(mem, root, xsdt, n).len() ==> (#[trigger] listed(
                mem,
                root,
                xsdt,
                n,
            )[k]).0 == mem.subrange(
                listed(mem, root, xsdt, n)[k].1 as int,
                listed(mem, root, xsdt, n)[k].1 + 4,
            ),
        forall|i: int|
            0 <= i < n && is_table(mem, #[trigger] named_address(mem, root, xsdt, i)) ==> exists|k: int|
                0 <= k < listed(mem, root, xsdt, n).len() && (#[trigger] listed(
                    mem,
                    root,
                    xsdt,
                    n,
                )[k]).1 == named_address(mem, root, xsdt, i),
        n > 0 ==> listed(mem, root, xsdt, n - 1) == listed(mem, root, xsdt, n).take(
            listed(mem, root, xsdt, n - 1).len() as int,
        ),
    decreases n,
{
    let all = listed(mem, root, xsdt, n);
    if n > 0 {
        named_tables_are_listed(mem, root, xsdt, n - 1);
        let before = listed(mem, root, xsdt, n - 1);
        let last = named_address(mem, root, xsdt, n - 1);
        assert(entry_at(mem, root, xsdt, n - 1) == last);
        assert(all.take(before.len() as int) =~= before);
        assert forall|k: int| 0 <= k < all.len() implies exists|i: int|
            0 <= i < n && #[trigger] named_address(mem, root, xsdt, i) == (#[trigger] all[k]).1
                && is_table(mem, named_address(mem, root, xsdt, i)) by {
            if k < before.len() {
                assert(all[k] == before[k]);
                let i = choose|i: int|
                    0 <= i < n - 1 && #[trigger] named_address(mem, root, xsdt, i) == before[k].1
                        && is_table(mem, named_address(mem, root, xsdt, i));
                assert(named_address(mem, root, xsdt, i) == all[k].1);
            } else {
                assert(named_address(mem, root, xsdt, n - 1) == all[k].1);
            }
        }
        assert forall|k: int| 0 <= k < all.len() implies (#[trigger] all[k]).0 == mem.subrange(
            all[k].1 as int,
            all[k].1 + 4,
        ) by {
            if k < before.len() {
                assert(all[k] == before[k]);
            }
        }
        assert forall|i: int|
            0 <= i < n && is_table(mem, #[trigger] named_address(mem, root, xsdt, i)) implies exists|
            k: int,
        |
            0 <= k < all.len() && (#[trigger] all[k]).1 == named_address(mem, root, xsdt, i) by {
            if i < n - 1 {
                let k = choose|k: int|
                    0 <= k < before.len() && (#[trigger] before[k]).1 == named_address(
                        mem,
                        root,
                        xsdt,
                        i,
                    );
                assert(all[k] == before[k]);
            } else {
                assert(all[before.len() as int].1 == last);
            }
        }
    }
}

/// What is found is the address of the first table with the signature; nothing is
/// found where no table has it.
pub proof fn first_table_is_found(t: Seq<(Seq<u8>, u64)>, sig: Seq<u8>)
    ensures
        match found(t, sig) {
            Some(a) => exists|k: int|
                0 <= k < t.len() && (#[trigger] t[k]) == (sig, a) && forall|j: int|
                    0 <= j < k ==> (#[trigger] t[j]).0 != sig,
            None => forall|k: int| 0 <= k < t.len() ==> (#[trigger] t[k]).0 != sig,
        },
    decreases t.len(),
{
    if t.len() > 0 && t[0].0 != sig {
        let rest = t.skip(1);
        first_table_is_found(rest, sig);
        match found(t, sig) {
            Some(a) => {
                let k = choose|k: int|
                    0 <= k < rest.len() && (#[trigger] rest[k]) == (sig, a) && forall|j: int|
                        0 <= j < k ==> (#[trigger] rest[j]).0 != sig;
                assert(t[k + 1] == (sig, a));
                assert forall|j: int| 0 <= j < k + 1 implies (#[trigger] t[j]).0 != sig by {
                    if j > 0 {
                        assert(rest[j - 1] == t[j]);
                    }
                }
            },
            None => {
                assert forall|k: int| 0 <= k < t.len() implies (#[trigger] t[k]).0 != sig by {
                    if k > 0 {
                        assert(rest[k - 1] == t[k]);
                    }
                }
            },
        }
    } else if t.len() > 0 {
        assert(t[0] == (sig, t[0].1));
    }
}

} // verus!
