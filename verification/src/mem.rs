//! Physical memory: its regions, and the page tables in it.

use vstd::prelude::*;
use crate::bytes;
use crate::bytes::{r64, w64};

verus! {

/// What a region of memory is for.
#[derive(Clone, Copy, PartialEq, Eq, Debug, Structural)]
pub enum RegionKind {
    Usable,
    Bootloader,
    UnknownUefi(u32),
    UnknownBios(u32),
}

/// A region of the memory map.
#[derive(Clone, Copy, PartialEq, Eq, Debug, Structural)]
pub struct MemoryRegion {
    pub start: u64,
    pub end: u64,
    pub kind: RegionKind,
}

pub const PAGE: u64 = 0x1000;

/// The bits of an entry that hold a physical address.
pub open spec fn frame_of(e: u64) -> u64 {
    (e % 0x10_0000_0000_0000 / 0x1000 * 0x1000) as u64
}

pub open spec fn present(e: u64) -> bool {
    e % 2 == 1
}

pub open spec fn user(e: u64) -> bool {
    e / 4 % 2 == 1
}

pub open spec fn huge(e: u64) -> bool {
    e / 128 % 2 == 1
}

/// The entry with the user bit set and the no-execute bit clear.
pub open spec fn opened(e: u64) -> u64 {
    let x = e % 0x8000_0000_0000_0000;
    if x / 4 % 2 == 1 {
        x
    } else {
        (x + 4) as u64
    }
}

/// The index into the table of level `level` (4 is the root) for an address.
pub open spec fn index_at(vaddr: u64, level: nat) -> int {
    if level == 4 {
        vaddr as int / 0x80_0000_0000 % 512
    } else if level == 3 {
        vaddr as int / 0x4000_0000 % 512
    } else if level == 2 {
        vaddr as int / 0x20_0000 % 512
    } else {
        vaddr as int / 0x1000 % 512
    }
}

/// Where the entry for an address stands in the table at `table`.
pub open spec fn entry_addr(table: int, vaddr: u64, level: nat) -> int {
    table + 8 * index_at(vaddr, level)
}

/// The entry maps a page itself: it is at the last level, or a huge page of
/// one of the two levels that can hold one.
pub open spec fn leaf(e: u64, level: nat) -> bool {
    level <= 1 || (level <= 3 && huge(e))
}

/// Opens the chain of entries for an address to user mode, from the table at
/// `table` down. The walk ends without success at an entry that is not
/// present, or that does not lie in memory.
#[verifier::opaque]
pub open spec fn mark_from(mem: Seq<u8>, table: int, vaddr: u64, level: nat) -> (Seq<u8>, bool)
    decreases level,
{
    let at = entry_addr(table, vaddr, level);
    if level == 0 || table < 0 || at + 8 > mem.len() {
        (mem, false)
    } else {
        let e = bytes::u64_at(mem, at);
        if !present(e) {
            (mem, false)
        } else {
            let m = bytes::put64(mem, at, opened(e));
            if leaf(e, level) {
                (m, true)
            } else {
                mark_from(m, frame_of(e) as int, vaddr, (level - 1) as nat)
            }
        }
    }
}

fn index_of(vaddr: u64, level: u8) -> (i: usize)
    requires
        1 <= level <= 4,
    ensures
        i == index_at(vaddr, level as nat),
        i < 512,
{
    if level == 4 {
        (vaddr / 0x80_0000_0000 % 512) as usize
    } else if level == 3 {
        (vaddr / 0x4000_0000 % 512) as usize
    } else if level == 2 {
        (vaddr / 0x20_0000 % 512) as usize
    } else {
        (vaddr / 0x1000 % 512) as usize
    }
}

/// Where the entry for an address stands, if it lies in memory.
fn slot(n: usize, table: u64, vaddr: u64, level: u8) -> (r: Option<usize>)
    requires
        1 <= level <= 4,
    ensures
        r == (if entry_addr(table as int, vaddr, level as nat) + 8 <= n {
            Some(entry_addr(table as int, vaddr, level as nat) as usize)
        } else {
            None
        }),
{
    let i: usize = index_of(vaddr, level);
    if table > n as u64 {
        return None;
    }
    let left: u64 = n as u64 - table;
    if left < 8 * (i as u64) + 8 {
        None
    } else {
        Some(table as usize + 8 * i)
    }
}

/// Marks the page table chain so that ring 3 can access the page containing
/// `vaddr`. Every level of the walk carries the user bit afterwards.
fn mark_one_page(mem: &mut [u8], root: u64, vaddr: u64) -> (ok: bool)
    ensures
        (final(mem)@, ok) == mark_from(old(mem)@, root as int, vaddr, 4),
        final(mem)@.len() == old(mem)@.len(),
{
    let mut level: u8 = 4;
    let mut table: u64 = root;
    let n: usize = mem.len();
    while level > 0
        invariant
            level <= 4,
            n == mem@.len(),
            mem@.len() == old(mem)@.len(),
            mark_from(old(mem)@, root as int, vaddr, 4) == mark_from(
                mem@,
                table as int,
                vaddr,
                level as nat,
            ),
        decreases level,
    {
        reveal(mark_from);
        let at = match slot(n, table, vaddr, level) {
            Some(a) => a,
            None => {
                return false;
            },
        };
        let e: u64 = r64(mem, at);
        if e % 2 == 0 {
            return false;
        }
        let x: u64 = e % 0x8000_0000_0000_0000;
        let open: u64 = if x / 4 % 2 == 1 {
            x
        } else {
            x + 4
        };
        assert(open == opened(e));
        w64(mem, at, open);
        if level == 1 || (level <= 3 && e / 128 % 2 == 1) {
            return true;
        }
        table = e % 0x10_0000_0000_0000 / 0x1000 * 0x1000;
        level -= 1;
    }
    reveal(mark_from);
    false
}

/// Marks the pages from `page` on, before `end`; the flag is false once a
/// page could not be marked.
pub open spec fn mark_pages(mem: Seq<u8>, root: int, page: int, end: int, ok: bool) -> (
    Seq<u8>,
    bool,
)
    decreases end + PAGE - page,
{
    if page >= end {
        (mem, ok)
    } else {
        let (m, r) = mark_from(mem, root, page as u64, 4);
        mark_pages(m, root, page + PAGE, end, ok && r)
    }
}

/// The start of the page that holds an address.
pub open spec fn page_of(a: int) -> int {
    a / 0x1000 * 0x1000
}

/// Marks the range `[vaddr, vaddr + len)` as user-accessible so ring 3 code
/// can execute from and write to it. The translations cached before the call
/// have to be flushed.
pub fn mark_user_pages(mem: &mut [u8], root: u64, vaddr: u64, len: u64) -> (ok: bool)
    requires
        vaddr + len + 0xFFF <= u64::MAX,
    ensures
        (final(mem)@, ok) == mark_pages(
            old(mem)@,
            root as int,
            page_of(vaddr as int),
            page_of(vaddr + len + 0xFFF),
            true,
        ),
        final(mem)@.len() == old(mem)@.len(),
{
    let start: u64 = vaddr / 0x1000 * 0x1000;
    let end: u64 = (vaddr + len + 0xFFF) / 0x1000 * 0x1000;
    let mut ok: bool = true;
    let mut page: u64 = start;
    while page < end
        invariant
            end == page_of(vaddr + len + 0xFFF),
            vaddr + len + 0xFFF <= u64::MAX,
            page % 0x1000 == 0,
            end % 0x1000 == 0,
            mem@.len() == old(mem)@.len(),
            mark_pages(
                old(mem)@,
                root as int,
                page_of(vaddr as int),
                page_of(vaddr + len + 0xFFF),
                true,
            ) == mark_pages(mem@, root as int, page as int, end as int, ok),
        decreases end + PAGE - page,
    {
        if !mark_one_page(mem, root, page) {
            ok = false;
        }
        page += PAGE;
    }
    ok
}

/// User mode can access the page that holds `vaddr`: every entry of its chain
/// is present and open to user mode.
#[verifier::opaque]
pub open spec fn user_page(mem: Seq<u8>, table: int, vaddr: u64, level: nat) -> bool
    decreases level,
{
    let at = entry_addr(table, vaddr, level);
    if level == 0 || table < 0 || at + 8 > mem.len() {
        false
    } else {
        let e = bytes::u64_at(mem, at);
        &&& present(e)
        &&& user(e)
        &&& leaf(e, level) || user_page(mem, frame_of(e) as int, vaddr, (level - 1) as nat)
    }
}

fn check_one_page(mem: &[u8], root: u64, vaddr: u64) -> (ok: bool)
    ensures
        ok == user_page(mem@, root as int, vaddr, 4),
{
    let mut level: u8 = 4;
    let mut table: u64 = root;
    while level > 0
        invariant
            level <= 4,
            user_page(mem@, root as int, vaddr, 4) == user_page(
                mem@,
                table as int,
                vaddr,
                level as nat,
            ),
        decreases level,
    {
        reveal(user_page);
        let at = match slot(mem.len(), table, vaddr, level) {
            Some(a) => a,
            None => {
                return false;
            },
        };
        let e: u64 = r64(mem, at);
        if e % 2 == 0 || e / 4 % 2 == 0 {
            return false;
        }
        if level == 1 || (level <= 3 && e / 128 % 2 == 1) {
            return true;
        }
        table = e % 0x10_0000_0000_0000 / 0x1000 * 0x1000;
        level -= 1;
    }
    reveal(user_page);
    false
}

/// User mode can access all of the pages from `page` on, before `end`.
pub open spec fn user_pages(mem: Seq<u8>, root: int, page: int, end: int) -> bool
    decreases end + PAGE - page,
{
    page >= end || (user_page(mem, root, page as u64, 4) && user_pages(
        mem,
        root,
        page + PAGE,
        end,
    ))
}

/// User mode can access the range `[vaddr, vaddr + len)`. A range that runs
/// past the end of the address space is refused.
pub fn is_user_range(mem: &[u8], root: u64, vaddr: u64, len: u64) -> (ok: bool)
    ensures
        ok == (vaddr + len + PAGE <= u64::MAX && user_pages(
            mem@,
            root as int,
            page_of(vaddr as int),
            page_of(vaddr + len + 0xFFF),
        )),
{
    if vaddr > u64::MAX - PAGE || len > u64::MAX - PAGE - vaddr {
        return false;
    }
    let end: u64 = (vaddr + len + 0xFFF) / 0x1000 * 0x1000;
    let mut page: u64 = vaddr / 0x1000 * 0x1000;
    while page < end
        invariant
            vaddr + len + PAGE <= u64::MAX,
            end == page_of(vaddr + len + 0xFFF),
            page % 0x1000 == 0,
            user_pages(mem@, root as int, page_of(vaddr as int), end as int) == user_pages(
                mem@,
                root as int,
                page as int,
                end as int,
            ),
        decreases end + PAGE - page,
    {
        if !check_one_page(mem, root, page) {
            return false;
        }
        page += PAGE;
    }
    true
}

/// An opened entry is present where the entry was, is open to user mode,
/// may be executed, and maps what it mapped before.
pub proof fn opening_keeps_the_mapping(e: u64)
    ensures
        user(opened(e)),
        opened(e) < 0x8000_0000_0000_0000,
        present(opened(e)) == present(e),
        huge(opened(e)) == huge(e),
        frame_of(opened(e)) == frame_of(e),
{
    assert(user(opened(e)) && opened(e) < 0x8000_0000_0000_0000) by (bit_vector);
    assert(present(opened(e)) == present(e) && huge(opened(e)) == huge(e)) by (bit_vector);
    assert(frame_of(opened(e)) == frame_of(e)) by (bit_vector);
}

/// Memory in which some page table entries have been opened, and nothing
/// else has changed.
pub open spec fn more_open(a: Seq<u8>, b: Seq<u8>) -> bool {
    &&& a.len() == b.len()
    &&& forall|o: int|
        0 <= o && o % 8 == 0 && o + 8 <= a.len() ==> (#[trigger] bytes::u64_at(b, o)
            == bytes::u64_at(a, o) || bytes::u64_at(b, o) == opened(bytes::u64_at(a, o)))
}

proof fn opening_twice(e: u64)
    ensures
        opened(opened(e)) == opened(e),
{
    assert(opened(opened(e)) == opened(e)) by (bit_vector);
}

/// Opening entries and then more of them opens entries.
pub proof fn more_open_is_transitive(a: Seq<u8>, b: Seq<u8>, c: Seq<u8>)
    requires
        more_open(a, b),
        more_open(b, c),
    ensures
        more_open(a, c),
{
    assert forall|o: int| 0 <= o && o % 8 == 0 && o + 8 <= a.len() implies (#[trigger]
    bytes::u64_at(c, o) == bytes::u64_at(a, o) || bytes::u64_at(c, o) == opened(
        bytes::u64_at(a, o),
    )) by {
        let e = bytes::u64_at(b, o);
        opening_twice(bytes::u64_at(a, o));
    }
}

proof fn put_keeps_other_entries(s: Seq<u8>, at: int, v: u64, o: int)
    requires
        0 <= at,
        at + 8 <= s.len(),
        0 <= o,
        o + 8 <= s.len(),
        o + 8 <= at || at + 8 <= o,
    ensures
        bytes::u64_at(bytes::put64(s, at, v), o) == bytes::u64_at(s, o),
{
    let t = bytes::le64(v);
    assert(t.len() == 8);
    bytes::splice_keeps_fields(s, at, t, o);
    bytes::splice_keeps_fields(s, at, t, o + 4);
}

proof fn put_entry(s: Seq<u8>, at: int, v: u64, o: int)
    requires
        0 <= at,
        at % 8 == 0,
        at + 8 <= s.len(),
        0 <= o,
        o % 8 == 0,
        o + 8 <= s.len(),
    ensures
        bytes::u64_at(bytes::put64(s, at, v), o) == if o == at {
            v
        } else {
            bytes::u64_at(s, o)
        },
{
    if o == at {
        bytes::put64_then_read(s, at, v);
    } else {
        put_keeps_other_entries(s, at, v, o);
    }
}

/// Writing an opened entry back opens one entry.
proof fn put_is_more_open(s: Seq<u8>, at: int, e: u64, v: u64)
    requires
        0 <= at,
        at % 8 == 0,
        at + 8 <= s.len(),
        e == bytes::u64_at(s, at),
        v == opened(e),
    ensures
        more_open(s, bytes::put64(s, at, v)),
        bytes::u64_at(bytes::put64(s, at, v), at) == v,
{
    let t = bytes::put64(s, at, v);
    put_entry(s, at, v, at);
    assert forall|o: int| 0 <= o && o % 8 == 0 && o + 8 <= s.len() implies (#[trigger]
    bytes::u64_at(t, o) == bytes::u64_at(s, o) || bytes::u64_at(t, o) == opened(
        bytes::u64_at(s, o),
    )) by {
        put_entry(s, at, v, o);
    }
}

proof fn index_bound(vaddr: u64, level: nat)
    ensures
        0 <= index_at(vaddr, level) < 512,
{
}

/// A walk only opens entries, and a walk that succeeds leaves its page open
/// to user mode.
#[verifier::rlimit(50)]
#[verifier::spinoff_prover]
pub proof fn marking_opens_the_page(mem: Seq<u8>, table: int, vaddr: u64, level: nat)
    requires
        table % 0x1000 == 0,
    ensures
        more_open(mem, mark_from(mem, table, vaddr, level).0),
        mark_from(mem, table, vaddr, level).1 ==> user_page(
            mark_from(mem, table, vaddr, level).0,
            table,
            vaddr,
            level,
        ),
    decreases level,
{
    reveal(mark_from);
    reveal(user_page);
    index_bound(vaddr, level);
    let at = entry_addr(table, vaddr, level);
    if level == 0 || table < 0 || at + 8 > mem.len() {
    } else {
        let e = bytes::u64_at(mem, at);
        if present(e) {
            assert(at % 8 == 0);
            let m = bytes::put64(mem, at, opened(e));
            put_is_more_open(mem, at, e, opened(e));
            opening_keeps_the_mapping(e);
            opening_twice(e);
            if !leaf(e, level) {
                marking_opens_the_page(m, frame_of(e) as int, vaddr, (level - 1) as nat);
                let m2 = mark_from(m, frame_of(e) as int, vaddr, (level - 1) as nat).0;
                more_open_is_transitive(mem, m, m2);
                assert(bytes::u64_at(m2, at) == opened(e));
            }
        }
    }
}

/// Opening further entries takes no page away from user mode.
pub proof fn open_pages_stay_open(a: Seq<u8>, b: Seq<u8>, table: int, vaddr: u64, level: nat)
    requires
        table % 0x1000 == 0,
        more_open(a, b),
        user_page(a, table, vaddr, level),
    ensures
        user_page(b, table, vaddr, level),
    decreases level,
{
    reveal(user_page);
    index_bound(vaddr, level);
    let at = entry_addr(table, vaddr, level);
    assert(at % 8 == 0);
    let e = bytes::u64_at(a, at);
    assert(bytes::u64_at(b, at) == e || bytes::u64_at(b, at) == opened(e));
    opening_keeps_the_mapping(e);
    if !leaf(e, level) {
        open_pages_stay_open(a, b, frame_of(e) as int, vaddr, (level - 1) as nat);
    }
}

/// Opening further entries takes no range away from user mode.
pub proof fn open_ranges_stay_open(a: Seq<u8>, b: Seq<u8>, root: int, page: int, end: int)
    requires
        root % 0x1000 == 0,
        more_open(a, b),
        user_pages(a, root, page, end),
    ensures
        user_pages(b, root, page, end),
    decreases end + PAGE - page,
{
    if page < end {
        open_pages_stay_open(a, b, root, page as u64, 4);
        open_ranges_stay_open(a, b, root, page + PAGE, end);
    }
}

/// A range that was marked without a failure is a user range afterwards.
pub proof fn marked_range_is_user_range(mem: Seq<u8>, root: int, page: int, end: int, ok: bool)
    requires
        root % 0x1000 == 0,
    ensures
        more_open(mem, mark_pages(mem, root, page, end, ok).0),
        mark_pages(mem, root, page, end, ok).1 ==> ok && user_pages(
            mark_pages(mem, root, page, end, ok).0,
            root,
            page,
            end,
        ),
    decreases end + PAGE - page,
{
    if page < end {
        let (m, r) = mark_from(mem, root, page as u64, 4);
        marking_opens_the_page(mem, root, page as u64, 4);
        marked_range_is_user_range(m, root, page + PAGE, end, ok && r);
        let last = mark_pages(m, root, page + PAGE, end, ok && r).0;
        more_open_is_transitive(mem, m, last);
        if mark_pages(mem, root, page, end, ok).1 {
            open_pages_stay_open(m, last, root, page as u64, 4);
        }
    }
}

} // verus!
