//! Directories: what a look-up finds after an entry was written.

use vstd::prelude::*;
use crate::bytes::{
    put16, put16_then_read, put32, put32_then_read, splice, splice_keeps_fields, u16_at,
};
use crate::fat::model::{
    dot_pos, dotdot_in_sector, dotted, entry_at, first_match, free_in_sector, make_83, name_char,
    padded, pos_in_sector, sector_list, stem, unused, upper, with_entry, Entry, Scan,
};

verus! {

// ---------- names ----------

/// The name is one that a file can be given.
pub open spec fn file_name(n: Seq<u8>) -> bool {
    &&& n.len() == 11
    &&& n[0] != 0
    &&& n[0] != 0xE5
    &&& n[0] != 46
}

proof fn no_dot_before(name: Seq<char>, k: int)
    requires
        0 <= k < dot_pos(name),
    ensures
        k < name.len(),
        name[k] != '.',
    decreases name.len(),
{
    if k > 0 {
        no_dot_before(name.skip(1), k - 1);
        assert(name.skip(1)[k - 1] == name[k]);
    }
}

proof fn dot_within(name: Seq<char>)
    ensures
        0 <= dot_pos(name) <= name.len(),
    decreases name.len(),
{
    if name.len() > 0 && name[0] != '.' {
        dot_within(name.skip(1));
    }
}

proof fn first_byte(c: char)
    requires
        name_char(c),
        c != '.',
    ensures
        upper(c as u8) != 0,
        upper(c as u8) != 0xE5,
        upper(c as u8) != 46,
{
}

/// The bytes of a name start neither with a dot nor with a mark that wipes or
/// ends.
pub proof fn names_are_file_names(name: Seq<char>)
    requires
        make_83(name) is Ok,
    ensures
        file_name(make_83(name)->Ok_0),
{
    let st = stem(name);
    let n = make_83(name)->Ok_0;
    dot_within(name);
    no_dot_before(name, 0);
    assert(name_char(st[0]));
    first_byte(st[0]);
    assert(n[0] == padded(st, 8)[0]);
}

// ---------- lists of entries ----------

/// The first match in two lists, one behind the other.
pub proof fn match_in_both(x: Seq<Entry>, y: Seq<Entry>, w: Option<Seq<u8>>)
    ensures
        first_match(x + y, w) == match first_match(x, w) {
            Some(e) => Some(e),
            None => first_match(y, w),
        },
    decreases x.len(),
{
    if x.len() == 0 {
        assert(x + y =~= y);
    } else {
        assert((x + y)[0] == x[0]);
        assert((x + y).skip(1) =~= x.skip(1) + y);
        match_in_both(x.skip(1), y, w);
    }
}

/// The first match in a list of one.
pub proof fn match_in_one(e: Entry, m: Seq<u8>)
    ensures
        first_match(seq![e], Some(m)) == if e.name == m {
            Some(e)
        } else {
            None
        },
{
    reveal_with_fuel(first_match, 2);
    assert(seq![e].skip(1) =~= Seq::empty());
}

/// The list after an entry for the name `n` was written: the name now has the
/// entry `e`, and every other name that was found is found as before.
pub open spec fn replaced(before: Seq<Entry>, after: Seq<Entry>, n: Seq<u8>, e: Entry) -> bool {
    &&& first_match(after, Some(n)) == Some(e)
    &&& forall|m: Seq<u8>|
        m != n && first_match(before, Some(m)) is Some ==> #[trigger] first_match(after, Some(m))
            == first_match(before, Some(m))
}

/// The same of a part of a directory: where the directory did not end in the
/// part, it does not end there now, and the other names that were not found
/// are not found.
pub open spec fn replaced_in(
    before: (Seq<Entry>, bool),
    after: (Seq<Entry>, bool),
    n: Seq<u8>,
    e: Entry,
) -> bool {
    &&& replaced(before.0, after.0, n, e)
    &&& !before.1 ==> {
        &&& !after.1
        &&& forall|m: Seq<u8>|
            m != n && first_match(before.0, Some(m)) is None ==> #[trigger] first_match(
                after.0,
                Some(m),
            ) is None
    }
}

pub(crate) proof fn behind_clean(
    x: Seq<Entry>,
    before: (Seq<Entry>, bool),
    after: (Seq<Entry>, bool),
    n: Seq<u8>,
    e: Entry,
)
    requires
        first_match(x, Some(n)) is None,
        replaced_in(before, after, n, e),
    ensures
        replaced_in((x + before.0, before.1), (x + after.0, after.1), n, e),
{
    match_in_both(x, after.0, Some(n));
    assert forall|m: Seq<u8>| m != n implies {
        &&& first_match(x + before.0, Some(m)) is Some ==> #[trigger] first_match(
            x + after.0,
            Some(m),
        ) == first_match(x + before.0, Some(m))
        &&& !before.1 && first_match(x + before.0, Some(m)) is None ==> first_match(
            x + after.0,
            Some(m),
        ) is None
    } by {
        match_in_both(x, before.0, Some(m));
        match_in_both(x, after.0, Some(m));
    }
}

pub(crate) proof fn before_rest(
    before: (Seq<Entry>, bool),
    after: (Seq<Entry>, bool),
    rest: Seq<Entry>,
    ends: bool,
    n: Seq<u8>,
    e: Entry,
)
    requires
        replaced_in(before, after, n, e),
        !before.1,
    ensures
        replaced_in((before.0 + rest, ends), (after.0 + rest, ends), n, e),
{
    match_in_both(after.0, rest, Some(n));
    assert forall|m: Seq<u8>| m != n implies {
        &&& first_match(before.0 + rest, Some(m)) is Some ==> #[trigger] first_match(
            after.0 + rest,
            Some(m),
        ) == first_match(before.0 + rest, Some(m))
        &&& first_match(before.0 + rest, Some(m)) is None ==> first_match(
            after.0 + rest,
            Some(m),
        ) is None
    } by {
        match_in_both(before.0, rest, Some(m));
        match_in_both(after.0, rest, Some(m));
        if first_match(before.0, Some(m)) is None {
            assert(first_match(after.0, Some(m)) is None);
        } else {
            assert(first_match(after.0, Some(m)) == first_match(before.0, Some(m)));
        }
    }
}

pub(crate) proof fn before_more(
    before: Seq<Entry>,
    after: (Seq<Entry>, bool),
    rest: Seq<Entry>,
    ends: bool,
    n: Seq<u8>,
    e: Entry,
)
    requires
        replaced_in((before, true), after, n, e),
    ensures
        replaced_in((before, true), (after.0 + rest, ends), n, e),
{
    match_in_both(after.0, rest, Some(n));
    assert forall|m: Seq<u8>| m != n && first_match(before, Some(m)) is Some implies #[trigger] first_match(
        after.0 + rest,
        Some(m),
    ) == first_match(before, Some(m)) by {
        match_in_both(after.0, rest, Some(m));
        assert(first_match(after.0, Some(m)) == first_match(before, Some(m)));
    }
}

// ---------- one sector ----------

/// The name in a slot.
pub open spec fn name_at(b: Seq<u8>, r: int) -> Seq<u8> {
    b.subrange(32 * r, 32 * r + 11)
}

/// The slot shows in a listing of its sector.
pub open spec fn listed(b: Seq<u8>, r: int) -> bool {
    !unused(b, 32 * r) && !dotted(b, 32 * r)
}

/// The slot neither ends the directory nor shows the name.
pub open spec fn passed(b: Seq<u8>, n: Seq<u8>, r: int) -> bool {
    b[32 * r] != 0 && !(listed(b, r) && name_at(b, r) == n)
}

/// The slots `k .. upto` are passed in a search for the name.
pub open spec fn clean(b: Seq<u8>, n: Seq<u8>, k: int, upto: int) -> bool {
    forall|r: int| k <= r < upto ==> #[trigger] passed(b, n, r)
}

/// The slot can take the entry of the name: it is free, or it has the name.
pub open spec fn takes(b: Seq<u8>, slot: int, n: Seq<u8>) -> bool {
    b[32 * slot] == 0 || b[32 * slot] == 0xE5 || (!unused(b, 32 * slot) && name_at(b, slot) == n)
}

/// `c` is `b` with the entry `e` in a slot.
pub open spec fn entered(b: Seq<u8>, c: Seq<u8>, slot: int, e: Entry) -> bool {
    &&& c.len() == 512
    &&& entry_at(c, 32 * slot) == e
    &&& forall|k: int|
        0 <= k < 512 && !(32 * slot <= k < 32 * slot + 32) ==> #[trigger] c[k] == b[k]
}

/// An entry reads back from the slot it was put into.
pub proof fn entry_entered(b: Seq<u8>, slot: int, e: Entry)
    requires
        b.len() == 512,
        0 <= slot < 16,
        e.name.len() == 11,
    ensures
        entered(b, with_entry(b, slot, e), slot, e),
        with_entry(b, slot, e)[32 * slot] == e.name[0],
        with_entry(b, slot, e)[32 * slot + 1] == e.name[1],
        with_entry(b, slot, e)[32 * slot + 11] == e.attr,
{
    let o = 32 * slot;
    let hi = (e.cluster / 0x1_0000) as u16;
    let lo = (e.cluster % 0x1_0000) as u16;
    let a = splice(b, o, e.name).update(o + 11, e.attr);
    let c1 = put16(a, o + 20, hi);
    let c2 = put16(c1, o + 26, lo);
    let c3 = put32(c2, o + 28, e.size);
    put16_then_read(a, o + 20, hi);
    put16_then_read(c1, o + 26, lo);
    put32_then_read(c2, o + 28, e.size);
    splice_keeps_fields(c1, o + 26, crate::bytes::le16(lo), o + 20);
    splice_keeps_fields(c2, o + 28, crate::bytes::le32(e.size), o + 20);
    splice_keeps_fields(c2, o + 28, crate::bytes::le32(e.size), o + 26);
    assert(c3.subrange(o, o + 11) =~= e.name);
    assert(u16_at(c3, o + 20) == hi);
    assert(u16_at(c3, o + 26) == lo);
    assert(0x1_0000 * hi + lo == e.cluster);
    assert(entry_at(c3, o) =~= e);
}

pub(crate) proof fn same_slot(b: Seq<u8>, c: Seq<u8>, slot: int, e: Entry, r: int)
    requires
        b.len() == 512,
        entered(b, c, slot, e),
        0 <= r < 16,
        0 <= slot < 16,
        r != slot,
    ensures
        c[32 * r] == b[32 * r],
        unused(c, 32 * r) == unused(b, 32 * r),
        dotted(c, 32 * r) == dotted(b, 32 * r),
        entry_at(c, 32 * r) == entry_at(b, 32 * r),
        name_at(c, r) == name_at(b, r),
{
    assert(c[32 * r] == b[32 * r]);
    assert(c[32 * r + 1] == b[32 * r + 1]);
    assert(c[32 * r + 11] == b[32 * r + 11]);
    assert(entry_at(c, 32 * r) =~= entry_at(b, 32 * r)) by {
        assert(c.subrange(32 * r, 32 * r + 11) =~= b.subrange(32 * r, 32 * r + 11));
    }
}

/// The sectors agree behind the slot, so their lists do.
pub(crate) proof fn list_behind(b: Seq<u8>, c: Seq<u8>, slot: int, e: Entry, k: int)
    requires
        b.len() == 512,
        entered(b, c, slot, e),
        0 <= slot < k <= 16,
    ensures
        sector_list(c, k) == sector_list(b, k),
    decreases 16 - k,
{
    if k < 16 {
        same_slot(b, c, slot, e, k);
        list_behind(b, c, slot, e, k + 1);
    }
}

/// Clean slots list nothing of the name.
pub(crate) proof fn clean_list(b: Seq<u8>, n: Seq<u8>, k: int)
    requires
        0 <= k <= 16,
        clean(b, n, k, 16),
    ensures
        !sector_list(b, k).1,
        first_match(sector_list(b, k).0, Some(n)) is None,
    decreases 16 - k,
{
    if k < 16 {
        assert(passed(b, n, k));
        clean_list(b, n, k + 1);
        if listed(b, k) {
            match_in_both(seq![entry_at(b, 32 * k)], sector_list(b, k + 1).0, Some(n));
            match_in_one(entry_at(b, 32 * k), n);
        }
    }
}

/// An entry is written to a slot of a sector.
pub(crate) proof fn sector_replaced(b: Seq<u8>, c: Seq<u8>, k: int, slot: int, n: Seq<u8>, e: Entry)
    requires
        b.len() == 512,
        0 <= k <= slot < 16,
        clean(b, n, k, slot),
        takes(b, slot, n),
        entered(b, c, slot, e),
        file_name(n),
        e.name == n,
        e.attr != 0x0F,
    ensures
        replaced_in(sector_list(b, k), sector_list(c, k), n, e),
    decreases slot - k,
{
    if k < slot {
        same_slot(b, c, slot, e, k);
        sector_replaced(b, c, k + 1, slot, n, e);
        assert(passed(b, n, k));
        if listed(b, k) {
            let x = seq![entry_at(b, 32 * k)];
            match_in_one(entry_at(b, 32 * k), n);
            behind_clean(x, sector_list(b, k + 1), sector_list(c, k + 1), n, e);
        }
    } else {
        let o = 32 * k;
        assert(entry_at(c, o).name == n);
        assert(c.subrange(o, o + 11)[0] == c[o]);
        assert(c[o] == n[0]);
        assert(entry_at(c, o).attr == c[o + 11]);
        assert(listed(c, k));
        list_behind(b, c, slot, e, k + 1);
        let rest = sector_list(b, k + 1);
        let x = seq![e];
        assert(sector_list(c, k) == (x + rest.0, rest.1));
        match_in_one(e, n);
        match_in_both(x, rest.0, Some(n));
        if b[o] == 0 {
            assert(sector_list(b, k) == (Seq::<Entry>::empty(), true));
        } else if unused(b, o) || dotted(b, o) {
            assert(sector_list(b, k) == rest);
            assert forall|m: Seq<u8>| m != n implies #[trigger] first_match(x + rest.0, Some(m))
                == first_match(rest.0, Some(m)) by {
                match_in_one(e, m);
                match_in_both(x, rest.0, Some(m));
            }
        } else {
            let y = seq![entry_at(b, o)];
            assert(name_at(b, k) == n);
            assert(sector_list(b, k) == (y + rest.0, rest.1));
            assert forall|m: Seq<u8>| m != n implies #[trigger] first_match(x + rest.0, Some(m))
                == first_match(y + rest.0, Some(m)) by {
                match_in_one(e, m);
                match_in_one(entry_at(b, o), m);
                match_in_both(x, rest.0, Some(m));
                match_in_both(y, rest.0, Some(m));
            }
        }
    }
}

/// The search for a name passes clean slots.
pub(crate) proof fn pos_clean(b: Seq<u8>, k: int, n: Seq<u8>)
    requires
        0 <= k <= 16,
    ensures
        match pos_in_sector(b, k, n) {
            Scan::At(slot) => k <= slot < 16 && clean(b, n, k, slot) && takes(b, slot, n),
            Scan::End => true,
            Scan::On => clean(b, n, k, 16),
        },
    decreases 16 - k,
{
    if k < 16 {
        pos_clean(b, k + 1, n);
        assert(pos_in_sector(b, k, n) == pos_in_sector(b, k + 1, n) ==> b[32 * k] == 0 || passed(
            b,
            n,
            k,
        ));
    }
}

/// The search for a free slot passes clean slots, where the name is not
/// listed.
pub(crate) proof fn free_clean(b: Seq<u8>, k: int, n: Seq<u8>)
    requires
        0 <= k <= 16,
        first_match(sector_list(b, k).0, Some(n)) is None,
    ensures
        match free_in_sector(b, k) {
            Some(slot) => k <= slot < 16 && clean(b, n, k, slot) && takes(b, slot, n),
            None => clean(b, n, k, 16),
        },
    decreases 16 - k,
{
    if k < 16 && b[32 * k] != 0 && b[32 * k] != 0xE5 {
        if listed(b, k) {
            let x = seq![entry_at(b, 32 * k)];
            match_in_both(x, sector_list(b, k + 1).0, Some(n));
            match_in_one(entry_at(b, 32 * k), n);
        }
        free_clean(b, k + 1, n);
    }
}

/// An entry with a file's name changes nothing for the search for `..`.
pub(crate) proof fn dotdot_kept(b: Seq<u8>, c: Seq<u8>, k: int, slot: int, n: Seq<u8>, e: Entry)
    requires
        b.len() == 512,
        0 <= k <= 16,
        0 <= slot < 16,
        takes(b, slot, n),
        entered(b, c, slot, e),
        file_name(n),
        e.name.len() == 11,
        e.name[0] != 46,
    ensures
        dotdot_in_sector(c, k) == dotdot_in_sector(b, k),
    decreases 16 - k,
{
    if k < 16 {
        dotdot_kept(b, c, k + 1, slot, n, e);
        if k != slot {
            same_slot(b, c, slot, e, k);
            assert(c[32 * k + 1] == b[32 * k + 1]);
            assert(c[32 * k + 2] == b[32 * k + 2]);
            assert(c[32 * k + 11] == b[32 * k + 11]);
        } else {
            assert(c.subrange(32 * k, 32 * k + 11)[0] == c[32 * k]);
            if name_at(b, slot) == n {
                assert(b.subrange(32 * k, 32 * k + 11)[0] == b[32 * k]);
            }
        }
    }
}

} // verus!
