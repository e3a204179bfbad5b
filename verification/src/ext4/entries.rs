//! The entries of a directory block: what entering a name into a free slot
//! does to what is found there.

use vstd::prelude::*;
use crate::bytes::{put16, put16_then_read, put32, put32_then_read, u16_at, u32_at};
use crate::ext4::model::{block_entries, entry_named, fill_slot, put_entry, slot_in_block, Entry};

verus! {

/// The entries from offset `o` on have room for their names.
pub open spec fn block_sound(b: Seq<u8>, o: int) -> bool
    decreases 4096 - o,
{
    let rec = u16_at(b, o + 4) as int;
    if o + 8 > 4096 || rec == 0 || o + rec > 4096 {
        true
    } else {
        &&& rec >= 8
        &&& u32_at(b, o) != 0 ==> 8 + b[o + 6] <= rec
        &&& block_sound(b, o + rec)
    }
}

/// What a name is found to be among two runs of entries.
pub proof fn named_in_both(a: Seq<Entry>, b: Seq<Entry>, m: Seq<u8>)
    ensures
        entry_named(a + b, m) == (match entry_named(a, m) {
            Some(e) => Some(e),
            None => entry_named(b, m),
        }),
    decreases a.len(),
{
    if a.len() == 0 {
        assert(a + b =~= b);
    } else {
        assert((a + b)[0] == a[0]);
        assert((a + b).skip(1) =~= a.skip(1) + b);
        named_in_both(a.skip(1), b, m);
    }
}

pub proof fn named_alone(e: Entry, m: Seq<u8>)
    ensures
        entry_named(seq![e], m) == (if e.name == m {
            Some(e)
        } else {
            None
        }),
{
    assert(seq![e].skip(1) =~= Seq::<Entry>::empty());
    assert(entry_named(Seq::<Entry>::empty(), m) is None);
}

/// How often a name stands among the entries.
pub open spec fn times(es: Seq<Entry>, m: Seq<u8>) -> nat
    decreases es.len(),
{
    if es.len() == 0 {
        0
    } else {
        (if es[0].name == m {
            1nat
        } else {
            0
        }) + times(es.skip(1), m)
    }
}

pub proof fn times_in_both(a: Seq<Entry>, b: Seq<Entry>, m: Seq<u8>)
    ensures
        times(a + b, m) == times(a, m) + times(b, m),
    decreases a.len(),
{
    if a.len() == 0 {
        assert(a + b =~= b);
    } else {
        assert((a + b)[0] == a[0]);
        assert((a + b).skip(1) =~= a.skip(1) + b);
        times_in_both(a.skip(1), b, m);
    }
}

pub proof fn times_alone(e: Entry, m: Seq<u8>)
    ensures
        times(seq![e], m) == (if e.name == m {
            1nat
        } else {
            0
        }),
{
    assert(seq![e].skip(1) =~= Seq::<Entry>::empty());
    assert(times(Seq::<Entry>::empty(), m) == 0);
}

/// What is found is one of the entries, and has the name.
pub proof fn named_is_there(es: Seq<Entry>, m: Seq<u8>)
    ensures
        entry_named(es, m) matches Some(e) ==> e.name == m && exists|k: int|
            0 <= k < es.len() && #[trigger] es[k] == e,
    decreases es.len(),
{
    if es.len() > 0 {
        if es[0].name == m {
            assert(es[0] == entry_named(es, m)->0);
        } else {
            named_is_there(es.skip(1), m);
            if let Some(e) = entry_named(es.skip(1), m) {
                let k = choose|k: int| 0 <= k < es.skip(1).len() && #[trigger] es.skip(1)[k] == e;
                assert(es[k + 1] == e);
            }
        }
    }
}

/// Entries depend on the bytes from the first of them on.
pub proof fn tail_same(b: Seq<u8>, c: Seq<u8>, o: int)
    requires
        b.len() == 4096,
        c.len() == 4096,
        0 <= o,
        forall|k: int| o <= k < 4096 ==> c[k] == b[k],
    ensures
        block_entries(c, o) == block_entries(b, o),
        block_sound(c, o) == block_sound(b, o),
    decreases 4096 - o,
{
    if o + 8 <= 4096 {
        assert(u16_at(c, o + 4) == u16_at(b, o + 4));
        assert(u32_at(c, o) == u32_at(b, o));
        let rec = u16_at(b, o + 4) as int;
        if rec != 0 && o + rec <= 4096 {
            tail_same(b, c, o + rec);
            let nl = b[o + 6] as int;
            if o + 8 + nl <= 4096 {
                assert(c.subrange(o + 8, o + 8 + nl) =~= b.subrange(o + 8, o + 8 + nl));
            }
        }
    }
}

/// A sound run of entries is read to its end.
pub proof fn sound_is_good(b: Seq<u8>, o: int)
    requires
        block_sound(b, o),
    ensures
        !block_entries(b, o).1,
    decreases 4096 - o,
{
    let rec = u16_at(b, o + 4) as int;
    if o + 8 <= 4096 && rec != 0 && o + rec <= 4096 {
        sound_is_good(b, o + rec);
    }
}

/// An entry reads back as it was put.
pub proof fn entry_put(b: Seq<u8>, o: int, ino: u32, name: Seq<u8>, ftype: u8, rec: int)
    requires
        b.len() == 4096,
        0 <= o,
        name.len() <= 255,
        o + 8 + name.len() <= 4096,
        0 <= rec <= 4096,
    ensures
        ({
            let c = put_entry(b, o, ino, name, ftype, rec);
            &&& c.len() == 4096
            &&& u32_at(c, o) == ino
            &&& u16_at(c, o + 4) == rec
            &&& c[o + 6] == name.len()
            &&& c[o + 7] == ftype
            &&& c.subrange(o + 8, o + 8 + name.len()) == name
            &&& forall|k: int|
                0 <= k < 4096 && !(o <= k < o + 8 + name.len()) ==> #[trigger] c[k] == b[k]
        }),
{
    let d = put32(b, o, ino);
    let e = put16(d, o + 4, rec as u16);
    put32_then_read(b, o, ino);
    put16_then_read(d, o + 4, rec as u16);
    let c = put_entry(b, o, ino, name, ftype, rec);
    assert(c.len() == 4096);
    assert(forall|k: int| o <= k < o + 4 ==> c[k] == d[k]);
    assert(forall|k: int| o + 4 <= k < o + 6 ==> c[k] == e[k]);
    assert(c.subrange(o + 8, o + 8 + name.len()) =~= name);
}

/// An entry that stands at offset `o`, with the entries behind it.
pub open spec fn entry_stands(b: Seq<u8>, o: int, e: Entry, rec: int) -> bool {
    &&& u32_at(b, o) == e.ino
    &&& u16_at(b, o + 4) == rec
    &&& b[o + 6] == e.name.len()
    &&& b[o + 7] == e.ftype
    &&& b.subrange(o + 8, o + 8 + e.name.len()) == e.name
}

/// What is found from an entry on is the entry and what is found behind it.
pub proof fn entry_read(b: Seq<u8>, o: int, e: Entry, rec: int)
    requires
        b.len() == 4096,
        0 <= o,
        e.ino != 0,
        8 + e.name.len() <= rec,
        o + rec <= 4096,
        entry_stands(b, o, e, rec),
    ensures
        block_sound(b, o) == block_sound(b, o + rec),
        forall|f: Entry| #[trigger]
            block_entries(b, o).0.contains(f) ==> f == e || block_entries(b, o + rec).0.contains(f),
{
    let rest = block_entries(b, o + rec).0;
    assert(block_entries(b, o).0 == seq![e] + rest);
    assert forall|f: Entry| #[trigger] block_entries(b, o).0.contains(f) implies f == e
        || rest.contains(f) by {
        let k = choose|k: int| 0 <= k < (seq![e] + rest).len() && (seq![e] + rest)[k] == f;
        if k > 0 {
            assert(rest[k - 1] == f);
        }
    }
}

/// An entry stays where nothing is put on its bytes.
pub proof fn entry_stays(b: Seq<u8>, c: Seq<u8>, o: int, e: Entry, rec: int)
    requires
        b.len() == 4096,
        c.len() == 4096,
        0 <= o,
        o + 8 + e.name.len() <= 4096,
        entry_stands(b, o, e, rec),
        forall|k: int| o <= k < o + 8 + e.name.len() ==> #[trigger] c[k] == b[k],
    ensures
        entry_stands(c, o, e, rec),
{
    assert(c.subrange(o + 8, o + 8 + e.name.len()) =~= b.subrange(o + 8, o + 8 + e.name.len()));
}

/// The slot that is found lies in the block and has the room.
pub proof fn slot_has_room(b: Seq<u8>, o: int, need: int)
    requires
        block_sound(b, o),
        0 <= o,
        need >= 8,
    ensures
        slot_in_block(b, o, need) matches Some((off, avail)) ==> {
            let rec = u16_at(b, o + 4) as int;
            &&& o <= off
            &&& off + avail <= 4096
            &&& avail >= need
            &&& off == o ==> u32_at(b, o) == 0 && (if rec == 0 {
                off + avail == 4096
            } else {
                rec == avail
            })
            &&& off != o ==> rec >= 8 && o + rec <= off && slot_in_block(b, o + rec, need) == Some(
                (off, avail),
            )
        },
    decreases 4096 - o,
{
    let rec = u16_at(b, o + 4) as int;
    if o + 8 <= 4096 && rec != 0 && o + rec <= 4096 && !(u32_at(b, o) == 0 && rec >= need) {
        slot_has_room(b, o + rec, need);
    }
}

/// A block is filled between `off` and `off + avail`: the entry, and where it
/// leaves room for one, an unused entry.
proof fn slot_filled(
    b: Seq<u8>,
    off: int,
    avail: int,
    need: int,
    ino: u32,
    name: Seq<u8>,
    ftype: u8,
)
    requires
        b.len() == 4096,
        0 <= off,
        off + avail <= 4096,
        8 + name.len() <= need <= avail,
        name.len() <= 255,
        ino != 0,
    ensures
        ({
            let c = fill_slot(b, off, avail, need, ino, name, ftype);
            let e = Entry { ino, ftype, name };
            &&& c.len() == 4096
            &&& forall|k: int| 0 <= k < off ==> #[trigger] c[k] == b[k]
            &&& forall|k: int| off + avail <= k < 4096 ==> #[trigger] c[k] == b[k]
            &&& block_entries(c, off) == (
                seq![e] + block_entries(c, off + avail).0,
                block_entries(c, off + avail).1,
            )
            &&& block_sound(c, off) == block_sound(c, off + avail)
        }),
{
    let c = fill_slot(b, off, avail, need, ino, name, ftype);
    let e = Entry { ino, ftype, name };
    if avail - need >= 8 {
        let d = put_entry(b, off, ino, name, ftype, need);
        entry_put(b, off, ino, name, ftype, need);
        entry_put(d, off + need, 0, Seq::empty(), 0, avail - need);
        assert(c == put_entry(d, off + need, 0, Seq::empty(), 0, avail - need));
        assert(forall|k: int| 0 <= k < off + need ==> c[k] == d[k]);
        assert(u32_at(c, off) == ino);
        assert(u16_at(c, off + 4) == need);
        assert(c.subrange(off + 8, off + 8 + name.len()) =~= d.subrange(off + 8, off + 8 + name.len()));
        assert(block_entries(c, off + need) == block_entries(c, off + need + (avail - need)));
        assert(block_sound(c, off + need) == block_sound(c, off + need + (avail - need)));
        assert(off + need + (avail - need) == off + avail);
    } else {
        entry_put(b, off, ino, name, ftype, avail);
    }
}

/// No entry but `e` is new.
pub open spec fn only_added(es: Seq<Entry>, fs: Seq<Entry>, e: Entry) -> bool {
    forall|f: Entry| #[trigger] fs.contains(f) ==> f == e || es.contains(f)
}

/// Runs of entries to which no entry but `e` was added, one behind the other.
pub proof fn only_added_in_both(
    a: Seq<Entry>,
    b: Seq<Entry>,
    c: Seq<Entry>,
    d: Seq<Entry>,
    e: Entry,
)
    requires
        only_added(a, c, e),
        only_added(b, d, e),
    ensures
        only_added(a + b, c + d, e),
{
    assert forall|f: Entry| #[trigger] (c + d).contains(f) implies f == e || (a + b).contains(f) by {
        let k = choose|k: int| 0 <= k < (c + d).len() && (c + d)[k] == f;
        if k < c.len() {
            assert(c[k] == f);
            assert(c.contains(f));
            if f != e {
                let l = choose|l: int| 0 <= l < a.len() && a[l] == f;
                assert((a + b)[l] == f);
            }
        } else {
            assert(d[k - c.len()] == f);
            assert(d.contains(f));
            if f != e {
                let l = choose|l: int| 0 <= l < b.len() && b[l] == f;
                assert((a + b)[a.len() + l] == f);
            }
        }
    }
}

/// Other names are found to be what they were, and the new one is found.
spec fn entered(es: Seq<Entry>, fs: Seq<Entry>, e: Entry, m: Seq<u8>) -> bool {
    &&& m != e.name ==> entry_named(fs, m) == entry_named(es, m) && times(fs, m) == times(es, m)
    &&& entry_named(es, e.name) is None ==> entry_named(fs, e.name) == Some(e)
    &&& only_added(es, fs, e)
}

proof fn entered_first(es: Seq<Entry>, e: Entry, m: Seq<u8>)
    ensures
        entered(es, seq![e] + es, e, m),
{
    named_in_both(seq![e], es, m);
    named_in_both(seq![e], es, e.name);
    named_alone(e, m);
    named_alone(e, e.name);
    times_in_both(seq![e], es, m);
    times_alone(e, m);
    assert(only_added(Seq::empty(), seq![e], e));
    only_added_in_both(Seq::empty(), es, seq![e], es, e);
    assert(Seq::<Entry>::empty() + es =~= es);
}

proof fn entered_later(f: Entry, es: Seq<Entry>, fs: Seq<Entry>, e: Entry, m: Seq<u8>)
    requires
        entered(es, fs, e, m),
    ensures
        entered(seq![f] + es, seq![f] + fs, e, m),
{
    named_in_both(seq![f], es, m);
    named_in_both(seq![f], fs, m);
    named_in_both(seq![f], es, e.name);
    named_in_both(seq![f], fs, e.name);
    only_added_in_both(seq![f], es, seq![f], fs, e);
    times_in_both(seq![f], es, m);
    times_in_both(seq![f], fs, m);
}

/// Entries before the slot stay where they are.
pub proof fn entry_before(b: Seq<u8>, c: Seq<u8>, o: int, off: int)
    requires
        b.len() == 4096,
        c.len() == 4096,
        0 <= o,
        off <= 4096,
        forall|k: int| 0 <= k < off ==> #[trigger] c[k] == b[k],
        block_sound(b, o),
        8 <= u16_at(b, o + 4),
        o + u16_at(b, o + 4) <= off,
    ensures
        ({
            let rec = u16_at(b, o + 4) as int;
            let rb = block_entries(b, o + rec);
            let rc = block_entries(c, o + rec);
            let f = Entry {
                ino: u32_at(b, o),
                ftype: b[o + 7],
                name: b.subrange(o + 8, o + 8 + b[o + 6]),
            };
            &&& block_sound(c, o) == block_sound(c, o + rec)
            &&& u32_at(b, o) == 0 ==> block_entries(b, o) == rb && block_entries(c, o) == rc
            &&& u32_at(b, o) != 0 ==> block_entries(b, o) == (seq![f] + rb.0, rb.1) && block_entries(
                c,
                o,
            ) == (seq![f] + rc.0, rc.1)
        }),
{
    let rec = u16_at(b, o + 4) as int;
    assert(u16_at(c, o + 4) == u16_at(b, o + 4));
    assert(u32_at(c, o) == u32_at(b, o));
    assert(c[o + 6] == b[o + 6]);
    assert(c[o + 7] == b[o + 7]);
    if u32_at(b, o) != 0 {
        let nl = b[o + 6] as int;
        assert(c.subrange(o + 8, o + 8 + nl) =~= b.subrange(o + 8, o + 8 + nl));
    }
}

proof fn entered_from(
    b: Seq<u8>,
    o: int,
    off: int,
    avail: int,
    need: int,
    e: Entry,
    m: Seq<u8>,
)
    requires
        b.len() == 4096,
        0 <= o,
        block_sound(b, o),
        8 + e.name.len() <= need,
        e.name.len() <= 255,
        e.ino != 0,
        slot_in_block(b, o, need) == Some((off, avail)),
    ensures
        ({
            let c = fill_slot(b, off, avail, need, e.ino, e.name, e.ftype);
            &&& c.len() == 4096
            &&& block_sound(c, o)
            &&& entered(block_entries(b, o).0, block_entries(c, o).0, e, m)
        }),
    decreases 4096 - o,
{
    let c = fill_slot(b, off, avail, need, e.ino, e.name, e.ftype);
    slot_has_room(b, o, need);
    slot_filled(b, off, avail, need, e.ino, e.name, e.ftype);
    let rec = u16_at(b, o + 4) as int;
    if o == off {
        tail_same(b, c, off + avail);
        let rest = block_entries(b, off + avail).0;
        if rec == 0 {
            assert(block_entries(b, o).0 == Seq::<Entry>::empty());
            assert(rest == Seq::<Entry>::empty());
            assert(block_sound(b, off + avail));
        } else {
            assert(block_entries(b, o) == block_entries(b, o + rec));
            assert(block_sound(b, o + rec));
        }
        entered_first(rest, e, m);
    } else {
        entered_from(b, o + rec, off, avail, need, e, m);
        entry_before(b, c, o, off);
        if u32_at(b, o) != 0 {
            let f = Entry {
                ino: u32_at(b, o),
                ftype: b[o + 7],
                name: b.subrange(o + 8, o + 8 + b[o + 6]),
            };
            entered_later(f, block_entries(b, o + rec).0, block_entries(c, o + rec).0, e, m);
        }
    }
}

/// Where a name is entered into a block, every other name is found to be what
/// it was, and the new one, if it was not there before, is found to be what
/// was entered.
pub proof fn name_entered(b: Seq<u8>, need: int, e: Entry, m: Seq<u8>)
    requires
        b.len() == 4096,
        block_sound(b, 0),
        8 + e.name.len() <= need,
        e.name.len() <= 255,
        e.ino != 0,
        slot_in_block(b, 0, need) is Some,
    ensures
        ({
            let (off, avail) = slot_in_block(b, 0, need)->0;
            let c = fill_slot(b, off, avail, need, e.ino, e.name, e.ftype);
            &&& c.len() == 4096
            &&& block_sound(c, 0)
            &&& only_added(block_entries(b, 0).0, block_entries(c, 0).0, e)
            &&& m != e.name ==> entry_named(block_entries(c, 0).0, m) == entry_named(
                block_entries(b, 0).0,
                m,
            ) && times(block_entries(c, 0).0, m) == times(block_entries(b, 0).0, m)
            &&& entry_named(block_entries(b, 0).0, e.name) is None ==> entry_named(
                block_entries(c, 0).0,
                e.name,
            ) == Some(e)
        }),
{
    let (off, avail) = slot_in_block(b, 0, need)->0;
    entered_from(b, 0, off, avail, need, e, m);
}

} // verus!
