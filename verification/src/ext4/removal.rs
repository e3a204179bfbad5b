//! Removing a name from a directory, and a file from the volume: the name is
//! gone, the blocks are free, and nothing else changes.

use vstd::prelude::*;
use crate::bytes::{splice, u16_at, u32_at, zero_bytes};
use crate::ext4::contents::{is_node, map_same, node_is_held, tree_holds, tree_same};
use crate::ext4::counts::steady;
use crate::ext4::entries::{
    block_sound, entry_before, named_alone, named_in_both, sound_is_good, tail_same, times,
    times_alone, times_in_both,
};
use crate::ext4::inodes::{admin_kept, data_reads_back};
use crate::ext4::model::{
    block_entries, del_from, dir_del, dir_entries, entries_from, entry_named, entry_off, file_block,
    ino_extents, ino_size, inode_load, logical_of, lookup_dir, read_block, write_block, Entry,
};
use crate::ext4::naming::{
    all_but_one, block_beside, dir_ready, entries_of_dir, lookup_is_named,
};
use crate::ext4::space::{block_len, in_use, is_system, Place};
use crate::ext4::tree::{blocks_sound, entries_good, uses};
use crate::fs::{FsErr, FsView};

verus! {

// ---------- entries ----------

/// A name is found where it stands at least once.
pub proof fn found_if_there(es: Seq<Entry>, m: Seq<u8>)
    ensures
        entry_named(es, m) is None == (times(es, m) == 0),
    decreases es.len(),
{
    if es.len() > 0 {
        found_if_there(es.skip(1), m);
    }
}

/// An entry with the name is counted.
pub proof fn counted_if_there(es: Seq<Entry>, e: Entry)
    requires
        es.contains(e),
    ensures
        times(es, e.name) >= 1,
    decreases es.len(),
{
    let k = choose|k: int| 0 <= k < es.len() && es[k] == e;
    if k > 0 {
        assert(es.skip(1)[k - 1] == e);
        counted_if_there(es.skip(1), e);
    }
}

/// What is counted is there.
proof fn there_if_counted(es: Seq<Entry>, m: Seq<u8>) -> (e: Entry)
    requires
        times(es, m) >= 1,
    ensures
        es.contains(e),
        e.name == m,
    decreases es.len(),
{
    if es[0].name == m {
        assert(es[0] == es[0]);
        es[0]
    } else {
        let e = there_if_counted(es.skip(1), m);
        let k = choose|k: int| 0 <= k < es.skip(1).len() && es.skip(1)[k] == e;
        assert(es[k + 1] == e);
        e
    }
}

/// No entry is new.
pub open spec fn only_fewer(es: Seq<Entry>, fs: Seq<Entry>) -> bool {
    forall|f: Entry| #[trigger] fs.contains(f) ==> es.contains(f)
}

proof fn fewer_in_both(a: Seq<Entry>, b: Seq<Entry>, c: Seq<Entry>, d: Seq<Entry>)
    requires
        only_fewer(a, c),
        only_fewer(b, d),
    ensures
        only_fewer(a + b, c + d),
{
    assert forall|f: Entry| #[trigger] (c + d).contains(f) implies (a + b).contains(f) by {
        let k = choose|k: int| 0 <= k < (c + d).len() && (c + d)[k] == f;
        if k < c.len() {
            assert(c[k] == f);
            assert(c.contains(f));
            let l = choose|l: int| 0 <= l < a.len() && a[l] == f;
            assert((a + b)[l] == f);
        } else {
            assert(d[k - c.len()] == f);
            assert(d.contains(f));
            let l = choose|l: int| 0 <= l < b.len() && b[l] == f;
            assert((a + b)[a.len() + l] == f);
        }
    }
}

/// A name that is not there does not come by removing.
proof fn fewer_none(es: Seq<Entry>, fs: Seq<Entry>, m: Seq<u8>)
    requires
        only_fewer(es, fs),
        times(es, m) == 0,
    ensures
        times(fs, m) == 0,
{
    if times(fs, m) >= 1 {
        let e = there_if_counted(fs, m);
        counted_if_there(es, e);
    }
}

/// What removing an entry does to a run of entries.
spec fn gone(es: Seq<Entry>, fs: Seq<Entry>, n: Seq<u8>, m: Seq<u8>) -> bool {
    &&& only_fewer(es, fs)
    &&& m != n ==> entry_named(fs, m) == entry_named(es, m)
    &&& times(es, n) == 1 + times(fs, n)
}

proof fn gone_first(e: Entry, es: Seq<Entry>, m: Seq<u8>)
    ensures
        gone(seq![e] + es, es, e.name, m),
{
    named_in_both(seq![e], es, m);
    times_in_both(seq![e], es, e.name);
    times_alone(e, e.name);
    named_alone(e, m);
    assert forall|f: Entry| #[trigger] es.contains(f) implies (seq![e] + es).contains(f) by {
        let k = choose|k: int| 0 <= k < es.len() && es[k] == f;
        assert((seq![e] + es)[k + 1] == f);
    }
}

proof fn gone_later(f: Entry, es: Seq<Entry>, fs: Seq<Entry>, n: Seq<u8>, m: Seq<u8>)
    requires
        gone(es, fs, n, m),
    ensures
        gone(seq![f] + es, seq![f] + fs, n, m),
{
    named_in_both(seq![f], es, m);
    named_in_both(seq![f], fs, m);
    times_in_both(seq![f], es, n);
    times_in_both(seq![f], fs, n);
    fewer_in_both(seq![f], es, seq![f], fs);
}

// ---------- a block ----------

/// A block without the entry that is found in it.
pub open spec fn wiped(b: Seq<u8>, o: int) -> Seq<u8> {
    splice(b, o, zero_bytes(4))
}

proof fn gone_from(b: Seq<u8>, o: int, off: int, n: Seq<u8>, m: Seq<u8>)
    requires
        b.len() == 4096,
        0 <= o,
        block_sound(b, o),
        entry_off(b, o, n) == Some(off),
    ensures
        o <= off <= 4088,
        block_sound(wiped(b, off), o),
        gone(block_entries(b, o).0, block_entries(wiped(b, off), o).0, n, m),
    decreases 4096 - o,
{
    let c = wiped(b, off);
    let rec = u16_at(b, o + 4) as int;
    let here = u32_at(b, o) != 0 && b[o + 6] == n.len() && o + 8 + n.len() <= 4096 && b.subrange(
        o + 8,
        o + 8 + n.len(),
    ) == n;
    if here {
        let e = Entry { ino: u32_at(b, o), ftype: b[o + 7], name: n };
        tail_same(b, c, o + rec);
        assert(u16_at(c, o + 4) == u16_at(b, o + 4));
        assert(c[o] == 0 && c[o + 1] == 0 && c[o + 2] == 0 && c[o + 3] == 0);
        assert(u32_at(c, o) == 0);
        assert(block_entries(c, o) == block_entries(c, o + rec));
        let rest = block_entries(b, o + rec).0;
        assert(block_entries(b, o).0 == seq![e] + rest);
        gone_first(e, rest, m);
    } else {
        gone_from(b, o + rec, off, n, m);
        entry_before(b, c, o, off);
        if u32_at(b, o) != 0 {
            let f = Entry {
                ino: u32_at(b, o),
                ftype: b[o + 7],
                name: b.subrange(o + 8, o + 8 + b[o + 6]),
            };
            gone_later(f, block_entries(b, o + rec).0, block_entries(c, o + rec).0, n, m);
        }
    }
}

/// Where no entry has the name, it is not counted.
proof fn none_there(b: Seq<u8>, o: int, n: Seq<u8>)
    requires
        b.len() == 4096,
        0 <= o,
        block_sound(b, o),
        entry_off(b, o, n) is None,
    ensures
        times(block_entries(b, o).0, n) == 0,
    decreases 4096 - o,
{
    let rec = u16_at(b, o + 4) as int;
    if o + 8 <= 4096 && rec != 0 && o + rec <= 4096 {
        none_there(b, o + rec, n);
        if u32_at(b, o) != 0 {
            let f = Entry {
                ino: u32_at(b, o),
                ftype: b[o + 7],
                name: b.subrange(o + 8, o + 8 + b[o + 6]),
            };
            times_in_both(seq![f], block_entries(b, o + rec).0, n);
            times_alone(f, n);
        }
    }
}

// ---------- a directory ----------

/// Where the first entry with the name stands: the block and the offset.
spec fn first_with(s: FsView, ib: Seq<u8>, off: int, size: int, n: Seq<u8>) -> Option<(u32, int)>
    decreases size + 4096 - off,
{
    if off >= size {
        None
    } else {
        match file_block(s, ib, off) {
            None => None,
            Some((p, b)) => match entry_off(b, 0, n) {
                Some(o) => Some((p, o)),
                None => first_with(s, ib, off + 4096, size, n),
            },
        }
    }
}

/// Removing a name wipes the first entry that has it.
proof fn del_is_wipe(s: FsView, ib: Seq<u8>, off: int, size: int, n: Seq<u8>)
    requires
        blocks_sound(s, ib, off, size),
        del_from(s, ib, off, size, n).1 is Ok,
    ensures
        first_with(s, ib, off, size, n) is Some,
        ({
            let (p, o) = first_with(s, ib, off, size, n)->0;
            let b = read_block(s, p as int)->0;
            &&& read_block(s, p as int) is Some
            &&& tree_holds(s, ib, p as int)
            &&& !is_node(s, ib, p as int)
            &&& block_sound(b, 0)
            &&& entry_off(b, 0, n) == Some(o)
            &&& write_block(s, p as int, wiped(b, o)).1
            &&& del_from(s, ib, off, size, n).0 == write_block(s, p as int, wiped(b, o)).0
        }),
    decreases size + 4096 - off,
{
    if off < size {
        map_same(s, s, ib, logical_of(off));
        let (p, b) = file_block(s, ib, off)->0;
        if entry_off(b, 0, n) is None {
            del_is_wipe(s, ib, off + 4096, size, n);
        }
    }
}

/// One block of the directory has changed: an entry was removed from it.
spec fn one_wiped(s: FsView, t: FsView, ib: Seq<u8>, phys: int, n: Seq<u8>) -> bool {
    &&& all_but_one(s, t, ib, phys)
    &&& entry_off(read_block(s, phys)->0, 0, n) is Some
    &&& read_block(t, phys) == Some(
        wiped(read_block(s, phys)->0, entry_off(read_block(s, phys)->0, 0, n)->0),
    )
}

proof fn gone_in_dir(
    s: FsView,
    t: FsView,
    ib: Seq<u8>,
    phys: int,
    n: Seq<u8>,
    off: int,
    size: int,
    m: Seq<u8>,
)
    requires
        one_wiped(s, t, ib, phys, n),
        blocks_sound(s, ib, off, size),
    ensures
        blocks_sound(t, ib, off, size),
        only_fewer(entries_from(s, ib, off, size).0, entries_from(t, ib, off, size).0),
        m != n ==> entry_named(entries_from(t, ib, off, size).0, m) == entry_named(
            entries_from(s, ib, off, size).0,
            m,
        ),
        (first_with(s, ib, off, size, n) matches Some(x) && x.0 == phys) && times(
            entries_from(s, ib, off, size).0,
            n,
        ) <= 1 ==> times(entries_from(t, ib, off, size).0, n) == 0,
    decreases size + 4096 - off,
{
    if off < size {
        block_beside(s, t, ib, phys, off);
        gone_in_dir(s, t, ib, phys, n, off + 4096, size, m);
        let (p, b) = file_block(s, ib, off)->0;
        let (q, c) = file_block(t, ib, off)->0;
        block_len(s, phys);
        if p == phys {
            gone_from(b, 0, entry_off(b, 0, n)->0, n, m);
        } else {
            block_len(s, p as int);
        }
        sound_is_good(b, 0);
        sound_is_good(c, 0);
        let eb = block_entries(b, 0).0;
        let ec = block_entries(c, 0).0;
        let rb = entries_from(s, ib, off + 4096, size).0;
        let rc = entries_from(t, ib, off + 4096, size).0;
        assert(entries_from(s, ib, off, size).0 == eb + rb);
        assert(entries_from(t, ib, off, size).0 == ec + rc);
        named_in_both(eb, rb, m);
        named_in_both(ec, rc, m);
        fewer_in_both(eb, rb, ec, rc);
        times_in_both(eb, rb, n);
        times_in_both(ec, rc, n);
        if p == phys {
            if times(rb, n) == 0 {
                fewer_none(rb, rc, n);
            }
        } else if entry_off(b, 0, n) is None {
            none_there(b, 0, n);
        }
    }
}

/// What removing the name `n` from directory `p` does.
pub open spec fn unnamed_in(s: FsView, t: FsView, pl: Seq<Place>, p: u32, n: Seq<u8>) -> bool {
    &&& dir_ready(t, pl, p)
    &&& steady(s, t)
    &&& admin_kept(s, t, pl)
    &&& forall|b: int|
        !is_system(s, pl, b) && !uses(s, p, b) ==> #[trigger] read_block(t, b) == read_block(s, b)
    &&& forall|b: int| #[trigger] uses(t, p, b) == uses(s, p, b)
    &&& only_fewer(dir_entries(s, p).0, dir_entries(t, p).0)
    &&& forall|m: Seq<u8>|
        m != n && lookup_dir(s, p, m) is Ok ==> #[trigger] lookup_dir(t, p, m) == lookup_dir(s, p, m)
    &&& times(dir_entries(s, p).0, n) <= 1 ==> times(dir_entries(t, p).0, n) == 0 && lookup_dir(
        t,
        p,
        n,
    ) == Err::<(u32, u8), FsErr>(FsErr::NotFound)
}

/// A name that was removed from a directory, and stood there once, is not
/// found any more; the other names lead where they led, and nothing else
/// changes.
#[verifier::spinoff_prover]
pub proof fn name_is_removed(s: FsView, pl: Seq<Place>, p: u32, n: Seq<u8>)
    requires
        dir_ready(s, pl, p),
        dir_del(s, p, n).1 is Ok,
    ensures
        unnamed_in(s, dir_del(s, p, n).0, pl, p, n),
{
    let raw = inode_load(s, p)->Ok_0;
    let ib = ino_extents(raw);
    let size = ino_size(raw) as int;
    assert(dir_del(s, p, n) == del_from(s, ib, 0, size, n)) by {
        reveal(dir_del);
    }
    del_is_wipe(s, ib, 0, size, n);
    let (phys, o) = first_with(s, ib, 0, size, n)->0;
    let b = read_block(s, phys as int)->0;
    assert(uses(s, p, phys as int));
    block_len(s, phys as int);
    let c = wiped(b, o);
    data_reads_back(s, pl, phys as int, c);
    let t = dir_del(s, p, n).0;
    assert(inode_load(t, p) == inode_load(s, p));
    assert forall|x: int| tree_holds(s, ib, x) && x != phys implies #[trigger] read_block(t, x)
        == read_block(s, x) by {
        assert(uses(s, p, x));
    }
    assert(one_wiped(s, t, ib, phys as int, n));
    assert forall|x: int| is_node(s, ib, x) implies #[trigger] read_block(t, x) == read_block(s, x) by {
        node_is_held(s, ib, x);
    }
    assert forall|x: int| #[trigger] uses(t, p, x) == uses(s, p, x) by {
        tree_same(s, t, ib, x);
    }
    assert forall|x: int| #[trigger] uses(t, p, x) implies in_use(t, pl, x) && !is_system(t, pl, x) by {
        assert(uses(s, p, x));
    }
    entries_of_dir(s, p);
    entries_of_dir(t, p);
    gone_in_dir(s, t, ib, phys as int, n, 0, size, n);
    assert forall|m: Seq<u8>| m != n && lookup_dir(s, p, m) is Ok implies #[trigger] lookup_dir(t, p, m)
        == lookup_dir(s, p, m) by {
        gone_in_dir(s, t, ib, phys as int, n, 0, size, m);
        lookup_is_named(s, p, m);
        lookup_is_named(t, p, m);
    }
    if times(dir_entries(s, p).0, n) <= 1 {
        found_if_there(dir_entries(t, p).0, n);
        entries_good(t, ib, 0, size);
        reveal(lookup_dir);
    }
}

} // verus!
