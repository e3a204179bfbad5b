//! The tables of a FAT volume are copies of each other.

use vstd::prelude::*;
use crate::bytes::{put32, put32_then_read, splice_keeps_fields, u32_at};
use crate::fat::model::{make_83, write_fat, write_tables};
use crate::fs::{FatInfo, FsView};

verus! {

proof fn tables_written(s: FsView, i: FatInfo, sec: int, b: Seq<u8>, f: int, k: int)
    requires
        0 <= f,
        write_tables(s, i, sec, b, f).1,
    ensures
        f <= k < i.num_fats ==> write_tables(s, i, sec, b, f).0.raw_read(sec + k * i.fat_size) == Some(
            b,
        ),
        s.raw_read(sec + k * i.fat_size) == Some(b) ==> write_tables(s, i, sec, b, f).0.raw_read(
            sec + k * i.fat_size,
        ) == Some(b),
    decreases i.num_fats - f,
{
    if f < i.num_fats {
        let s1 = s.raw_write(sec + f * i.fat_size, b)->0;
        tables_written(s1, i, sec, b, f + 1, k);
    }
}

/// An entry that is written stands in every copy of the table: in each of them it
/// reads as what was written, and the other entries of its sector are those of
/// the first copy.
pub proof fn entries_stand_in_every_table(s: FsView, i: FatInfo, clu: int, v: u32, k: int, other: int)
    requires
        0 <= clu,
        s.raw_read(i.rsvc + clu / 128) is Some,
        s.raw_read(i.rsvc + clu / 128)->0.len() == 512,
        write_fat(s, i, clu, v).1,
        0 <= k < i.num_fats,
        0 <= other < 128,
        other != clu % 128,
    ensures
        ({
            let t = write_fat(s, i, clu, v).0;
            let sec = i.rsvc + clu / 128 + k * i.fat_size;
            &&& t.raw_read(sec) is Some
            &&& u32_at(t.raw_read(sec)->0, 4 * (clu % 128)) == v
            &&& u32_at(t.raw_read(sec)->0, 4 * other) == u32_at(
                s.raw_read(i.rsvc + clu / 128)->0,
                4 * other,
            )
        }),
{
    reveal(write_fat);
    let b = s.raw_read(i.rsvc + clu / 128)->0;
    let o = 4 * (clu % 128);
    let c = put32(b, o, v);
    tables_written(s, i, i.rsvc + clu / 128, c, 0, k);
    put32_then_read(b, o, v);
    splice_keeps_fields(b, o, crate::bytes::le32(v), 4 * other);
}

/// Names that differ only in the case of their letters are the same name.
pub proof fn names_pass_over_case(a: Seq<char>, b: Seq<char>)
    requires
        a.len() == b.len(),
        forall|k: int|
            0 <= k < a.len() ==> #[trigger] a[k] == b[k] || ('A' <= a[k] <= 'Z' && b[k] as int
                == a[k] as int + 32) || ('A' <= b[k] <= 'Z' && a[k] as int == b[k] as int + 32),
    ensures
        make_83(a) == make_83(b),
{
    dots_match(a, b);
    let p = crate::fat::model::dot_pos(a);
    let (sa, sb) = (crate::fat::model::stem(a), crate::fat::model::stem(b));
    let (ea, eb) = (crate::fat::model::extension(a), crate::fat::model::extension(b));
    assert forall|k: int| 0 <= k < sa.len() implies #[trigger] sa[k] == a[k] && sb[k] == b[k]
        && alike(sa[k], sb[k]) by {
        assert(alike(a[k], b[k]));
    }
    assert forall|k: int| 0 <= k < ea.len() implies #[trigger] ea[k] == a[p + 1 + k] && eb[k] == b[p + 1
        + k] && alike(ea[k], eb[k]) by {
        assert(alike(a[p + 1 + k], b[p + 1 + k]));
    }
    parts_match(sa, sb, 8);
    parts_match(ea, eb, 3);
}

/// The two characters are the same but for the case of a letter.
spec fn alike(c: char, d: char) -> bool {
    c == d || ('A' <= c <= 'Z' && d as int == c as int + 32) || ('A' <= d <= 'Z' && c as int == d as int
        + 32)
}

proof fn parts_match(a: Seq<char>, b: Seq<char>, n: nat)
    requires
        a.len() == b.len(),
        forall|k: int| 0 <= k < a.len() ==> alike(#[trigger] a[k], b[k]),
    ensures
        crate::fat::model::all_name_chars(a) == crate::fat::model::all_name_chars(b),
        crate::fat::model::no_dots(a) == crate::fat::model::no_dots(b),
        crate::fat::model::all_name_chars(a) ==> crate::fat::model::padded(a, n)
            == crate::fat::model::padded(b, n),
{
    assert forall|k: int| 0 <= k < a.len() implies crate::fat::model::name_char(#[trigger] a[k])
        == crate::fat::model::name_char(b[k]) && (a[k] == '.') == (b[k] == '.') by {
        assert(alike(a[k], b[k]));
    }
    if crate::fat::model::all_name_chars(a) {
        assert forall|k: int| 0 <= k < b.len() implies crate::fat::model::name_char(
            #[trigger] b[k],
        ) by {
            assert(crate::fat::model::name_char(a[k]));
        }
        assert forall|k: int| 0 <= k < a.len() implies crate::fat::model::upper(
            #[trigger] a[k] as u8,
        ) == crate::fat::model::upper(b[k] as u8) by {
            assert(alike(a[k], b[k]));
        }
        assert(crate::fat::model::padded(a, n) =~= crate::fat::model::padded(b, n));
    } else {
        let k = choose|k: int| 0 <= k < a.len() && !crate::fat::model::name_char(#[trigger] a[k]);
        assert(!crate::fat::model::name_char(b[k]));
    }
    if crate::fat::model::no_dots(a) {
        assert forall|k: int| 0 <= k < b.len() implies #[trigger] b[k] != '.' by {
            assert(a[k] != '.');
        }
    } else {
        let k = choose|k: int| 0 <= k < a.len() && #[trigger] a[k] == '.';
        assert(b[k] == '.');
    }
}

proof fn dots_match(a: Seq<char>, b: Seq<char>)
    requires
        a.len() == b.len(),
        forall|k: int|
            0 <= k < a.len() ==> #[trigger] a[k] == b[k] || ('A' <= a[k] <= 'Z' && b[k] as int
                == a[k] as int + 32) || ('A' <= b[k] <= 'Z' && a[k] as int == b[k] as int + 32),
    ensures
        crate::fat::model::dot_pos(a) == crate::fat::model::dot_pos(b),
        0 <= crate::fat::model::dot_pos(a) <= a.len(),
    decreases a.len(),
{
    if a.len() > 0 {
        assert(alike(a[0], b[0]));
        let (c, d) = (a.skip(1), b.skip(1));
        assert forall|k: int|
            0 <= k < c.len() implies #[trigger] c[k] == d[k] || ('A' <= c[k] <= 'Z' && d[k] as int
            == c[k] as int + 32) || ('A' <= d[k] <= 'Z' && c[k] as int == d[k] as int + 32) by {
            assert(alike(a[k + 1], b[k + 1]));
        }
        dots_match(c, d);
    }
}

} // verus!
