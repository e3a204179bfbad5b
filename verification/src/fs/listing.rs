//! What a listing tells: it shows the things of a directory under their names,
//! as what they are.

use vstd::prelude::*;
use crate::ext4;
use crate::ext4::entries::named_is_there;
use crate::fat;
use crate::fat::model::{make_83, shown_name};
use crate::fs::effects::fat_name_once;
use crate::fs::laws::{
    has_room, has_room_for, leads, made_directory_keeps_sound, names_fat_dir, settled, sound,
    stands_once, stays_mounted, touched_file_is_empty, volume_stays_sound, written_file_reads_back,
    Ground,
};
use crate::fs::model::{cd, ls, mkdir, mv, part_of, read_file, rm, rmdir, touch, walk, write_file};
use crate::fs::{FatInfo, FsErr, FsKind, FsView, ListingView};
use crate::path::{components, name_alone};

verus! {

/// A name that stands in a listing as it is typed: on ext4 up to 63 printable
/// characters, without a slash, and without the mark that stands for other
/// characters; on FAT up to eight characters and an extension of up to three,
/// none of them a capital letter.
pub open spec fn typed(s: FsView, name: Seq<char>) -> bool {
    match s.mount {
        None => false,
        Some(FsKind::Ext4) => 1 <= name.len() < 64 && (forall|k: int|
            0 <= k < name.len() ==> ' ' <= #[trigger] name[k] <= '~' && name[k] != '/' && name[k]
                != '?'),
        Some(FsKind::Fat) => fat::model::valid_83(name) && name.last() != '.' && (forall|k: int|
            0 <= k < name.len() ==> !('A' <= #[trigger] name[k] <= 'Z')),
    }
}

/// A name that the current directory can be changed to: up to twelve characters,
/// on FAT up to eight and no extension, and not one of those that stand for the
/// directory itself and the one above it.
pub open spec fn short(s: FsView, name: Seq<char>) -> bool {
    &&& name != seq!['.']
    &&& name != seq!['.', '.']
    &&& name.len() <= 12
    &&& s.mount == Some(FsKind::Fat) ==> name.len() <= 8 && (forall|k: int|
        0 <= k < name.len() ==> #[trigger] name[k] != '.')
}

/// The lines of the current directory.
pub open spec fn lines(s: FsView) -> Seq<ListingView> {
    ls(s, Seq::empty()).0
}

/// A line of the current directory has the name and shows a directory.
pub open spec fn listed_as_dir(s: FsView, name: Seq<char>) -> bool {
    exists|k: int|
        0 <= k < lines(s).len() && (#[trigger] lines(s)[k]).name == name && lines(s)[k].is_dir
}

/// A line of the current directory has the name and shows a file of the size.
pub open spec fn listed_as_file(s: FsView, name: Seq<char>, size: int) -> bool {
    exists|k: int|
        0 <= k < lines(s).len() && (#[trigger] lines(s)[k]).name == name && !lines(s)[k].is_dir
            && lines(s)[k].size is Some && lines(s)[k].size->0 == size
}

/// The line is the first one with its name.
pub open spec fn first_line(s: FsView, k: int) -> bool {
    &&& 0 <= k < lines(s).len()
    &&& forall|j: int| 0 <= j < k ==> (#[trigger] lines(s)[j]).name != lines(s)[k].name
}

/// On a FAT volume, each name of the current directory can be typed as it is
/// shown.
pub open spec fn names_can_be_typed(s: FsView) -> bool {
    s.mount == Some(FsKind::Fat) ==> forall|k: int|
        0 <= k < here_fat(s).len() ==> make_83(shown_name((#[trigger] here_fat(s)[k]).name)) == Ok::<
            Seq<u8>,
            FsErr,
        >(here_fat(s)[k].name)
}

/// The entries of the current directory of a FAT volume.
pub open spec fn here_fat(s: FsView) -> Seq<fat::model::Entry> {
    let i = s.fat->0;
    fat::model::dir_list(s, i, fat::model::follow_parts(s, i, i.root_clus, s.cwd)->Ok_0 as int)
}

// ---------- ext4 ----------

/// The bytes of a name.
spec fn bytes_of(name: Seq<char>) -> Seq<u8> {
    Seq::new(name.len(), |i: int| name[i] as u8)
}

proof fn parts_pushed(s: FsView, dir: u32, parts: Seq<Seq<u8>>, n: Seq<u8>)
    ensures
        ext4::model::follow_parts(s, dir, parts.push(n)) == (match ext4::model::follow_parts(
            s,
            dir,
            parts,
        ) {
            Err(e) => Err(e),
            Ok(d) => match ext4::model::lookup_dir(s, d, n) {
                Err(e) => Err(e),
                Ok((i, ft)) => if ft != 2 {
                    Err(FsErr::NotDir)
                } else {
                    Ok(i)
                },
            },
        }),
    decreases parts.len(),
{
    let more = parts.push(n);
    if parts.len() == 0 {
        assert(more[0] == n);
        assert(more.skip(1) =~= Seq::<Seq<u8>>::empty());
        if let Ok((i, ft)) = ext4::model::lookup_dir(s, dir, n) {
            assert(ext4::model::follow_parts(s, i, more.skip(1)) == Ok::<u32, FsErr>(i));
        }
    } else {
        assert(more[0] == parts[0]);
        assert(more.skip(1) =~= parts.skip(1).push(n));
        if let Ok((i, ft)) = ext4::model::lookup_dir(s, dir, parts[0]) {
            parts_pushed(s, i, parts.skip(1), n);
        }
    }
}

/// The current directory of an ext4 volume, and what a name in it leads to.
proof fn ext4_here(s: FsView, name: Seq<char>)
    requires
        s.mount == Some(FsKind::Ext4),
        typed(s, name),
        ls(s, Seq::empty()).1 is Ok,
    ensures
        ext4::model::follow_parts(s, 2, s.cwd) is Ok,
        ({
            let d = ext4::model::follow_parts(s, 2, s.cwd)->Ok_0;
            let n = bytes_of(name);
            let (es, err) = ext4::model::dir_entries(s, d);
            &&& err is None
            &&& lines(s).len() == es.len()
            &&& forall|k: int|
                0 <= k < es.len() ==> #[trigger] lines(s)[k] == ext4::model::listing_of(s, es[k])
            &&& ext4::model::target(s, name) == Ok::<(u32, Seq<u8>), FsErr>((d, n))
            &&& ext4::model::resolve_from_cwd(s, name) == (match ext4::model::lookup_dir(s, d, n) {
                Err(e) => Err(e),
                Ok((i, ft)) => if ft != 2 {
                    Err(FsErr::NotDir)
                } else {
                    Ok(i)
                },
            })
            &&& short(s, name) && s.cwd.len() < 16 ==> cd(s, name).1 == (match ext4::model::lookup_dir(
                s,
                d,
                n,
            ) {
                Err(e) => Err(e),
                Ok((i, ft)) => if ft != 2 {
                    Err(FsErr::NotDir)
                } else {
                    Ok(())
                },
            })
        }),
{
    reveal(ext4::model::resolve_from_cwd);
    reveal(ext4::model::target);
    let none = Seq::<char>::empty();
    name_alone(name);
    assert(components(none) =~= Seq::<Seq<char>>::empty());
    let d = ext4::model::follow_parts(s, 2, s.cwd)->Ok_0;
    let n = bytes_of(name);
    assert(ext4::model::name_bytes(name) == Ok::<Seq<u8>, FsErr>(n)) by {
        assert(forall|i: int| 0 <= i < name.len() ==> ext4::model::name_char(#[trigger] name[i]));
    }
    let names = seq![name];
    assert(names.skip(1) =~= Seq::<Seq<char>>::empty());
    if let Ok((i, ft)) = ext4::model::lookup_dir(s, d, n) {
        assert(ext4::model::follow(s, i, names.skip(1)) == Ok::<u32, FsErr>(i));
    }
    if short(s, name) && s.cwd.len() < 16 {
        assert(part_of(name) =~= n);
        assert(walk(s.cwd.push(n), names.skip(1)) == Ok::<Seq<Seq<u8>>, FsErr>(s.cwd.push(n)));
        parts_pushed(s, 2, s.cwd, n);
    }
}

/// A line has the name exactly where the entry has it.
proof fn ext4_name_is_shown(s: FsView, e: ext4::model::Entry, name: Seq<char>)
    requires
        s.mount == Some(FsKind::Ext4),
        typed(s, name),
    ensures
        (ext4::model::listing_of(s, e).name == name) == (e.name == bytes_of(name)),
{
    let l = ext4::model::listing_of(s, e).name;
    if e.name == bytes_of(name) {
        assert forall|k: int| 0 <= k < name.len() implies l[k] == name[k] by {
            assert(' ' <= name[k] <= '~');
            assert(e.name[k] == name[k] as u8);
        }
        assert(l =~= name);
    }
    if l == name {
        assert(e.name.len() == name.len());
        assert forall|k: int| 0 <= k < name.len() implies e.name[k] == bytes_of(name)[k] by {
            assert(l[k] == name[k]);
            assert(' ' <= name[k] <= '~' && name[k] != '?');
        }
        assert(e.name =~= bytes_of(name));
    }
}

proof fn first_is_named(es: Seq<ext4::model::Entry>, n: Seq<u8>, k: int)
    requires
        0 <= k < es.len(),
        es[k].name == n,
        forall|j: int| 0 <= j < k ==> (#[trigger] es[j]).name != n,
    ensures
        ext4::model::entry_named(es, n) == Some(es[k]),
    decreases es.len(),
{
    if k > 0 {
        assert(es[0].name != n);
        assert forall|j: int| 0 <= j < k - 1 implies (#[trigger] es.skip(1)[j]).name != n by {
            assert(es[j + 1].name != n);
        }
        first_is_named(es.skip(1), n, k - 1);
    }
}

proof fn data_length(s: FsView, ib: Seq<u8>, at: int, want: int)
    requires
        0 <= at <= want,
        !ext4::model::data_from(s, ib, at, want).1,
    ensures
        ext4::model::data_from(s, ib, at, want).0.len() == want - at,
    decreases want - at,
{
    if at < want {
        let n = ext4::model::min_int(want - at, 4096);
        ext4::space::block_len(s, (ext4::model::file_block(s, ib, at)->0).0 as int);
        data_length(s, ib, at + n, want);
    }
}

proof fn ext4_listed(s: FsView, pl: Seq<ext4::space::Place>, live: Set<u32>, name: Seq<char>)
    requires
        sound(s, Ground::Ext4(pl, live)),
        typed(s, name),
        ls(s, Seq::empty()).1 is Ok,
    ensures
        ({
            let d = ext4::model::follow_parts(s, 2, s.cwd)->Ok_0;
            match ext4::model::lookup_dir(s, d, bytes_of(name)) {
                Ok((i, ft)) => {
                    &&& live.contains(i)
                    &&& ft == 2 ==> ls(s, name).1 is Ok && read_file(s, name, 0).1 == Some(
                        FsErr::IsDir,
                    )
                    &&& exists|k: int|
                        0 <= k < lines(s).len() && (#[trigger] lines(s)[k]).name == name
                            && lines(s)[k].is_dir == (ft == 2) && lines(s)[k].size == (
                        match ext4::model::inode_load(s, i) {
                            Ok(raw) => Some(ext4::model::ino_size(raw)),
                            Err(_) => Some(0u64),
                        })
                },
                Err(e) => {
                    &&& e == FsErr::NotFound
                    &&& forall|k: int|
                        0 <= k < lines(s).len() ==> (#[trigger] lines(s)[k]).name != name
                },
            }
        }),
{
    ext4_here(s, name);
    reveal(ext4::model::lookup_dir);
    let d = ext4::model::follow_parts(s, 2, s.cwd)->Ok_0;
    let n = bytes_of(name);
    let (es, err) = ext4::model::dir_entries(s, d);
    named_is_there(es, n);
    assert(ext4::tree::ways_kept(s, s, live));
    ext4::tree::target_kept(s, s, pl, live, name);
    ext4::tree::found_lives(s, pl, live, d, n);
    match ext4::model::entry_named(es, n) {
        Some(e) => {
            let k = choose|k: int| 0 <= k < es.len() && #[trigger] es[k] == e;
            assert(lines(s)[k] == ext4::model::listing_of(s, es[k]));
            ext4_name_is_shown(s, e, name);
            if e.ftype == 2 {
                let raw = ext4::model::inode_load(s, e.ino)->Ok_0;
                assert(live.contains(e.ino) && ext4::tree::is_dir(s, e.ino));
                ext4::tree::entries_good(
                    s,
                    ext4::model::ino_extents(raw),
                    0,
                    ext4::model::ino_size(raw) as int,
                );
                ext4::naming::entries_of_dir(s, e.ino);
            }
        },
        None => {
            assert forall|k: int| 0 <= k < lines(s).len() implies (#[trigger] lines(s)[k]).name
                != name by {
                ext4_name_is_shown(s, es[k], name);
                if es[k].name == n {
                    assert(es.contains(es[k]));
                    ext4::removal::counted_if_there(es, es[k]);
                    ext4::removal::found_if_there(es, n);
                }
            }
        },
    }
}

// ---------- FAT ----------

proof fn stem_ends(n: Seq<u8>, k: int, m: int)
    requires
        0 <= k <= m <= 8,
        n.len() == 11,
        forall|j: int| k <= j < m ==> #[trigger] n[j] != 32,
        m < 8 ==> n[m] == 32,
    ensures
        fat::model::stem_len(n, k) == m,
    decreases m - k,
{
    if k < m {
        assert(n[k] != 32);
        stem_ends(n, k + 1, m);
    }
}

proof fn dot_is(name: Seq<char>)
    ensures
        0 <= fat::model::dot_pos(name) <= name.len(),
        fat::model::dot_pos(name) < name.len() ==> name[fat::model::dot_pos(name)] == '.',
        forall|k: int| 0 <= k < fat::model::dot_pos(name) ==> #[trigger] name[k] != '.',
    decreases name.len(),
{
    if name.len() > 0 && name[0] != '.' {
        dot_is(name.skip(1));
        assert forall|k: int| 0 <= k < fat::model::dot_pos(name) implies #[trigger] name[k]
            != '.' by {
            if k > 0 {
                assert(name.skip(1)[k - 1] == name[k]);
            }
        }
    }
}

/// A byte that is no capital letter comes back from capitals.
proof fn letters_come_back(c: char)
    requires
        fat::model::name_char(c),
        !('A' <= c <= 'Z'),
    ensures
        fat::model::lower(fat::model::upper(c as u8)) as char == c,
        fat::model::upper(c as u8) != 32,
{
}

/// A name stands in a listing as it was typed.
proof fn shown_as_typed(name: Seq<char>)
    requires
        fat::model::valid_83(name),
        name.last() != '.',
        forall|k: int| 0 <= k < name.len() ==> !('A' <= #[trigger] name[k] <= 'Z'),
    ensures
        make_83(name) is Ok,
        shown_name(make_83(name)->Ok_0) == name,
{
    let n = make_83(name)->Ok_0;
    let stem = fat::model::stem(name);
    let ext = fat::model::extension(name);
    let p = fat::model::dot_pos(name);
    dot_is(name);
    assert forall|k: int| 0 <= k < stem.len() implies #[trigger] n[k] != 32
        && fat::model::lower(n[k]) as char == stem[k] by {
        assert(stem[k] == name[k]);
        letters_come_back(stem[k]);
    }
    assert forall|k: int| 0 <= k < ext.len() implies n[8 + k] != 32 && fat::model::lower(
        n[8 + k],
    ) as char == #[trigger] ext[k] by {
        assert(ext[k] == name[p + 1 + k]);
        letters_come_back(ext[k]);
    }
    stem_ends(n, 0, stem.len() as int);
    if ext.len() == 0 {
        assert(n[8] == 32);
        if p < name.len() {
            assert(p == name.len() - 1);
        }
        assert(shown_name(n) =~= name);
    } else {
        assert(n[8] != 32) by {
            assert(fat::model::lower(n[8 + 0int]) as char == ext[0]);
        }
        assert(fat::model::shown_ext(n, 8) =~= ext) by {
            reveal_with_fuel(fat::model::shown_ext, 4);
            assert(ext[0] == ext[0]);
            if ext.len() > 1 {
                assert(ext[1] == ext[1]);
            }
            if ext.len() > 2 {
                assert(ext[2] == ext[2]);
            }
        }
        assert(shown_name(n) =~= stem + seq!['.'] + ext);
        assert(name =~= stem + seq!['.'] + ext);
    }
}

proof fn fat_parts_pushed(
    s: FsView,
    i: FatInfo,
    clu: u32,
    parts: Seq<Seq<u8>>,
    n: Seq<u8>,
)
    ensures
        fat::model::follow_parts(s, i, clu, parts.push(n)) == (match fat::model::follow_parts(
            s,
            i,
            clu,
            parts,
        ) {
            Err(e) => Err(e),
            Ok(d) => fat::model::look_up_dir(s, i, d as int, fat::model::part_83(n)),
        }),
    decreases parts.len(),
{
    let more = parts.push(n);
    if parts.len() == 0 {
        assert(more[0] == n);
        assert(more.skip(1) =~= Seq::<Seq<u8>>::empty());
        if let Ok(c) = fat::model::look_up_dir(s, i, clu as int, fat::model::part_83(n)) {
            assert(fat::model::follow_parts(s, i, c, more.skip(1)) == Ok::<u32, FsErr>(c));
        }
    } else {
        assert(more[0] == parts[0]);
        assert(more.skip(1) =~= parts.skip(1).push(n));
        if let Ok(c) = fat::model::look_up_dir(s, i, clu as int, fat::model::part_83(parts[0])) {
            fat_parts_pushed(s, i, c, parts.skip(1), n);
        }
    }
}

/// A name without an extension is the same in the current directory.
proof fn part_is_name(name: Seq<char>)
    requires
        fat::model::valid_83(name),
        name.len() <= 8,
        forall|k: int| 0 <= k < name.len() ==> #[trigger] name[k] != '.',
    ensures
        make_83(name) == Ok::<Seq<u8>, FsErr>(fat::model::part_83(part_of(name))),
{
    dot_is(name);
    assert(fat::model::stem(name) =~= name);
    assert(fat::model::extension(name) =~= Seq::<char>::empty());
    assert(fat::model::padded(name, 8) + fat::model::padded(Seq::empty(), 3)
        =~= fat::model::part_83(part_of(name)));
}

/// The current directory of a FAT volume, and what a name in it leads to.
proof fn fat_here(s: FsView, name: Seq<char>)
    requires
        s.mount == Some(FsKind::Fat),
        s.fat is Some,
        typed(s, name),
        ls(s, Seq::empty()).1 is Ok,
    ensures
        ({
            let i = s.fat->0;
            let d = fat::model::follow_parts(s, i, i.root_clus, s.cwd)->Ok_0;
            let n = make_83(name)->Ok_0;
            let es = here_fat(s);
            &&& fat::model::follow_parts(s, i, i.root_clus, s.cwd) is Ok
            &&& es == fat::model::dir_list(s, i, d as int)
            &&& lines(s).len() == es.len()
            &&& forall|k: int|
                0 <= k < es.len() ==> #[trigger] lines(s)[k] == fat::model::listing_of(es[k])
            &&& fat::model::target(s, i, name) == Ok::<(u32, Seq<u8>), FsErr>((d, n))
            &&& fat::model::resolve_from_cwd(s, i, name) == fat::model::look_up_dir(
                s,
                i,
                d as int,
                n,
            )
            &&& short(s, name) && s.cwd.len() < 16 ==> (cd(s, name).1 is Ok
                == fat::model::look_up_dir(s, i, d as int, n) is Ok)
        }),
{
    reveal(fat::model::resolve_from_cwd);
    reveal(fat::model::target);
    let i = s.fat->0;
    let none = Seq::<char>::empty();
    assert(components(none) =~= Seq::<Seq<char>>::empty());
    dot_is(name);
    assert forall|k: int| 0 <= k < name.len() implies #[trigger] name[k] != '/' by {
        let p = fat::model::dot_pos(name);
        if k < p {
            assert(fat::model::stem(name)[k] == name[k]);
        } else if k > p {
            assert(fat::model::extension(name)[k - p - 1] == name[k]);
        }
    }
    name_alone(name);
    let d = fat::model::follow_parts(s, i, i.root_clus, s.cwd)->Ok_0;
    let n = make_83(name)->Ok_0;
    let names = seq![name];
    assert(names.skip(1) =~= Seq::<Seq<char>>::empty());
    assert(name != seq!['.'] && name != seq!['.', '.']) by {
        if name == seq!['.'] || name == seq!['.', '.'] {
            assert(name[0] == '.');
        }
    }
    if let Ok(c) = fat::model::look_up_dir(s, i, d as int, n) {
        assert(fat::model::follow(s, i, c, names.skip(1)) == Ok::<u32, FsErr>(c));
    }
    if short(s, name) && s.cwd.len() < 16 {
        part_is_name(name);
        let m = part_of(name);
        assert(walk(s.cwd.push(m), names.skip(1)) == Ok::<Seq<Seq<u8>>, FsErr>(s.cwd.push(m)));
        fat_parts_pushed(s, i, i.root_clus, s.cwd, m);
    }
}

proof fn match_is_there(es: Seq<fat::model::Entry>, n: Seq<u8>)
    ensures
        match fat::model::first_match(es, Some(n)) {
            Some(e) => e.name == n && exists|k: int| 0 <= k < es.len() && #[trigger] es[k] == e,
            None => forall|k: int| 0 <= k < es.len() ==> (#[trigger] es[k]).name != n,
        },
    decreases es.len(),
{
    if es.len() > 0 {
        match_is_there(es.skip(1), n);
        if es[0].name == n {
            assert(es[0] == es[0]);
        } else {
            match fat::model::first_match(es.skip(1), Some(n)) {
                Some(e) => {
                    let k = choose|k: int| 0 <= k < es.skip(1).len() && #[trigger] es.skip(1)[k] == e;
                    assert(es[k + 1] == e);
                },
                None => {
                    assert forall|k: int| 0 <= k < es.len() implies (#[trigger] es[k]).name != n by {
                        if k > 0 {
                            assert(es.skip(1)[k - 1] == es[k]);
                        }
                    }
                },
            }
        }
    }
}

proof fn fat_first_matches(es: Seq<fat::model::Entry>, n: Seq<u8>, k: int)
    requires
        0 <= k < es.len(),
        es[k].name == n,
        forall|j: int| 0 <= j < k ==> (#[trigger] es[j]).name != n,
    ensures
        fat::model::first_match(es, Some(n)) == Some(es[k]),
    decreases es.len(),
{
    if k > 0 {
        assert(es[0].name != n);
        assert forall|j: int| 0 <= j < k - 1 implies (#[trigger] es.skip(1)[j]).name != n by {
            assert(es[j + 1].name != n);
        }
        fat_first_matches(es.skip(1), n, k - 1);
    }
}

// ---------- laws ----------

/// What a path leads to stands in the listing of its directory, as what it is: a
/// name that can be listed, or that the current directory can be changed to, is
/// shown as a directory, and a name that can be read is shown as a file, with
/// the size that bounds what is read; on ext4 that is its length.
pub proof fn named_things_are_listed(s: FsView, g: Ground, name: Seq<char>, room: int)
    requires
        sound(s, g),
        s.disk.wf(),
        typed(s, name),
        ls(s, Seq::empty()).1 is Ok,
        room >= 0,
    ensures
        ls(s, name).1 is Ok ==> listed_as_dir(s, name),
        short(s, name) && s.cwd.len() < 16 && cd(s, name).1 is Ok ==> listed_as_dir(s, name),
        read_file(s, name, room).1 is None ==> exists|size: int|
            #[trigger] listed_as_file(s, name, size) && read_file(s, name, room).0.len() <= size && (
            g is Ext4 ==> read_file(s, name, room).0.len() == (if size < room {
                size
            } else {
                room
            })),
{
    match g {
        Ground::Ext4(pl, live) => {
            ext4_here(s, name);
            ext4_listed(s, pl, live, name);
            let d = ext4::model::follow_parts(s, 2, s.cwd)->Ok_0;
            let found = ext4::model::lookup_dir(s, d, bytes_of(name));
            if read_file(s, name, room).1 is None {
                reveal(ext4::model::file_data);
                let ino = found->Ok_0.0;
                let raw = ext4::model::inode_load(s, ino)->Ok_0;
                let size = ext4::model::ino_size(raw);
                let k = choose|k: int|
                    0 <= k < lines(s).len() && (#[trigger] lines(s)[k]).name == name
                        && lines(s)[k].is_dir == (found->Ok_0.1 == 2) && lines(s)[k].size == Some(size);
                assert(lines(s)[k].name == name);
                assert(listed_as_file(s, name, size as int));
                data_length(
                    s,
                    ext4::model::ino_extents(raw),
                    0,
                    ext4::model::min_int(size as int, room),
                );
            }
        },
        Ground::Fat(dirs, files) => {
            let i = s.fat->0;
            fat_here(s, name);
            shown_as_typed(name);
            let d = fat::model::follow_parts(s, i, i.root_clus, s.cwd)->Ok_0;
            let n = make_83(name)->Ok_0;
            let es = here_fat(s);
            match_is_there(es, n);
            if let Some(e) = fat::model::first_match(es, Some(n)) {
                let k = choose|k: int| 0 <= k < es.len() && #[trigger] es[k] == e;
                assert(lines(s)[k] == fat::model::listing_of(es[k]));
                if !e.is_dir() {
                    assert(listed_as_file(s, name, e.size as int));
                    fat_reads_no_more(
                        s,
                        i,
                        e.cluster as int,
                        fat::model::min_int(e.size as int, room),
                        i.cluster_count as nat,
                    );
                }
            }
        },
    }
}

proof fn cluster_length(s: FsView, i: FatInfo, clu: int, off: int, n: int)
    requires
        s.disk.wf(),
        0 <= off <= n,
    ensures
        fat::model::clus_data(s, i, clu, off, n).0.len() <= n - off,
    decreases n - off,
{
    if off < n {
        if let Some(b) = fat::model::read_clus(s, i, clu, off / 512) {
            assert(b.len() == 512);
            cluster_length(s, i, clu, off + fat::model::min_int(n - off, 512), n);
        }
    }
}

proof fn fat_reads_no_more(s: FsView, i: FatInfo, clu: int, left: int, fuel: nat)
    requires
        s.disk.wf(),
        0 <= left,
    ensures
        fat::model::chain_data(s, i, clu, left, fuel).0.len() <= left,
    decreases fuel,
{
    if left > 0 && fuel > 0 {
        let n = fat::model::min_int(left, i.sec_per_clus * 512);
        cluster_length(s, i, clu, 0, n);
        let next = fat::model::read_fat(s, i, clu);
        if fat::model::goes_on(next) {
            fat_reads_no_more(s, i, next as int, left - n, (fuel - 1) as nat);
        }
    }
}

/// The first line of a name says what the name leads to: it shows a directory
/// exactly where the name can be listed, and exactly where the current directory
/// can be changed to it; a directory cannot be read.
pub proof fn lines_tell_the_kind(s: FsView, g: Ground, k: int, room: int)
    requires
        sound(s, g),
        ls(s, Seq::empty()).1 is Ok,
        first_line(s, k),
        typed(s, lines(s)[k].name),
        names_can_be_typed(s),
        room >= 0,
    ensures
        ({
            let l = lines(s)[k];
            &&& l.is_dir == (ls(s, l.name).1 is Ok)
            &&& short(s, l.name) && s.cwd.len() < 16 ==> l.is_dir == (cd(s, l.name).1 is Ok)
            &&& l.is_dir ==> read_file(s, l.name, room).1 == Some(FsErr::IsDir)
            &&& !l.is_dir ==> read_file(s, l.name, room).1 != Some(FsErr::NotFound)
        }),
{
    let name = lines(s)[k].name;
    match g {
        Ground::Ext4(pl, live) => {
            ext4_here(s, name);
            ext4_listed(s, pl, live, name);
            reveal(ext4::model::lookup_dir);
            let d = ext4::model::follow_parts(s, 2, s.cwd)->Ok_0;
            let es = ext4::model::dir_entries(s, d).0;
            let n = bytes_of(name);
            assert(lines(s)[k] == ext4::model::listing_of(s, es[k]));
            ext4_name_is_shown(s, es[k], name);
            assert forall|j: int| 0 <= j < k implies (#[trigger] es[j]).name != n by {
                assert(lines(s)[j] == ext4::model::listing_of(s, es[j]));
                ext4_name_is_shown(s, es[j], name);
            }
            first_is_named(es, n, k);
            reveal(ext4::model::file_data);
            assert(ext4::model::inode_load(s, es[k].ino) is Ok) by {
                assert(live.contains(es[k].ino));
            }
        },
        Ground::Fat(dirs, files) => {
            let i = s.fat->0;
            fat_here(s, name);
            shown_as_typed(name);
            let es = here_fat(s);
            let n = make_83(name)->Ok_0;
            assert(lines(s)[k] == fat::model::listing_of(es[k]));
            assert(es[k].name == n);
            assert forall|j: int| 0 <= j < k implies (#[trigger] es[j]).name != n by {
                assert(lines(s)[j] == fat::model::listing_of(es[j]));
                if es[j].name == n {
                    assert(lines(s)[j].name == name);
                }
            }
            fat_first_matches(es, n, k);
        },
    }
}

// ---------- what the commands leave in the listing ----------

/// The current directory of a sound volume can be listed where a name in it
/// stands for something.
proof fn here_can_be_listed(s: FsView, g: Ground, name: Seq<char>)
    requires
        sound(s, g),
        typed(s, name),
        g is Ext4 ==> ext4::model::target(s, name) is Ok,
        g is Fat ==> fat::model::target(s, s.fat->0, name) is Ok,
    ensures
        ls(s, Seq::empty()).1 is Ok,
{
    let none = Seq::<char>::empty();
    assert(components(none) =~= Seq::<Seq<char>>::empty());
    match g {
        Ground::Ext4(pl, live) => {
            reveal(ext4::model::resolve_from_cwd);
            reveal(ext4::model::target);
            name_alone(name);
            assert(ext4::tree::ways_kept(s, s, live));
            ext4::tree::target_kept(s, s, pl, live, name);
            let d = ext4::model::target(s, name)->Ok_0.0;
            let raw = ext4::model::inode_load(s, d)->Ok_0;
            assert(live.contains(d) && ext4::tree::is_dir(s, d));
            ext4::tree::entries_good(
                s,
                ext4::model::ino_extents(raw),
                0,
                ext4::model::ino_size(raw) as int,
            );
            ext4::naming::entries_of_dir(s, d);
        },
        Ground::Fat(dirs, files) => {
            reveal(fat::model::resolve_from_cwd);
            reveal(fat::model::target);
            fat_name_has_no_slash(name);
            name_alone(name);
        },
    }
}

proof fn fat_name_has_no_slash(name: Seq<char>)
    requires
        fat::model::valid_83(name),
    ensures
        name.len() > 0,
        forall|k: int| 0 <= k < name.len() ==> #[trigger] name[k] != '/',
{
    dot_is(name);
    assert forall|k: int| 0 <= k < name.len() implies #[trigger] name[k] != '/' by {
        let p = fat::model::dot_pos(name);
        if k < p {
            assert(fat::model::stem(name)[k] == name[k]);
        } else if k > p {
            assert(fat::model::extension(name)[k - p - 1] == name[k]);
        }
    }
}

/// What a name leads to on a FAT volume has a line of its own.
proof fn fat_listed(s: FsView, name: Seq<char>)
    requires
        s.mount == Some(FsKind::Fat),
        s.fat is Some,
        typed(s, name),
        ls(s, Seq::empty()).1 is Ok,
    ensures
        ({
            let i = s.fat->0;
            let (d, n) = fat::model::target(s, i, name)->Ok_0;
            fat::model::look_up(s, i, d as int, n) matches Ok(e) ==> exists|k: int|
                0 <= k < lines(s).len() && (#[trigger] lines(s)[k]).name == name && lines(s)[k]
                    == fat::model::listing_of(e)
        }),
{
    fat_here(s, name);
    shown_as_typed(name);
    let n = make_83(name)->Ok_0;
    let es = here_fat(s);
    match_is_there(es, n);
    if let Some(e) = fat::model::first_match(es, Some(n)) {
        let k = choose|k: int| 0 <= k < es.len() && #[trigger] es[k] == e;
        assert(lines(s)[k] == fat::model::listing_of(es[k]));
    }
}

/// A file of an ext4 volume that is read whole is listed with its length.
proof fn ext4_read_is_listed(t: FsView, h: Ground, name: Seq<char>, room: int)
    requires
        sound(t, h),
        h is Ext4,
        t.disk.wf(),
        typed(t, name),
        read_file(t, name, room).1 is None,
        read_file(t, name, room).0.len() < room,
    ensures
        listed_as_file(t, name, read_file(t, name, room).0.len() as int),
{
    let n = read_file(t, name, room).0.len() as int;
    here_can_be_listed(t, h, name);
    named_things_are_listed(t, h, name, room);
    let size = choose|size: int| #[trigger]
        listed_as_file(t, name, size) && n <= size && (n == (if size < room {
            size
        } else {
            room
        }));
    assert(size == n);
}

/// A file of a FAT volume is listed with the size of its entry.
proof fn fat_found_is_listed(t: FsView, h: Ground, name: Seq<char>)
    requires
        sound(t, h),
        h is Fat,
        typed(t, name),
        fat::model::find_file(t, t.fat->0, name) is Ok,
    ensures
        listed_as_file(t, name, fat::model::find_file(t, t.fat->0, name)->Ok_0.size as int),
{
    let i = t.fat->0;
    here_can_be_listed(t, h, name);
    fat_listed(t, name);
    let e = fat::model::find_file(t, i, name)->Ok_0;
    let k = choose|k: int|
        0 <= k < lines(t).len() && (#[trigger] lines(t)[k]).name == name && lines(t)[k]
            == fat::model::listing_of(e);
    assert(lines(t)[k].name == name);
}

proof fn ext4_written_stays_mounted(s: FsView, g: Ground, name: Seq<char>, data: Seq<u8>)
    requires
        sound(s, g),
        g is Ext4,
        write_file(s, name, data).1 is Ok,
    ensures
        write_file(s, name, data).0.mount == Some(FsKind::Ext4),
{
    let s1 = ext4::model::write_file(s, name, data).0;
    ext4::atomic::write_file_runs(s, name, data);
    stays_mounted(s, s1);
    ext4::files::writing_keeps_the_tree(s, g->Ext4_0, g->Ext4_1, name, data);
    ext4::laws::commit_keeps_blocks(s1);
}

proof fn fat_written_size(
    s: FsView,
    dirs: Map<u32, Seq<int>>,
    files: Map<u32, Seq<int>>,
    name: Seq<char>,
    data: Seq<u8>,
)
    requires
        sound(s, Ground::Fat(dirs, files)),
        !names_fat_dir(s, name),
        has_room_for(s, Ground::Fat(dirs, files), data),
        write_file(s, name, data).1 is Ok,
    ensures
        ({
            let t = write_file(s, name, data).0;
            &&& t.mount == s.mount
            &&& t.fat == s.fat
            &&& fat::model::find_file(t, s.fat->0, name) matches Ok(e) && e.size == data.len()
        }),
{
    let i = s.fat->0;
    fat::sound::sound_tree(s, i, dirs, files);
    fat::laws::written_file_reads_back(s, i, dirs, name, data, 0);
}

/// A file that was written is listed as a file, with the length of what was
/// written.
pub proof fn written_file_is_listed(s: FsView, g: Ground, name: Seq<char>, data: Seq<u8>)
    requires
        sound(s, g),
        typed(s, name),
        !names_fat_dir(s, name),
        has_room_for(s, g, data),
        write_file(s, name, data).1 is Ok,
        write_file(s, name, data).0.disk.wf(),
    ensures
        listed_as_file(write_file(s, name, data).0, name, data.len() as int),
{
    let t = write_file(s, name, data).0;
    let h = volume_stays_sound(s, g, name, data);
    match g {
        Ground::Ext4(pl, live) => {
            let room = data.len() as int + 1;
            written_file_reads_back(s, g, name, data, room);
            ext4_written_stays_mounted(s, g, name, data);
            ext4_read_is_listed(t, h, name, room);
        },
        Ground::Fat(dirs, files) => {
            fat_written_size(s, dirs, files, name, data);
            fat_found_is_listed(t, h, name);
        },
    }
}

/// The commit that ends a command leads every name where it led.
proof fn commit_keeps_ways(s: FsView, pl: Seq<ext4::space::Place>, live: Set<u32>)
    requires
        ext4::tree::tree_ok(s, pl, live),
        ext4::model::jbd_commit(s).1 is Ok,
    ensures
        ext4::tree::ways_kept(s, ext4::model::jbd_commit(s).0, live),
        ext4::model::jbd_commit(s).0.cwd == s.cwd,
        ext4::model::jbd_commit(s).0.mount == s.mount,
{
    let t = ext4::model::jbd_commit(s).0;
    ext4::files::commit_keeps_files(s, pl, live, Seq::empty(), 0);
    ext4::laws::commit_keeps_blocks(s);
    assert forall|x: u32, m: Seq<u8>|
        live.contains(x) && ext4::model::lookup_dir(s, x, m) is Ok implies #[trigger] ext4::model::lookup_dir(
        t,
        x,
        m,
    ) == ext4::model::lookup_dir(s, x, m) by {
        ext4::tree::dir_same(s, t, x);
    }
}

/// A directory that was made is listed as a directory, can be listed itself, and
/// the current directory can be changed to it.
pub proof fn made_directory_is_listed(s: FsView, g: Ground, name: Seq<char>)
    requires
        sound(s, g),
        typed(s, name),
        has_room(s, g, 2),
        mkdir(s, name).1 is Ok,
    ensures
        listed_as_dir(mkdir(s, name).0, name),
        ls(mkdir(s, name).0, name).1 is Ok,
        short(s, name) && s.cwd.len() < 16 ==> cd(mkdir(s, name).0, name).1 is Ok,
        g is Fat ==> ls(mkdir(s, name).0, name).0.len() == 0,
{
    let t = mkdir(s, name).0;
    let h = made_directory_keeps_sound(s, g, name);
    match g {
        Ground::Ext4(pl, live) => {
            let s1 = ext4::model::mkdir(s, name).0;
            let all = live.insert(ext4::keeping::new_ino(s));
            ext4::keeping::made_directory_is_there(s, pl, live, name);
            ext4::atomic::mkdir_runs(s, name);
            assert(ext4::model::target(s, name) is Ok) by {
                reveal(ext4::model::mkdir);
            }
            assert(ext4::tree::ways_kept(s, s, live));
            ext4::tree::target_kept(s, s, pl, live, name);
            assert(s1.mount == s.mount) by {
                stays_mounted(s, s1);
            }
            commit_keeps_ways(s1, pl, all);
            ext4::tree::target_kept(s1, t, pl, all, name);
            let (p, n) = ext4::model::target(s, name)->Ok_0;
            assert(ext4::model::lookup_dir(t, p, n) == ext4::model::lookup_dir(s1, p, n));
            here_can_be_listed(t, h, name);
            let (hp, hl) = (h->Ext4_0, h->Ext4_1);
            ext4_here(t, name);
            ext4_listed(t, hp, hl, name);
        },
        Ground::Fat(dirs, files) => {
            let i = s.fat->0;
            let all = fat::keeping::made_directory_is_there(s, i, dirs, files, name);
            let (d, n) = fat::model::target(s, i, name)->Ok_0;
            here_can_be_listed(t, h, name);
            fat_here(t, name);
            fat_listed(t, name);
            let e = fat::model::look_up(t, i, d as int, n)->Ok_0;
            let k = choose|k: int|
                0 <= k < lines(t).len() && (#[trigger] lines(t)[k]).name == name && lines(t)[k]
                    == fat::model::listing_of(e);
            assert(lines(t)[k].name == name && lines(t)[k].is_dir);
        },
    }
}

proof fn fat_touched_size(
    s: FsView,
    dirs: Map<u32, Seq<int>>,
    files: Map<u32, Seq<int>>,
    name: Seq<char>,
)
    requires
        sound(s, Ground::Fat(dirs, files)),
        has_room(s, Ground::Fat(dirs, files), 1),
        touch(s, name).1 is Ok,
        !leads(s, name),
    ensures
        ({
            let t = touch(s, name).0;
            &&& t.mount == s.mount
            &&& t.fat == s.fat
            &&& fat::model::find_file(t, s.fat->0, name) matches Ok(e) && e.size == 0
        }),
{
    let more = fat::keeping::touched_file_is_there(s, s.fat->0, dirs, files, name, 0);
}

/// An empty file that was made is listed as a file without data.
pub proof fn touched_file_is_listed(s: FsView, g: Ground, name: Seq<char>)
    requires
        sound(s, g),
        typed(s, name),
        has_room(s, g, 1),
        touch(s, name).1 is Ok,
        !leads(s, name),
        touch(s, name).0.disk.wf(),
    ensures
        listed_as_file(touch(s, name).0, name, 0),
{
    let t = touch(s, name).0;
    let h = touched_file_is_empty(s, g, name, name, 1);
    match g {
        Ground::Ext4(pl, live) => {
            let s1 = ext4::model::touch(s, name).0;
            ext4::atomic::touch_runs(s, name);
            stays_mounted(s, s1);
            ext4::keeping::touched_file_is_there(s, pl, live, name, 1);
            ext4::laws::commit_keeps_blocks(s1);
            ext4_read_is_listed(t, h, name, 1);
        },
        Ground::Fat(dirs, files) => {
            fat_touched_size(s, dirs, files, name);
            fat_found_is_listed(t, h, name);
        },
    }
}

// ---------- what is refused ----------

/// Without blocks in the journal there is nothing to commit.
proof fn nothing_to_commit(s: FsView)
    requires
        settled(s),
    ensures
        ext4::model::jbd_commit(s) == (s, Ok::<(), FsErr>(())),
{
}

proof fn ext4_full_is_refused(s: FsView, name: Seq<char>, k: int)
    requires
        s.mount == Some(FsKind::Ext4),
        settled(s),
        typed(s, name),
        ls(s, Seq::empty()).1 is Ok,
        ls(s, name).1 is Ok,
        0 <= k < ls(s, name).0.len(),
        ls(s, name).0[k].name != seq!['.'],
        ls(s, name).0[k].name != seq!['.', '.'],
    ensures
        rmdir(s, name) == (s, Err::<(), FsErr>(FsErr::NotEmpty)),
{
    ext4_here(s, name);
    let d = ext4::model::follow_parts(s, 2, s.cwd)->Ok_0;
    let ino = ext4::model::lookup_dir(s, d, bytes_of(name))->Ok_0.0;
    let es = ext4::model::dir_entries(s, ino).0;
    let line = ls(s, name).0[k];
    assert(line == ext4::model::listing_of(s, es[k]));
    assert(!ext4::model::is_dot_name(es[k].name)) by {
        if es[k].name == seq![46u8] {
            assert(line.name =~= seq!['.']);
        }
        if es[k].name == seq![46u8, 46u8] {
            assert(line.name =~= seq!['.', '.']);
        }
    }
    assert(ext4::model::has_other_names(es));
    assert(ext4::model::rmdir(s, name) == (s, Err::<(), FsErr>(FsErr::NotEmpty))) by {
        reveal(ext4::model::rmdir);
    }
    nothing_to_commit(s);
}

proof fn fat_full_is_refused(
    s: FsView,
    dirs: Map<u32, Seq<int>>,
    files: Map<u32, Seq<int>>,
    name: Seq<char>,
)
    requires
        sound(s, Ground::Fat(dirs, files)),
        typed(s, name),
        ls(s, Seq::empty()).1 is Ok,
        ls(s, name).1 is Ok,
        ls(s, name).0.len() > 0,
    ensures
        rmdir(s, name).0 == s,
        rmdir(s, name).1 is Err,
{
    fat_here(s, name);
    reveal(fat::model::rmdir);
}

/// Only an empty directory is removed: where the listing of a directory has a
/// line, on ext4 one besides those of the directory itself and of the one above
/// it, the removal is refused, and nothing changes.
pub proof fn only_empty_directories_are_removed(s: FsView, g: Ground, name: Seq<char>, k: int)
    requires
        sound(s, g),
        settled(s),
        typed(s, name),
        ls(s, Seq::empty()).1 is Ok,
        ls(s, name).1 is Ok,
        0 <= k < ls(s, name).0.len(),
        g is Ext4 ==> ls(s, name).0[k].name != seq!['.'] && ls(s, name).0[k].name != seq!['.', '.'],
    ensures
        rmdir(s, name).1 is Err,
        rmdir(s, name).0 == s,
        g is Ext4 ==> rmdir(s, name).1 == Err::<(), FsErr>(FsErr::NotEmpty),
{
    match g {
        Ground::Ext4(pl, live) => {
            ext4_full_is_refused(s, name, k);
        },
        Ground::Fat(dirs, files) => {
            fat_full_is_refused(s, dirs, files, name);
        },
    }
}

/// A name that is taken is not given again: a directory is not made, and nothing
/// is moved there.
pub proof fn taken_names_are_refused(s: FsView, g: Ground, path: Seq<char>, from: Seq<char>)
    requires
        sound(s, g),
        settled(s),
        leads(s, path),
    ensures
        mkdir(s, path) == (s, Err::<(), FsErr>(FsErr::Exists)),
        leads(s, from) ==> mv(s, from, path).1 is Err && mv(s, from, path).0 == s,
        leads(s, from) && g is Ext4 ==> mv(s, from, path).1 == Err::<(), FsErr>(FsErr::Exists),
{
    match g {
        Ground::Ext4(pl, live) => {
            reveal(ext4::model::mkdir);
            reveal(ext4::model::mv);
            nothing_to_commit(s);
        },
        Ground::Fat(dirs, files) => {
            reveal(fat::model::mkdir);
            reveal(fat::model::mv);
        },
    }
}

/// What is not there cannot be read, removed or moved, and nothing changes.
pub proof fn missing_names_are_refused(s: FsView, g: Ground, name: Seq<char>, to: Seq<char>, room: int)
    requires
        sound(s, g),
        settled(s),
        typed(s, name),
        ls(s, Seq::empty()).1 is Ok,
        !leads(s, name),
    ensures
        read_file(s, name, room).1 == Some(FsErr::NotFound),
        rm(s, name) == (s, Err::<(), FsErr>(FsErr::NotFound)),
        rmdir(s, name) == (s, Err::<(), FsErr>(FsErr::NotFound)),
        mv(s, name, to) == (s, Err::<(), FsErr>(FsErr::NotFound)),
        ls(s, name).1 == Err::<(), FsErr>(FsErr::NotFound),
{
    match g {
        Ground::Ext4(pl, live) => {
            ext4_here(s, name);
            ext4_listed(s, pl, live, name);
            reveal(ext4::model::rm);
            reveal(ext4::model::rmdir);
            reveal(ext4::model::mv);
            nothing_to_commit(s);
        },
        Ground::Fat(dirs, files) => {
            fat_here(s, name);
            reveal(fat::model::rm);
            reveal(fat::model::rmdir);
            reveal(fat::model::mv);
        },
    }
}

/// A directory is not removed as a file, nor a file as a directory.
pub proof fn kinds_are_told_apart(s: FsView, g: Ground, k: int)
    requires
        sound(s, g),
        settled(s),
        ls(s, Seq::empty()).1 is Ok,
        first_line(s, k),
        typed(s, lines(s)[k].name),
        names_can_be_typed(s),
    ensures
        ({
            let l = lines(s)[k];
            &&& l.is_dir ==> rm(s, l.name) == (s, Err::<(), FsErr>(FsErr::IsDir))
            &&& !l.is_dir ==> rmdir(s, l.name) == (s, Err::<(), FsErr>(FsErr::NotDir))
        }),
{
    let name = lines(s)[k].name;
    lines_tell_the_kind(s, g, k, 0);
    match g {
        Ground::Ext4(pl, live) => {
            ext4_here(s, name);
            ext4_listed(s, pl, live, name);
            reveal(ext4::model::rm);
            reveal(ext4::model::rmdir);
            nothing_to_commit(s);
        },
        Ground::Fat(dirs, files) => {
            fat_here(s, name);
            shown_as_typed(name);
            reveal(fat::model::rm);
            reveal(fat::model::rmdir);
            let es = here_fat(s);
            let n = make_83(name)->Ok_0;
            assert(lines(s)[k] == fat::model::listing_of(es[k]));
            assert forall|j: int| 0 <= j < k implies (#[trigger] es[j]).name != n by {
                assert(lines(s)[j] == fat::model::listing_of(es[j]));
                if es[j].name == n {
                    assert(lines(s)[j].name == name);
                }
            }
            fat_first_matches(es, n, k);
        },
    }
}

// ---------- fresh volumes ----------

/// The directories that a fresh volume has.
pub open spec fn first_names() -> Seq<Seq<char>> {
    seq![
        seq!['e', 't', 'c'],
        seq!['r', 'o', 'o', 't'],
        seq!['h', 'o', 'm', 'e'],
        seq!['u', 's', 'r'],
        seq!['b', 'o', 'o', 't'],
        seq!['t', 'm', 'p'],
    ]
}

proof fn first_names_are_plain(k: int)
    requires
        0 <= k < 6,
    ensures
        3 <= first_names()[k].len() <= 4,
        forall|j: int|
            0 <= j < first_names()[k].len() ==> 'a' <= #[trigger] first_names()[k][j] <= 'z',
        bytes_of(first_names()[k]) == ext4::layout::seeds()[k],
        fat::model::part_83(part_of(first_names()[k])) == fat::model::part_83(
            fat::model::seeds()[k],
        ),
{
    let n = first_names()[k];
    assert(bytes_of(n) =~= ext4::layout::seeds()[k]);
    assert(fat::model::part_83(part_of(n)) =~= fat::model::part_83(fat::model::seeds()[k]));
}

/// The path of a directory below the root.
proof fn rooted(name: Seq<char>)
    requires
        name.len() > 0,
        forall|j: int| 0 <= j < name.len() ==> 'a' <= #[trigger] name[j] <= 'z',
    ensures
        (seq!['/'] + name)[0] == '/',
        components(seq!['/'] + name) == seq![name],
{
    let none = Seq::<char>::empty();
    assert(forall|j: int| 0 <= j < name.len() ==> #[trigger] name[j] != '/');
    crate::path::joined_path(none, name);
    assert(none + seq!['/'] + name =~= seq!['/'] + name);
    assert(components(none) =~= Seq::<Seq<char>>::empty());
    assert(Seq::<Seq<char>>::empty().push(name) =~= seq![name]);
}

/// A volume that was made as ext4, on which no old record was replayed, has its
/// six directories.
pub proof fn fresh_ext4_has_its_directories(s: FsView, base: u32, k: int)
    requires
        ext4::layout::mkfs_at(s, base).1 is Ok,
        ext4::making::no_old_record(s, base),
        0 <= k < 6,
    ensures
        ls(ext4::layout::mkfs_at(s, base).0, seq!['/'] + first_names()[k]).1 is Ok,
{
    let t = ext4::layout::mkfs_at(s, base).0;
    let name = first_names()[k];
    let n = ext4::layout::seeds()[k];
    ext4::making::fresh_volume_is_sound(s, base);
    let pl = ext4::fresh::fresh_places(t.ext->0.groups as int);
    let inos = choose|inos: Seq<u32>|
        #![trigger ext4::making::fresh_live(inos)]
        inos.len() == 6 && ext4::order::orderly(t, ext4::making::fresh_live(inos))
            && ext4::tree::tree_ok(t, pl, ext4::making::fresh_live(inos)) && forall|k: int|
            0 <= k < 6 ==> ext4::model::lookup_dir(t, 2, #[trigger] ext4::layout::seeds()[k]) == Ok::<
                (u32, u8),
                FsErr,
            >((inos[k], 2));
    let live = ext4::making::fresh_live(inos);
    first_names_are_plain(k);
    rooted(name);
    assert(ext4::model::name_bytes(name) == Ok::<Seq<u8>, FsErr>(n)) by {
        assert(forall|i: int| 0 <= i < name.len() ==> ext4::model::name_char(#[trigger] name[i]));
    }
    let ino = inos[k];
    assert(ext4::model::lookup_dir(t, 2, n) == Ok::<(u32, u8), FsErr>((ino, 2)));
    let names = seq![name];
    assert(names.skip(1) =~= Seq::<Seq<char>>::empty());
    assert(ext4::model::follow(t, ino, names.skip(1)) == Ok::<u32, FsErr>(ino));
    reveal(ext4::model::resolve_from_cwd);
    ext4::tree::found_lives(t, pl, live, 2, n);
    let raw = ext4::model::inode_load(t, ino)->Ok_0;
    assert(live.contains(ino) && ext4::tree::is_dir(t, ino));
    ext4::tree::entries_good(
        t,
        ext4::model::ino_extents(raw),
        0,
        ext4::model::ino_size(raw) as int,
    );
    ext4::naming::entries_of_dir(t, ino);
}

/// A volume that was made as FAT has its six directories.
pub proof fn fresh_fat_has_its_directories(s: FsView, base: u32, k: int)
    requires
        s.disk.wf(),
        s.disk.fixed == Set::<int>::empty(),
        fat::model::mkfs_at(s, base).1 is Ok,
        0 <= k < 6,
    ensures
        ls(fat::model::mkfs_at(s, base).0, seq!['/'] + first_names()[k]).1 is Ok,
{
    let t = fat::model::mkfs_at(s, base).0;
    let name = first_names()[k];
    fat::fresh::fresh_volume_is_sound(s, base);
    let i = t.fat->0;
    first_names_are_plain(k);
    rooted(name);
    dot_is(name);
    let p = fat::model::dot_pos(name);
    assert(p == name.len()) by {
        if p < name.len() {
            assert(name[p] == '.');
        }
    }
    assert(fat::model::stem(name) =~= name);
    assert(fat::model::extension(name) =~= Seq::<char>::empty());
    assert(fat::model::valid_83(name));
    part_is_name(name);
    let n = make_83(name)->Ok_0;
    let es = fat::model::dir_list(t, i, 2);
    assert(es[k] == fat::fresh::seed_entry(k));
    assert(es[k].name == n);
    match_is_there(es, n);
    let e = fat::model::first_match(es, Some(n))->0;
    let j = choose|j: int| 0 <= j < es.len() && #[trigger] es[j] == e;
    assert(e == fat::fresh::seed_entry(j));
    assert(e.is_dir());
    let names = seq![name];
    assert(names.skip(1) =~= Seq::<Seq<char>>::empty());
    assert(name != seq!['.'] && name != seq!['.', '.']);
    assert(fat::model::follow(t, i, e.cluster, names.skip(1)) == Ok::<u32, FsErr>(e.cluster));
    reveal(fat::model::resolve_from_cwd);
}

// ---------- once ----------

proof fn two_are_counted(es: Seq<ext4::model::Entry>, n: Seq<u8>, j: int, k: int)
    requires
        0 <= j < k < es.len(),
        es[j].name == n,
        es[k].name == n,
    ensures
        ext4::entries::times(es, n) >= 2,
    decreases es.len(),
{
    let rest = es.skip(1);
    if j == 0 {
        assert(rest[k - 1] == es[k]);
        assert(rest.contains(es[k]));
        ext4::removal::counted_if_there(rest, es[k]);
    } else {
        assert(rest[j - 1] == es[j] && rest[k - 1] == es[k]);
        two_are_counted(rest, n, j - 1, k - 1);
    }
}

proof fn ext4_listed_once(s: FsView, name: Seq<char>, j: int, k: int)
    requires
        s.mount == Some(FsKind::Ext4),
        typed(s, name),
        ls(s, Seq::empty()).1 is Ok,
        ({
            let (p, n) = ext4::model::target(s, name)->Ok_0;
            ext4::entries::times(ext4::model::dir_entries(s, p).0, n) <= 1
        }),
        0 <= j < k < lines(s).len(),
        lines(s)[j].name == name,
    ensures
        lines(s)[k].name != name,
{
    ext4_here(s, name);
    let d = ext4::model::follow_parts(s, 2, s.cwd)->Ok_0;
    let es = ext4::model::dir_entries(s, d).0;
    assert(lines(s)[j] == ext4::model::listing_of(s, es[j]));
    assert(lines(s)[k] == ext4::model::listing_of(s, es[k]));
    ext4_name_is_shown(s, es[j], name);
    ext4_name_is_shown(s, es[k], name);
    if lines(s)[k].name == name {
        two_are_counted(es, bytes_of(name), j, k);
    }
}

#[verifier::spinoff_prover]
proof fn fat_listed_once(s: FsView, name: Seq<char>, j: int, k: int)
    requires
        s.mount == Some(FsKind::Fat),
        s.fat is Some,
        typed(s, name),
        names_can_be_typed(s),
        ls(s, Seq::empty()).1 is Ok,
        fat_name_once(s, name),
        0 <= j < lines(s).len(),
        0 <= k < lines(s).len(),
        lines(s)[j].name == name,
        lines(s)[k].name == name,
    ensures
        j == k,
{
    fat_here(s, name);
    let es = here_fat(s);
    let n = make_83(name)->Ok_0;
    assert(lines(s)[j] == fat::model::listing_of(es[j]));
    assert(lines(s)[k] == fat::model::listing_of(es[k]));
    assert(es[j].name == n && es[k].name == n);
    let i = s.fat->0;
    let (d, nn) = fat::model::target(s, i, name)->Ok_0;
    let same = fat::model::dir_list(s, i, d as int);
    assert(nn == n && same == es);
    assert(same[j].name == nn && same[k].name == nn);
}

/// What has one name stands in one line.
pub proof fn things_are_listed_once(s: FsView, g: Ground, name: Seq<char>, j: int, k: int)
    requires
        sound(s, g),
        typed(s, name),
        names_can_be_typed(s),
        ls(s, Seq::empty()).1 is Ok,
        stands_once(s, g, name),
        g is Fat ==> fat_name_once(s, name),
        0 <= j < k < lines(s).len(),
    ensures
        !(lines(s)[j].name == name && lines(s)[k].name == name),
{
    if lines(s)[j].name == name && lines(s)[k].name == name {
        match g {
            Ground::Ext4(pl, live) => {
                ext4_listed_once(s, name, j, k);
            },
            Ground::Fat(dirs, files) => {
                fat_listed_once(s, name, j, k);
            },
        }
    }
}

} // verus!
