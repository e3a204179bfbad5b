//! What the commands do to what can be read afterwards.

use vstd::prelude::*;
use crate::ext4;
use crate::ext4::space::Place;
use crate::fat;
use crate::fs::laws::{alone, sound, stays_mounted, stands_once, Ground};
use crate::fs::model::{cat, cd, check_dir, mv, part_of, path_of, pwd, read_file, rm, walk, write_file};
use crate::fs::{FsErr, FsKind, FsView};
use crate::path::{components, name_alone};

verus! {

// ---------- the ends of commands ----------

/// What a command leaves on an ext4 volume reads the same behind its commit.
proof fn committed_reads(
    s: FsView,
    s1: FsView,
    pl: Seq<Place>,
    live: Set<u32>,
    path: Seq<char>,
    room: int,
)
    requires
        s.mount == Some(FsKind::Ext4),
        s1.mount == s.mount,
        ext4::tree::tree_ok(s1, pl, live),
        ext4::model::jbd_commit(s1).1 is Ok,
    ensures
        ext4::model::jbd_commit(s1).0.mount == Some(FsKind::Ext4),
        read_file(ext4::model::jbd_commit(s1).0, path, room) == ext4::model::read_file(
            s1,
            path,
            room,
        ),
{
    ext4::files::commit_keeps_files(s1, pl, live, path, room);
    ext4::laws::commit_keeps_blocks(s1);
}

// ---------- laws ----------

/// A file that was removed, and that nothing else led to, cannot be read any
/// more; on an ext4 volume every other file reads as it did.
pub proof fn removed_file_cannot_be_read(
    s: FsView,
    g: Ground,
    path: Seq<char>,
    other: Seq<char>,
    room: int,
)
    requires
        sound(s, g),
        rm(s, path).1 is Ok,
        g is Ext4 ==> alone(s, g, path),
        g is Fat ==> fat_name_once(s, path),
    ensures
        read_file(rm(s, path).0, path, room).1 == Some(FsErr::NotFound),
        read_file(rm(s, path).0, path, room).0.len() == 0,
        g is Ext4 && ext4::model::find_file(s, other) is Ok && ext4::model::find_file(s, other)
            != ext4::model::find_file(s, path) ==> read_file(rm(s, path).0, other, room)
            == read_file(s, other, room),
{
    match g {
        Ground::Ext4(pl, live) => {
            let s1 = ext4::model::rm(s, path).0;
            reveal(ext4::model::rm);
            let ino = ext4::model::find_file(s, path)->Ok_0;
            ext4::erasing::removed_file_is_gone(s, pl, live, path, other, room);
            ext4::atomic::rm_runs(s, path);
            stays_mounted(s, s1);
            committed_reads(s, s1, pl, live.remove(ino), path, room);
            committed_reads(s, s1, pl, live.remove(ino), other, room);
        },
        Ground::Fat(dirs, files) => {
            let i = s.fat->0;
            let e = fat::model::find_file(s, i, path)->Ok_0;
            fat::sound::sound_tree(s, i, dirs, files);
            fat::keeping::removal_keeps_sound(s, i, dirs, files, path);
            let (d, n) = fat::model::target(s, i, path)->Ok_0;
            assert(fat::laws::ways_kept(s, s, i, dirs));
            fat::laws::target_kept(s, s, i, dirs, path);
            let es = fat::model::dir_list(s, i, d as int);
            let k = fat::laws::match_is_there(es, n);
            assert(fat::sound::entry_known(i, dirs, files, es[k]));
            let chain = if e.cluster >= 2 {
                files[e.cluster]
            } else {
                Seq::empty()
            };
            let p = fat::erasing::removed_file_is_gone(s, i, dirs, path, chain);
            assert(fat::model::find_file(rm(s, path).0, i, path) == Err::<
                fat::model::Entry,
                FsErr,
            >(FsErr::NotFound));
        },
    }
}

/// On a FAT volume, the name that the path ends in stands once in its directory.
pub open spec fn fat_name_once(s: FsView, path: Seq<char>) -> bool {
    let i = s.fat->0;
    let (d, n) = fat::model::target(s, i, path)->Ok_0;
    let es = fat::model::dir_list(s, i, d as int);
    forall|j: int, k: int|
        0 <= j < es.len() && 0 <= k < es.len() && (#[trigger] es[j]).name == n && (
        #[trigger] es[k]).name == n ==> j == k
}

/// A file of an ext4 volume that was moved is read under its new name as it was
/// under the old one; the old name, where it stood once, leads nowhere.
pub proof fn moved_file_is_read(
    s: FsView,
    pl: Seq<Place>,
    live: Set<u32>,
    from: Seq<char>,
    to: Seq<char>,
    room: int,
)
    requires
        sound(s, Ground::Ext4(pl, live)),
        mv(s, from, to).1 is Ok,
        ext4::model::find_file(s, from) is Ok,
    ensures
        read_file(mv(s, from, to).0, to, room) == read_file(s, from, room),
        stands_once(s, Ground::Ext4(pl, live), from) ==> read_file(mv(s, from, to).0, from, room).1
            == Some(FsErr::NotFound),
{
    let s1 = ext4::model::mv(s, from, to).0;
    ext4::moving::renamed_file_is_found(s, pl, live, from, to, room);
    ext4::atomic::mv_runs(s, from, to);
    stays_mounted(s, s1);
    committed_reads(s, s1, pl, live, to, room);
    committed_reads(s, s1, pl, live, from, room);
}

/// Writing a file of an ext4 volume leaves every other file as it was.
pub proof fn other_files_read_the_same(
    s: FsView,
    pl: Seq<Place>,
    live: Set<u32>,
    path: Seq<char>,
    data: Seq<u8>,
    other: Seq<char>,
    room: int,
)
    requires
        sound(s, Ground::Ext4(pl, live)),
        write_file(s, path, data).1 is Ok,
        ext4::model::find_file(s, other) is Ok,
        ext4::model::find_file(s, other) != ext4::model::find_file(s, path),
    ensures
        read_file(write_file(s, path, data).0, other, room) == read_file(s, other, room),
{
    let s1 = ext4::model::write_file(s, path, data).0;
    let ino = ext4::files::written_inode(s, path);
    ext4::files::file_written(s, pl, live, path, data);
    let (p, n) = ext4::model::target(s, other)->Ok_0;
    assert(ext4::tree::ways_kept(s, s, live));
    ext4::tree::target_kept(s, s, pl, live, other);
    ext4::tree::found_lives(s, pl, live, p, n);
    assert(ext4::model::find_file(s, other)->Ok_0 != ino);
    ext4::files::other_files_stay(s, pl, live, path, data, other, room);
    ext4::atomic::write_file_runs(s, path, data);
    stays_mounted(s, s1);
    committed_reads(s, s1, pl, live.insert(ino), other, room);
}

/// What `cat` shows of a file is what can be read of it, each byte as its
/// character where it is printable, and as a question mark where it is not. On
/// an ext4 volume it is the first 8192 bytes of the file, on a FAT volume all of
/// it.
pub proof fn cat_shows_what_is_read(s: FsView, path: Seq<char>, k: int)
    requires
        cat(s, path).1 is Ok,
        s.mount == Some(FsKind::Fat) ==> (fat::model::find_file(s, s.fat->0, path) matches Ok(e)
            && e.cluster != 0),
        0 <= k < cat(s, path).0.len(),
    ensures
        ({
            let room: int = if s.mount == Some(FsKind::Ext4) {
                8192
            } else {
                0xFFFF_FFFF
            };
            let (d, err) = read_file(s, path, room);
            &&& err is None
            &&& d.len() == cat(s, path).0.len()
            &&& 0x20 <= d[k] <= 0x7E ==> cat(s, path).0[k] as int == d[k]
            &&& d[k] < 0x20 || d[k] > 0x7E ==> cat(s, path).0[k] == '?'
        }),
{
}

// ---------- the current directory ----------

/// A character of a name in lower case.
pub open spec fn small(c: char) -> char {
    if 'A' <= c <= 'Z' {
        ((c as u8) + 32) as u8 as char
    } else {
        c
    }
}

proof fn path_grows(parts: Seq<Seq<u8>>, p: Seq<u8>, n: int)
    requires
        0 <= n <= parts.len(),
    ensures
        path_of(parts.push(p), n) == path_of(parts, n),
    decreases n,
{
    if n > 0 {
        path_grows(parts, p, n - 1);
        assert(parts.push(p)[n - 1] == parts[n - 1]);
    }
}

/// Changing to a directory by its name adds the name, in small letters, to the
/// path of the current directory.
pub proof fn cd_extends_the_path(s: FsView, name: Seq<char>)
    requires
        1 <= name.len() <= 12,
        forall|k: int|
            0 <= k < name.len() ==> #[trigger] name[k] != '/' && (name[k] as u32) < 0x80,
        name != seq!['.'],
        name != seq!['.', '.'],
        cd(s, name).1 is Ok,
    ensures
        pwd(cd(s, name).0.cwd) == (if s.cwd.len() == 0 {
            Seq::empty()
        } else {
            pwd(s.cwd)
        }) + seq!['/'] + Seq::new(name.len(), |k: int| small(name[k])),
        cd(s, name).0 == (FsView { cwd: cd(s, name).0.cwd, ..s }),
{
    name_alone(name);
    let names = seq![name];
    assert(names.skip(1) =~= Seq::<Seq<char>>::empty());
    let p = part_of(name);
    let more = s.cwd.push(p);
    assert(name[0] != '/');
    assert(walk(more, names.skip(1)) == Ok::<Seq<Seq<u8>>, FsErr>(more));
    assert(cd(s, name).0.cwd == more);
    path_grows(s.cwd, p, s.cwd.len() as int);
    let low = crate::fs::model::lower_chars(p);
    assert(low =~= Seq::new(name.len(), |k: int| small(name[k]))) by {
        assert forall|k: int| 0 <= k < name.len() implies low[k] == small(name[k]) by {
            assert((name[k] as u32) < 0x80);
        }
    }
    if s.cwd.len() == 0 {
        assert(path_of(s.cwd, 0) =~= Seq::<char>::empty());
    }
}

/// Changing to the root leads to the root, from anywhere.
pub proof fn cd_to_the_root(s: FsView)
    requires
        s.mount is Some,
        s.mount == Some(FsKind::Fat) ==> s.fat is Some,
    ensures
        cd(s, seq!['/']).1 is Ok,
        pwd(cd(s, seq!['/']).0.cwd) == seq!['/'],
{
    let p = seq!['/'];
    assert(crate::path::stripped(p).len() == 0) by {
        crate::path::leading_slashes_bound(p);
        reveal_with_fuel(crate::path::leading_slashes, 3);
    }
    assert(components(p) =~= Seq::<Seq<char>>::empty());
    let none = Seq::<Seq<u8>>::empty();
    assert(walk(none, components(p)) == Ok::<Seq<Seq<u8>>, FsErr>(none));
    assert(check_dir(s, none) is Ok);
}

} // verus!
