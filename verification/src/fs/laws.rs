//! What the file system promises of whichever volume is mounted.

use vstd::prelude::*;
use crate::ext4;
use crate::bytes::head;
use crate::ext4::space::Place;
use crate::fat;
use crate::fs::model::{mkdir, mv, part_of, read_file, rm, rmdir, touch, walk, write_file};
use crate::fs::{FsErr, FsKind, FsView};

verus! {

/// How the directories of a volume lie on it.
pub enum Ground {
    /// The clusters of each directory and of each file, by the first of them.
    Fat(Map<u32, Seq<int>>, Map<u32, Seq<int>>),
    /// The places of the groups, and the inodes that the directories name.
    Ext4(Seq<Place>, Set<u32>),
}

/// The mounted volume is sound: its directories lead to files whose blocks are
/// marked as used and belong to no other.
pub open spec fn sound(s: FsView, g: Ground) -> bool {
    match g {
        Ground::Fat(dirs, files) => {
            &&& s.mount == Some(FsKind::Fat)
            &&& s.fat is Some
            &&& fat::sound::sound(s, s.fat->0, dirs, files)
        },
        Ground::Ext4(pl, live) => {
            &&& s.mount == Some(FsKind::Ext4)
            &&& ext4::tree::tree_ok(s, pl, live)
        },
    }
}

/// The table of a FAT volume has entries for so many free clusters. (The table
/// that a volume is made with may lack entries for its last clusters.)
pub open spec fn has_room(s: FsView, g: Ground, n: int) -> bool {
    g is Fat ==> fat::table::roomy(s, s.fat->0, n)
}

/// There is room for the data, and for a directory to grow.
pub open spec fn has_room_for(s: FsView, g: Ground, data: Seq<u8>) -> bool {
    g is Fat ==> fat::laws::room_for(s, s.fat->0, data)
}

/// The space is accounted for: on an ext4 volume the free counts of the
/// superblock and of the descriptors equal the clear bits of the bitmaps, and no
/// inode names a block twice.
pub open spec fn accounted(s: FsView, g: Ground) -> bool {
    g is Ext4 ==> ext4::counts::counted(s)
}

/// The path names a directory of a FAT volume.
pub open spec fn names_fat_dir(s: FsView, path: Seq<char>) -> bool {
    s.mount == Some(FsKind::Fat) && fat::model::find_file(s, s.fat->0, path) == Err::<
        fat::model::Entry,
        FsErr,
    >(FsErr::IsDir)
}

/// A file that was written is read back from the path that it was written to,
/// as much of it as the buffer has room for, on both kinds of volume and after
/// the commit that ends the command.
pub proof fn written_file_reads_back(
    s: FsView,
    g: Ground,
    path: Seq<char>,
    data: Seq<u8>,
    room: int,
)
    requires
        sound(s, g),
        !names_fat_dir(s, path),
        has_room_for(s, g, data),
        write_file(s, path, data).1 is Ok,
        room >= 0,
    ensures
        read_file(write_file(s, path, data).0, path, room) == (head(data, room), None::<FsErr>),
{
    match g {
        Ground::Fat(dirs, files) => {
            fat::sound::sound_tree(s, s.fat->0, dirs, files);
            fat::laws::written_file_reads_back(s, s.fat->0, dirs, path, data, room);
        },
        Ground::Ext4(pl, live) => {
            let s1 = ext4::model::write_file(s, path, data).0;
            let all = live.insert(ext4::files::written_inode(s, path));
            ext4::files::written_file_reads_back(s, pl, live, path, data, room);
            ext4::files::writing_keeps_the_tree(s, pl, live, path, data);
            ext4::files::commit_keeps_files(s1, pl, all, path, room);
            ext4::laws::commit_keeps_blocks(s1);
        },
    }
}

/// The directories are in order: each one but the root is named by the directory
/// that it leads up to, and on an ext4 volume each inode has one name.
pub open spec fn orderly(s: FsView, g: Ground) -> bool {
    match g {
        Ground::Fat(dirs, _) => fat::keeping::hung(s, s.fat->0, dirs),
        Ground::Ext4(_, live) => ext4::order::orderly(s, live),
    }
}

/// On an ext4 volume the last name of the path is neither `.` nor `..`. (The
/// root directory has no such entries, so a file can get such a name.)
pub open spec fn plain(s: FsView, g: Ground, path: Seq<char>) -> bool {
    g is Ext4 ==> ext4::order::plain(s, path)
}

/// A file is moved, or a directory within its own.
pub open spec fn moves_in_order(s: FsView, g: Ground, from: Seq<char>, to: Seq<char>) -> bool {
    match g {
        Ground::Fat(_, _) => fat::moving::stays_below(s, s.fat->0, from, to),
        Ground::Ext4(_, _) => ext4::order::moves_in_order(s, from, to),
    }
}

/// Block writes of an ext4 volume leave it mounted.
pub proof fn stays_mounted(s: FsView, t: FsView)
    requires
        ext4::atomic::by_writes(s, t),
    ensures
        t.mount == s.mount,
{
    let ws = choose|ws: Seq<(int, Seq<u8>)>| #[trigger] ext4::atomic::run(s, ws) == t;
    ext4::atomic::writes_keep_mount(s, ws);
}

/// Writing a file leaves a sound volume, whose space is accounted for if it was,
/// and whose directories are in order if they were.
pub proof fn volume_stays_sound(s: FsView, g: Ground, path: Seq<char>, data: Seq<u8>) -> (h: Ground)
    requires
        sound(s, g),
        !names_fat_dir(s, path),
        has_room_for(s, g, data),
        write_file(s, path, data).1 is Ok,
    ensures
        sound(write_file(s, path, data).0, h),
        accounted(s, g) ==> accounted(write_file(s, path, data).0, h),
        orderly(s, g) && plain(s, g, path) ==> orderly(write_file(s, path, data).0, h),
{
    match g {
        Ground::Fat(dirs, files) => {
            let i = s.fat->0;
            let more = fat::keeping::writing_keeps_sound(s, i, dirs, files, path, data);
            Ground::Fat(more, fat::keeping::files_after(s, i, files, path, data))
        },
        Ground::Ext4(pl, live) => {
            let s1 = ext4::model::write_file(s, path, data).0;
            let all = live.insert(ext4::files::written_inode(s, path));
            ext4::files::writing_keeps_the_tree(s, pl, live, path, data);
            ext4::files::commit_keeps_files(s1, pl, all, path, 0);
            ext4::laws::commit_keeps_blocks(s1);
            if orderly(s, g) && plain(s, g, path) {
                ext4::order::writing_in_order(s, pl, live, path, data);
                ext4::order::commit_in_order(s1, pl, all);
            }
            Ground::Ext4(pl, all)
        },
    }
}

/// A write for which an ext4 volume has no space, though the file was there or
/// got its name, leaves a sound volume on which the path leads to an empty file;
/// the space stays accounted for.
pub proof fn short_write_leaves_an_empty_file(
    s: FsView,
    pl: Seq<Place>,
    live: Set<u32>,
    path: Seq<char>,
    data: Seq<u8>,
    room: int,
) -> (h: Ground)
    requires
        sound(s, Ground::Ext4(pl, live)),
        ext4::model::write_file(s, path, data).1 == Err::<(), FsErr>(FsErr::NoSpace),
        ext4::model::find_file(s, path) is Ok || (ext4::model::target(s, path) is Ok
            && ext4::model::alloc_inode(s).1 is Ok && ext4::files::given_name(s, path).1 is Ok),
        ext4::model::jbd_commit(ext4::model::write_file(s, path, data).0).1 is Ok,
        room >= 0,
    ensures
        write_file(s, path, data).1 == Err::<(), FsErr>(FsErr::NoSpace),
        read_file(write_file(s, path, data).0, path, room) == (Seq::<u8>::empty(), None::<FsErr>),
        sound(write_file(s, path, data).0, h),
        accounted(s, Ground::Ext4(pl, live)) ==> accounted(write_file(s, path, data).0, h),
{
    let s1 = ext4::model::write_file(s, path, data).0;
    let ino = ext4::files::written_inode(s, path);
    let all = live.insert(ino);
    ext4::shortage::short_write_leaves_an_empty_file(s, pl, live, path, data);
    assert(ext4::model::file_data(s1, ino, room) == (head(Seq::<u8>::empty(), room), None::<FsErr>));
    assert(head(Seq::<u8>::empty(), room) =~= Seq::<u8>::empty());
    ext4::atomic::write_file_runs(s, path, data);
    stays_mounted(s, s1);
    ext4::files::commit_keeps_files(s1, pl, all, path, room);
    ext4::laws::commit_keeps_blocks(s1);
    Ground::Ext4(pl, all)
}

/// The path leads to something.
pub open spec fn leads(s: FsView, path: Seq<char>) -> bool {
    match s.mount {
        None => false,
        Some(FsKind::Fat) => match fat::model::target(s, s.fat->0, path) {
            Ok((d, n)) => fat::model::look_up(s, s.fat->0, d as int, n) is Ok,
            Err(_) => false,
        },
        Some(FsKind::Ext4) => match ext4::model::target(s, path) {
            Ok((p, n)) => ext4::model::lookup_dir(s, p, n) is Ok,
            Err(_) => false,
        },
    }
}

/// No block waits in the journal, as after every command.
pub open spec fn settled(s: FsView) -> bool {
    s.jbd matches Some(j) ==> j.pend.len() == 0
}

/// Making an empty file leaves a sound volume. Where the path led nowhere, it
/// leads to a file without data, and doing it again changes nothing; where it
/// led somewhere nothing changes.
pub proof fn touched_file_is_empty(
    s: FsView,
    g: Ground,
    path: Seq<char>,
    other: Seq<char>,
    room: int,
) -> (h: Ground)
    requires
        sound(s, g),
        has_room(s, g, 1),
        touch(s, path).1 is Ok,
        room >= 0,
    ensures
        sound(touch(s, path).0, h),
        accounted(s, g) ==> accounted(touch(s, path).0, h),
        orderly(s, g) && plain(s, g, path) ==> orderly(touch(s, path).0, h),
        !leads(s, path) ==> read_file(touch(s, path).0, path, room) == (
            Seq::<u8>::empty(),
            None::<FsErr>,
        ),
        !leads(s, path) ==> touch(touch(s, path).0, path) == (touch(s, path).0, Ok::<(), FsErr>(())),
        leads(s, path) && (g is Fat || settled(s)) ==> touch(s, path) == (s, Ok::<(), FsErr>(())),
        leads(s, path) ==> read_file(touch(s, path).0, other, room) == read_file(s, other, room),
{
    let t = touch(s, path).0;
    match g {
        Ground::Fat(dirs, files) => {
            let more = fat::keeping::touched_file_is_there(s, s.fat->0, dirs, files, path, room);
            Ground::Fat(more, files)
        },
        Ground::Ext4(pl, live) => {
            let s1 = ext4::model::touch(s, path).0;
            ext4::keeping::touched_file_is_there(s, pl, live, path, room);
            ext4::atomic::touch_runs(s, path);
            stays_mounted(s, s1);
            let all = if leads(s, path) {
                live
            } else {
                live.insert(ext4::keeping::new_ino(s))
            };
            ext4::files::commit_keeps_files(s1, pl, all, path, room);
            ext4::files::commit_keeps_files(s1, pl, all, other, room);
            ext4::laws::commit_keeps_blocks(s1);
            reveal(ext4::model::touch);
            if let Some(j) = s1.jbd {
                if j.pend.len() > 0 {
                    ext4::laws::commit_brings_blocks_home(s1, j);
                }
            }
            assert(settled(t));
            if !leads(s, path) {
                assert(ext4::model::find_file(t, path) is Ok);
                assert(leads(t, path));
            }
            if orderly(s, g) && plain(s, g, path) {
                ext4::order::touch_in_order(s, pl, live, path);
                ext4::order::commit_in_order(s1, pl, all);
            }
            Ground::Ext4(pl, all)
        },
    }
}

/// Making a directory, which goes through only where the path led nowhere,
/// leaves a sound volume.
pub proof fn made_directory_keeps_sound(s: FsView, g: Ground, path: Seq<char>) -> (h: Ground)
    requires
        sound(s, g),
        has_room(s, g, 2),
        mkdir(s, path).1 is Ok,
    ensures
        sound(mkdir(s, path).0, h),
        accounted(s, g) ==> accounted(mkdir(s, path).0, h),
        orderly(s, g) && plain(s, g, path) ==> orderly(mkdir(s, path).0, h),
        !leads(s, path),
{
    match g {
        Ground::Fat(dirs, files) => {
            let all = fat::keeping::made_directory_is_there(s, s.fat->0, dirs, files, path);
            Ground::Fat(all, files)
        },
        Ground::Ext4(pl, live) => {
            let s1 = ext4::model::mkdir(s, path).0;
            let all = live.insert(ext4::keeping::new_ino(s));
            ext4::keeping::made_directory_is_there(s, pl, live, path);
            ext4::atomic::mkdir_runs(s, path);
            stays_mounted(s, s1);
            ext4::files::commit_keeps_files(s1, pl, all, path, 0);
            ext4::laws::commit_keeps_blocks(s1);
            if orderly(s, g) && plain(s, g, path) {
                ext4::order::mkdir_in_order(s, pl, live, path);
                ext4::order::commit_in_order(s1, pl, all);
            }
            Ground::Ext4(pl, all)
        },
    }
}

/// Moving a file or a directory leaves a sound volume.
pub proof fn move_keeps_sound(s: FsView, g: Ground, from: Seq<char>, to: Seq<char>) -> (h: Ground)
    requires
        sound(s, g),
        has_room(s, g, 1),
        mv(s, from, to).1 is Ok,
    ensures
        sound(mv(s, from, to).0, h),
        accounted(s, g) ==> accounted(mv(s, from, to).0, h),
        orderly(s, g) && moves_in_order(s, g, from, to) ==> orderly(mv(s, from, to).0, h),
{
    match g {
        Ground::Fat(dirs, files) => {
            let more = fat::moving::moving_keeps_sound(s, s.fat->0, dirs, files, from, to);
            Ground::Fat(more, files)
        },
        Ground::Ext4(pl, live) => {
            let s1 = ext4::model::mv(s, from, to).0;
            ext4::moving::moving_keeps_the_tree(s, pl, live, from, to);
            ext4::atomic::mv_runs(s, from, to);
            stays_mounted(s, s1);
            ext4::files::commit_keeps_files(s1, pl, live, to, 0);
            ext4::laws::commit_keeps_blocks(s1);
            if orderly(s, g) && moves_in_order(s, g, from, to) {
                ext4::order::move_in_order(s, pl, live, from, to);
                ext4::order::commit_in_order(s1, pl, live);
            }
            g
        },
    }
}

/// Nothing else leads to what the path leads to: on an ext4 volume no other
/// name, on a FAT volume the way up out of no other directory.
pub open spec fn alone(s: FsView, g: Ground, path: Seq<char>) -> bool {
    match g {
        Ground::Fat(dirs, _) => fat::keeping::not_above(
            s,
            s.fat->0,
            dirs,
            fat::keeping::dir_entry(s, s.fat->0, path).cluster,
        ),
        Ground::Ext4(_, live) => {
            let (p, n) = ext4::model::target(s, path)->Ok_0;
            let ino = (ext4::model::lookup_dir(s, p, n)->Ok_0).0;
            &&& ino != p
            &&& ino != 2
            &&& ext4::erasing::named_once(s, live, p, n, ino)
        },
    }
}

/// Removing a file leaves a sound volume.
pub proof fn removal_keeps_sound(s: FsView, g: Ground, path: Seq<char>) -> (h: Ground)
    requires
        sound(s, g),
        rm(s, path).1 is Ok,
        g is Ext4 ==> alone(s, g, path),
    ensures
        sound(rm(s, path).0, h),
        accounted(s, g) ==> accounted(rm(s, path).0, h),
        orderly(s, g) ==> orderly(rm(s, path).0, h),
{
    match g {
        Ground::Fat(dirs, files) => {
            let i = s.fat->0;
            fat::keeping::removal_keeps_sound(s, i, dirs, files, path);
            let e = fat::model::find_file(s, i, path)->Ok_0;
            Ground::Fat(dirs, fat::keeping::without_file(files, e.cluster))
        },
        Ground::Ext4(pl, live) => {
            reveal(ext4::model::rm);
            let s1 = ext4::model::rm(s, path).0;
            let ino = ext4::model::find_file(s, path)->Ok_0;
            ext4::erasing::removed_file_is_gone(s, pl, live, path, path, 0);
            ext4::atomic::rm_runs(s, path);
            stays_mounted(s, s1);
            ext4::files::commit_keeps_files(s1, pl, live.remove(ino), path, 0);
            ext4::laws::commit_keeps_blocks(s1);
            if orderly(s, g) {
                let (p, n) = ext4::model::target(s, path)->Ok_0;
                ext4::order::lessened_in_order(s, s1, pl, live, p, n, ino);
                ext4::order::commit_in_order(s1, pl, live.remove(ino));
            }
            Ground::Ext4(pl, live.remove(ino))
        },
    }
}

/// Removing a directory that nothing else leads to leaves a sound volume.
pub proof fn directory_removal_keeps_sound(s: FsView, g: Ground, path: Seq<char>) -> (h: Ground)
    requires
        sound(s, g),
        rmdir(s, path).1 is Ok,
        alone(s, g, path),
    ensures
        sound(rmdir(s, path).0, h),
        accounted(s, g) ==> accounted(rmdir(s, path).0, h),
        orderly(s, g) ==> orderly(rmdir(s, path).0, h),
{
    match g {
        Ground::Fat(dirs, files) => {
            let i = s.fat->0;
            fat::keeping::directory_removal_keeps_sound(s, i, dirs, files, path);
            let e = fat::keeping::dir_entry(s, i, path);
            Ground::Fat(dirs.remove(e.cluster), files)
        },
        Ground::Ext4(pl, live) => {
            let s1 = ext4::model::rmdir(s, path).0;
            let (p, n) = ext4::model::target(s, path)->Ok_0;
            let ino = (ext4::model::lookup_dir(s, p, n)->Ok_0).0;
            ext4::erasing::removed_directory_is_gone(s, pl, live, path);
            ext4::atomic::rmdir_runs(s, path);
            stays_mounted(s, s1);
            ext4::files::commit_keeps_files(s1, pl, live.remove(ino), path, 0);
            ext4::laws::commit_keeps_blocks(s1);
            if orderly(s, g) {
                ext4::order::lessened_in_order(s, s1, pl, live, p, n, ino);
                ext4::order::commit_in_order(s1, pl, live.remove(ino));
            }
            Ground::Ext4(pl, live.remove(ino))
        },
    }
}

/// On an ext4 volume the name stands once in its directory.
pub open spec fn stands_once(s: FsView, g: Ground, path: Seq<char>) -> bool {
    g is Ext4 ==> {
        let (p, n) = ext4::model::target(s, path)->Ok_0;
        ext4::entries::times(ext4::model::dir_entries(s, p).0, n) <= 1
    }
}

/// A directory of an orderly volume can be removed: where the removal succeeds,
/// nothing else leads to it.
pub proof fn orderly_directories_are_alone(s: FsView, g: Ground, path: Seq<char>)
    requires
        sound(s, g),
        orderly(s, g),
        plain(s, g, path),
        stands_once(s, g, path),
        rmdir(s, path).1 is Ok,
    ensures
        alone(s, g, path),
{
    match g {
        Ground::Fat(dirs, files) => {
            fat::keeping::removed_is_empty(s, s.fat->0, dirs, files, path);
            let c = fat::keeping::dir_entry(s, s.fat->0, path).cluster;
            fat::keeping::empty_is_not_above(s, s.fat->0, dirs, c);
        },
        Ground::Ext4(pl, live) => {
            reveal(ext4::model::rmdir);
            let (p, n) = ext4::model::target(s, path)->Ok_0;
            assert(ext4::tree::ways_kept(s, s, live));
            ext4::tree::target_kept(s, s, pl, live, path);
            ext4::tree::found_lives(s, pl, live, p, n);
            ext4::order::orderly_is_alone(s, live, p, n);
        },
    }
}

/// A file of an orderly ext4 volume can be removed: nothing else leads to it.
pub proof fn orderly_files_are_alone(s: FsView, pl: Seq<Place>, live: Set<u32>, path: Seq<char>)
    requires
        sound(s, Ground::Ext4(pl, live)),
        orderly(s, Ground::Ext4(pl, live)),
        plain(s, Ground::Ext4(pl, live), path),
        stands_once(s, Ground::Ext4(pl, live), path),
        rm(s, path).1 is Ok,
    ensures
        alone(s, Ground::Ext4(pl, live), path),
{
    reveal(ext4::model::rm);
    let (p, n) = ext4::model::target(s, path)->Ok_0;
    assert(ext4::tree::ways_kept(s, s, live));
    ext4::tree::target_kept(s, s, pl, live, path);
    ext4::tree::found_lives(s, pl, live, p, n);
    ext4::order::orderly_is_alone(s, live, p, n);
}

/// A volume that was made as FAT, on a disk whose sectors can all be written,
/// is mounted, sound and orderly, and has room.
pub proof fn fresh_fat_is_sound(s: FsView, base: u32)
    requires
        s.disk.wf(),
        s.disk.fixed == Set::<int>::empty(),
        fat::model::mkfs_at(s, base).1 is Ok,
    ensures
        exists|g: Ground| #[trigger]
            sound(fat::model::mkfs_at(s, base).0, g) && orderly(fat::model::mkfs_at(s, base).0, g)
                && has_room(fat::model::mkfs_at(s, base).0, g, 1000),
{
    fat::fresh::fresh_volume_is_sound(s, base);
    let g = Ground::Fat(fat::fresh::fresh_dirs(), Map::empty());
    let t = fat::model::mkfs_at(s, base).0;
    assert(sound(t, g) && orderly(t, g) && has_room(t, g, 1000));
}

/// A volume that was made as ext4 is mounted, sound and orderly, unless a record of an
/// earlier volume stands in the first slot of the journal: that is replayed. Its
/// space is accounted for, if every group has room for its administration.
pub proof fn fresh_ext4_is_sound(s: FsView, base: u32)
    requires
        ext4::layout::mkfs_at(s, base).1 is Ok,
        ext4::making::no_old_record(s, base),
    ensures
        exists|g: Ground| #[trigger]
            sound(ext4::layout::mkfs_at(s, base).0, g) && orderly(
                ext4::layout::mkfs_at(s, base).0,
                g,
            ) && (ext4::fresh::groups_whole(
                ext4::layout::fresh_info(s.dev->0)->Ok_0,
            ) ==> accounted(ext4::layout::mkfs_at(s, base).0, g)),
{
    ext4::making::fresh_volume_is_sound(s, base);
    if ext4::fresh::groups_whole(ext4::layout::fresh_info(s.dev->0)->Ok_0) {
        ext4::making::fresh_volume_is_counted(s, base);
    }
    let t = ext4::layout::mkfs_at(s, base).0;
    let pl = ext4::fresh::fresh_places(t.ext->0.groups as int);
    let inos = choose|inos: Seq<u32>|
        #![trigger ext4::making::fresh_live(inos)]
        inos.len() == 6 && ext4::order::orderly(t, ext4::making::fresh_live(inos))
            && ext4::tree::tree_ok(t, pl, ext4::making::fresh_live(inos));
    assert(sound(t, Ground::Ext4(pl, ext4::making::fresh_live(inos))));
}

// ---------- the current directory ----------

/// Following names one list after the other is following them all.
pub proof fn walks_add_up(parts: Seq<Seq<u8>>, a: Seq<Seq<char>>, b: Seq<Seq<char>>)
    ensures
        walk(parts, a + b) == (match walk(parts, a) {
            Ok(mid) => walk(mid, b),
            Err(e) => Err(e),
        }),
    decreases a.len(),
{
    if a.len() == 0 {
        assert(a + b =~= b);
    } else {
        assert((a + b)[0] == a[0]);
        assert((a + b).skip(1) =~= a.skip(1) + b);
        if a[0] == seq!['.'] {
            walks_add_up(parts, a.skip(1), b);
        } else if a[0] == seq!['.', '.'] {
            if parts.len() > 0 {
                walks_add_up(parts.drop_last(), a.skip(1), b);
            } else {
                walks_add_up(parts, a.skip(1), b);
            }
        } else if parts.len() < 16 {
            walks_add_up(parts.push(part_of(a[0])), a.skip(1), b);
        }
    }
}

/// Going down into a directory and up again leads back.
pub proof fn up_undoes_down(parts: Seq<Seq<u8>>, name: Seq<char>)
    requires
        parts.len() < 16,
        name != seq!['.'],
        name != seq!['.', '.'],
    ensures
        walk(parts, seq![name, seq!['.', '.']]) == Ok::<Seq<Seq<u8>>, FsErr>(parts),
{
    let down = parts.push(part_of(name));
    let names = seq![name, seq!['.', '.']];
    assert(names.skip(1) =~= seq![seq!['.', '.']]);
    assert(seq![seq!['.', '.']].skip(1) =~= Seq::<Seq<char>>::empty());
    let up = seq![seq!['.', '.']];
    assert(up[0].len() == 2);
    assert(up[0] != seq!['.']) by {
        assert(seq!['.'].len() == 1);
    }
    assert(down.drop_last() =~= parts);
    assert(walk(parts, Seq::<Seq<char>>::empty()) == Ok::<Seq<Seq<u8>>, FsErr>(parts));
    assert(walk(down, up) == walk(parts, Seq::<Seq<char>>::empty()));
}

} // verus!
