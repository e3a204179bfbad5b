//! What the file system commands do, whichever file system is mounted.

use vstd::prelude::*;
use crate::bytes::u16_at;
use crate::ext4;
use crate::fat;
use crate::fs::{FsErr, FsKind, FsView, ListingView};
use crate::path::components;

verus! {

// ---------- mounting ----------

pub open spec fn mount_at(s: FsView, base: u32) -> (FsView, Result<(), FsErr>) {
    let s1 = FsView { base, ..s };
    if s.dev is None {
        (s1, Err(FsErr::NoDevice))
    } else {
        match s1.raw_read(2) {
            None => (s1, Err(FsErr::Io)),
            Some(sb) => if u16_at(sb, 56) == 0xEF53 {
                ext4::model::mount_at(s1, base)
            } else {
                fat::model::mount_at(s1, base)
            },
        }
    }
}

// ---------- the current directory ----------

/// What the current directory keeps of a name: its first twelve characters.
pub open spec fn part_of(name: Seq<char>) -> Seq<u8> {
    Seq::new(
        if name.len() > 12 {
            12
        } else {
            name.len()
        },
        |k: int| name[k] as u8,
    )
}

/// The directory that the names lead to from `parts`: `.` stays, `..` goes up
/// one level, any other name goes down one.
pub open spec fn walk(parts: Seq<Seq<u8>>, names: Seq<Seq<char>>) -> Result<Seq<Seq<u8>>, FsErr>
    decreases names.len(),
{
    if names.len() == 0 {
        Ok(parts)
    } else if names[0] == seq!['.'] {
        walk(parts, names.skip(1))
    } else if names[0] == seq!['.', '.'] {
        walk(
            if parts.len() > 0 {
                parts.drop_last()
            } else {
                parts
            },
            names.skip(1),
        )
    } else if parts.len() >= 16 {
        Err(FsErr::TooBig)
    } else {
        walk(parts.push(part_of(names[0])), names.skip(1))
    }
}

/// The directory that a path names, as it would be the current one.
pub open spec fn cd_target(cwd: Seq<Seq<u8>>, path: Seq<char>) -> Result<Seq<Seq<u8>>, FsErr> {
    walk(
        if path.len() > 0 && path[0] == '/' {
            Seq::empty()
        } else {
            cwd
        },
        components(path),
    )
}

/// The directory that the names lead to is there.
pub open spec fn check_dir(s: FsView, parts: Seq<Seq<u8>>) -> Result<(), FsErr> {
    match s.mount {
        None => Err(FsErr::NotFormatted),
        Some(FsKind::Fat) => fat::model::check_dir(s, parts),
        Some(FsKind::Ext4) => ext4::model::check_dir(s, parts),
    }
}

pub open spec fn cd(s: FsView, path: Seq<char>) -> (FsView, Result<(), FsErr>) {
    match cd_target(s.cwd, path) {
        Err(e) => (s, Err(e)),
        Ok(parts) => match check_dir(s, parts) {
            Err(e) => (s, Err(e)),
            Ok(()) => (FsView { cwd: parts, ..s }, Ok(())),
        },
    }
}

/// The lower-case characters of a name.
pub open spec fn lower_chars(part: Seq<u8>) -> Seq<char> {
    Seq::new(part.len(), |k: int| fat::model::lower(part[k]) as char)
}

/// The path of the directory that the first `n` names lead to.
pub open spec fn path_of(parts: Seq<Seq<u8>>, n: int) -> Seq<char>
    decreases n,
{
    if n <= 0 {
        Seq::empty()
    } else {
        path_of(parts, n - 1) + seq!['/'] + lower_chars(parts[n - 1])
    }
}

pub open spec fn pwd(cwd: Seq<Seq<u8>>) -> Seq<char> {
    if cwd.len() == 0 {
        seq!['/']
    } else {
        path_of(cwd, cwd.len() as int)
    }
}

// ---------- command dispatch ----------

/// On ext4 the transaction of a command is committed, whether the command
/// failed or not.
pub open spec fn commit_after(s: FsView, r: Result<(), FsErr>) -> (FsView, Result<(), FsErr>) {
    if s.mount == Some(FsKind::Ext4) {
        let (s1, r1) = ext4::model::jbd_commit(s);
        match r1 {
            Err(e) => (s1, Err(e)),
            Ok(()) => (s1, r),
        }
    } else {
        (s, r)
    }
}

pub open spec fn ls(s: FsView, path: Seq<char>) -> (Seq<ListingView>, Result<(), FsErr>) {
    match s.mount {
        None => (Seq::empty(), Err(FsErr::NotFormatted)),
        Some(FsKind::Fat) => fat::model::ls(s, path),
        Some(FsKind::Ext4) => ext4::model::ls(s, path),
    }
}

pub open spec fn cat(s: FsView, path: Seq<char>) -> (Seq<char>, Result<(), FsErr>) {
    match s.mount {
        None => (Seq::empty(), Err(FsErr::NotFormatted)),
        Some(FsKind::Fat) => fat::model::cat(s, path),
        Some(FsKind::Ext4) => ext4::model::cat(s, path),
    }
}

pub open spec fn read_file(s: FsView, path: Seq<char>, room: int) -> (Seq<u8>, Option<FsErr>) {
    match s.mount {
        None => (Seq::empty(), Some(FsErr::NotFormatted)),
        Some(FsKind::Fat) => fat::model::read_file(s, path, room),
        Some(FsKind::Ext4) => ext4::model::read_file(s, path, room),
    }
}

pub open spec fn mkdir(s: FsView, path: Seq<char>) -> (FsView, Result<(), FsErr>) {
    match s.mount {
        None => (s, Err(FsErr::NotFormatted)),
        Some(FsKind::Fat) => {
            let (s1, r) = fat::model::mkdir(s, path);
            commit_after(s1, r)
        },
        Some(FsKind::Ext4) => {
            let (s1, r) = ext4::model::mkdir(s, path);
            commit_after(s1, r)
        },
    }
}

pub open spec fn touch(s: FsView, path: Seq<char>) -> (FsView, Result<(), FsErr>) {
    match s.mount {
        None => (s, Err(FsErr::NotFormatted)),
        Some(FsKind::Fat) => {
            let (s1, r) = fat::model::touch(s, path);
            commit_after(s1, r)
        },
        Some(FsKind::Ext4) => {
            let (s1, r) = ext4::model::touch(s, path);
            commit_after(s1, r)
        },
    }
}

pub open spec fn rm(s: FsView, path: Seq<char>) -> (FsView, Result<(), FsErr>) {
    match s.mount {
        None => (s, Err(FsErr::NotFormatted)),
        Some(FsKind::Fat) => {
            let (s1, r) = fat::model::rm(s, path);
            commit_after(s1, r)
        },
        Some(FsKind::Ext4) => {
            let (s1, r) = ext4::model::rm(s, path);
            commit_after(s1, r)
        },
    }
}

pub open spec fn rmdir(s: FsView, path: Seq<char>) -> (FsView, Result<(), FsErr>) {
    match s.mount {
        None => (s, Err(FsErr::NotFormatted)),
        Some(FsKind::Fat) => {
            let (s1, r) = fat::model::rmdir(s, path);
            commit_after(s1, r)
        },
        Some(FsKind::Ext4) => {
            let (s1, r) = ext4::model::rmdir(s, path);
            commit_after(s1, r)
        },
    }
}

pub open spec fn mv(s: FsView, from: Seq<char>, to: Seq<char>) -> (FsView, Result<(), FsErr>) {
    match s.mount {
        None => (s, Err(FsErr::NotFormatted)),
        Some(FsKind::Fat) => {
            let (s1, r) = fat::model::mv(s, from, to);
            commit_after(s1, r)
        },
        Some(FsKind::Ext4) => {
            let (s1, r) = ext4::model::mv(s, from, to);
            commit_after(s1, r)
        },
    }
}

pub open spec fn write_file(s: FsView, path: Seq<char>, data: Seq<u8>) -> (
    FsView,
    Result<(), FsErr>,
) {
    match s.mount {
        None => (s, Err(FsErr::NotFormatted)),
        Some(FsKind::Fat) => {
            let (s1, r) = fat::model::write_file(s, path, data);
            commit_after(s1, r)
        },
        Some(FsKind::Ext4) => {
            let (s1, r) = ext4::model::write_file(s, path, data);
            commit_after(s1, r)
        },
    }
}

} // verus!
