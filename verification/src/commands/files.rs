//! Commands on files.

use vstd::prelude::*;
use crate::bytes;

use crate::ext4;
use crate::fat;
use crate::fs;
use crate::fs::{Fs, FsErr, FsView, Listing, ListingView};
use crate::text;
use crate::text::{chars_of, copy_chars, eq_ci_str, push_all, push_dec, push_left, push_right};
use crate::text::{push_str, same_but_case};
use crate::tty::{line, nothing, one_line, one_str, outs, put, put_all, put_line, Out, OutView};

verus! {

/// The line that reports an error of a command.
pub open spec fn err_line(cmd: Seq<char>, e: FsErr) -> OutView {
    line(cmd + ": "@ + fs::err_text(e))
}

/// What a command reports of its result: nothing when it went well.
pub open spec fn report(cmd: Seq<char>, r: Result<(), FsErr>) -> Seq<OutView> {
    match r {
        Ok(_) => Seq::empty(),
        Err(e) => seq![err_line(cmd, e)],
    }
}

fn fs_err(cmd: &str, e: FsErr) -> (v: Vec<Out>)
    ensures
        outs(v@) == seq![err_line(cmd@, e)],
{
    let mut l = chars_of(cmd);
    push_str(&mut l, ": ");
    push_str(&mut l, fs::err_str(e));
    one_line(l)
}

fn say(cmd: &str, r: Result<(), FsErr>) -> (v: Vec<Out>)
    ensures
        outs(v@) == report(cmd@, r),
{
    match r {
        Ok(_) => nothing(),
        Err(e) => fs_err(cmd, e),
    }
}

/// A command that needs a mounted file system and an argument.
pub open spec fn refused(f: FsView, cmd: Seq<char>, usage: Seq<char>, given: bool) -> Option<
    Seq<OutView>,
> {
    if f.mount is None {
        Some(seq![err_line(cmd, FsErr::NotFormatted)])
    } else if !given {
        Some(seq![line(usage)])
    } else {
        None
    }
}

fn refuse(f: &Fs, cmd: &str, usage: &str, given: bool) -> (r: Option<Vec<Out>>)
    ensures
        match (r, refused(f@, cmd@, usage@, given)) {
            (None, None) => true,
            (Some(v), Some(s)) => outs(v@) == s,
            _ => false,
        },
{
    if !fs::mounted(f) {
        Some(fs_err(cmd, FsErr::NotFormatted))
    } else if !given {
        Some(one_str(usage))
    } else {
        None
    }
}

/// A line of a listing.
pub open spec fn entry_text(l: ListingView) -> Seq<char> {
    l.name + " "@ + text::left(
        if l.is_dir {
            "<DIR>"@
        } else {
            "file"@
        },
        6,
    ) + " "@ + match l.size {
        Some(n) => text::right(text::dec(n as nat), 8),
        None => Seq::empty(),
    }
}

fn show_entry(l: &Listing) -> (v: Vec<char>)
    ensures
        v@ == entry_text(l@),
{
    let mut v = copy_chars(&l.name);
    push_str(&mut v, " ");
    push_left(
        &mut v,
        &chars_of(
            if l.is_dir {
                "<DIR>"
            } else {
                "file"
            },
        ),
        6,
    );
    push_str(&mut v, " ");
    if let Some(n) = l.size {
        push_right(&mut v, &text::dec_of(n), 8);
    }
    assert(v@ =~= entry_text(l@));
    v
}

pub open spec fn ls(f: FsView, arg: Seq<char>) -> Seq<OutView> {
    if f.mount is None {
        seq![err_line("ls"@, FsErr::NotFormatted)]
    } else {
        let (list, r) = fs::model::ls(f, arg);
        Seq::new(list.len(), |i: int| line(entry_text(list[i]))) + report("ls"@, r)
    }
}

pub(crate) fn cmd_ls(f: &Fs, arg: &[char]) -> (v: Vec<Out>)
    requires
        f.wf(),
    ensures
        outs(v@) == ls(f@, arg@),
{
    if !fs::mounted(f) {
        return fs_err("ls", FsErr::NotFormatted);
    }
    let (list, r) = fs::ls(f, arg);
    let mut v = nothing();
    let mut k: usize = 0;
    let ghost all = Seq::new(
        list@.len(),
        |i: int| line(entry_text(fs::listing_view(list@)[i])),
    );
    assert(outs(v@) =~= all.take(0));
    while k < list.len()
        invariant
            k <= list@.len(),
            all == Seq::new(
                list@.len(),
                |i: int| line(entry_text(fs::listing_view(list@)[i])),
            ),
            outs(v@) == all.take(k as int),
        decreases list@.len() - k,
    {
        put_line(&mut v, show_entry(&list[k]));
        k += 1;
        assert(outs(v@) =~= all.take(k as int));
    }
    assert(all.take(k as int) =~= all);
    put_all(&mut v, say("ls", r));
    assert(outs(v@) =~= ls(f@, arg@));
    v
}

pub open spec fn cat(f: FsView, arg: Seq<char>) -> Seq<OutView> {
    match refused(f, "cat"@, "Usage: cat <path>"@, arg.len() > 0) {
        Some(o) => o,
        None => {
            let (t, r) = fs::model::cat(f, arg);
            seq![OutView::Text(t)] + report("cat"@, r)
        },
    }
}

pub(crate) fn cmd_cat(f: &Fs, arg: &[char]) -> (v: Vec<Out>)
    requires
        f.wf(),
    ensures
        outs(v@) == cat(f@, arg@),
{
    if let Some(v) = refuse(f, "cat", "Usage: cat <path>", arg.len() > 0) {
        return v;
    }
    let (t, r) = fs::cat(f, arg);
    let mut v = nothing();
    put(&mut v, Out::Text(t));
    put_all(&mut v, say("cat", r));
    assert(outs(v@) =~= cat(f@, arg@));
    v
}

pub open spec fn cd(f: FsView, arg: Seq<char>) -> (FsView, Seq<OutView>) {
    if f.mount is None {
        (f, seq![err_line("cd"@, FsErr::NotFormatted)])
    } else {
        let (f1, r) = fs::model::cd(f, arg);
        (f1, report("cd"@, r))
    }
}

pub(crate) fn cmd_cd(f: &mut Fs, arg: &[char]) -> (v: Vec<Out>)
    requires
        old(f).wf(),
    ensures
        final(f).wf(),
        (final(f)@, outs(v@)) == cd(old(f)@, arg@),
{
    if !fs::mounted(f) {
        return fs_err("cd", FsErr::NotFormatted);
    }
    let r = fs::cd(f, arg);
    say("cd", r)
}

pub open spec fn mkdir(f: FsView, arg: Seq<char>) -> (FsView, Seq<OutView>) {
    match refused(f, "mkdir"@, "Usage: mkdir <path>"@, arg.len() > 0) {
        Some(o) => (f, o),
        None => {
            let (f1, r) = fs::model::mkdir(f, arg);
            (f1, report("mkdir"@, r))
        },
    }
}

pub(crate) fn cmd_mkdir(f: &mut Fs, arg: &[char]) -> (v: Vec<Out>)
    requires
        old(f).wf(),
    ensures
        final(f).wf(),
        (final(f)@, outs(v@)) == mkdir(old(f)@, arg@),
{
    if let Some(v) = refuse(f, "mkdir", "Usage: mkdir <path>", arg.len() > 0) {
        return v;
    }
    let r = fs::mkdir(f, arg);
    say("mkdir", r)
}

pub open spec fn touch(f: FsView, arg: Seq<char>) -> (FsView, Seq<OutView>) {
    match refused(f, "touch"@, "Usage: touch <path>"@, arg.len() > 0) {
        Some(o) => (f, o),
        None => {
            let (f1, r) = fs::model::touch(f, arg);
            (f1, report("touch"@, r))
        },
    }
}

pub(crate) fn cmd_touch(f: &mut Fs, arg: &[char]) -> (v: Vec<Out>)
    requires
        old(f).wf(),
    ensures
        final(f).wf(),
        (final(f)@, outs(v@)) == touch(old(f)@, arg@),
{
    if let Some(v) = refuse(f, "touch", "Usage: touch <path>", arg.len() > 0) {
        return v;
    }
    let r = fs::touch(f, arg);
    say("touch", r)
}

pub open spec fn rm(f: FsView, arg: Seq<char>) -> (FsView, Seq<OutView>) {
    match refused(f, "rm"@, "Usage: rm <path>"@, arg.len() > 0) {
        Some(o) => (f, o),
        None => {
            let (f1, r) = fs::model::rm(f, arg);
            (f1, report("rm"@, r))
        },
    }
}

pub(crate) fn cmd_rm(f: &mut Fs, arg: &[char]) -> (v: Vec<Out>)
    requires
        old(f).wf(),
    ensures
        final(f).wf(),
        (final(f)@, outs(v@)) == rm(old(f)@, arg@),
{
    if let Some(v) = refuse(f, "rm", "Usage: rm <path>", arg.len() > 0) {
        return v;
    }
    let r = fs::rm(f, arg);
    say("rm", r)
}

pub open spec fn rmdir(f: FsView, arg: Seq<char>) -> (FsView, Seq<OutView>) {
    match refused(f, "rmdir"@, "Usage: rmdir <path>"@, arg.len() > 0) {
        Some(o) => (f, o),
        None => {
            let (f1, r) = fs::model::rmdir(f, arg);
            (f1, report("rmdir"@, r))
        },
    }
}

pub(crate) fn cmd_rmdir(f: &mut Fs, arg: &[char]) -> (v: Vec<Out>)
    requires
        old(f).wf(),
    ensures
        final(f).wf(),
        (final(f)@, outs(v@)) == rmdir(old(f)@, arg@),
{
    if let Some(v) = refuse(f, "rmdir", "Usage: rmdir <path>", arg.len() > 0) {
        return v;
    }
    let r = fs::rmdir(f, arg);
    say("rmdir", r)
}

pub open spec fn mv(f: FsView, a: Seq<char>, b: Seq<char>) -> (FsView, Seq<OutView>) {
    match refused(f, "mv"@, "Usage: mv <old> <new>"@, a.len() > 0 && b.len() > 0) {
        Some(o) => (f, o),
        None => {
            let (f1, r) = fs::model::mv(f, a, b);
            (f1, report("mv"@, r))
        },
    }
}

pub(crate) fn cmd_mv(f: &mut Fs, a: &[char], b: &[char]) -> (v: Vec<Out>)
    requires
        old(f).wf(),
    ensures
        final(f).wf(),
        (final(f)@, outs(v@)) == mv(old(f)@, a@, b@),
{
    if let Some(v) = refuse(f, "mv", "Usage: mv <old> <new>", a.len() > 0 && b.len() > 0) {
        return v;
    }
    let r = fs::mv(f, a, b);
    say("mv", r)
}

pub open spec fn mkfs(f: FsView, arg: Seq<char>) -> (FsView, Seq<OutView>) {
    let as_ext4 = arg.len() > 0 && arg[0] == 'e';
    let (f1, r) = if as_ext4 {
        ext4::layout::mkfs_at(f, 0)
    } else {
        fat::model::mkfs_at(f, 0)
    };
    (
        f1,
        match r {
            Ok(_) => seq![
                line(
                    if as_ext4 {
                        "mkfs: data disk formatted as ext4"@
                    } else {
                        "mkfs: data disk formatted as FAT32"@
                    },
                ),
            ],
            Err(e) => seq![err_line("mkfs"@, e)],
        },
    )
}

pub(crate) fn cmd_mkfs(f: &mut Fs, arg: &[char]) -> (v: Vec<Out>)
    requires
        old(f).wf(),
    ensures
        final(f).wf(),
        (final(f)@, outs(v@)) == mkfs(old(f)@, arg@),
{
    let as_ext4: bool = arg.len() > 0 && arg[0] == 'e';
    let r = if as_ext4 {
        fs::mkfs_ext4(f)
    } else {
        fs::mkfs(f)
    };
    match r {
        Ok(_) => one_str(
            if as_ext4 {
                "mkfs: data disk formatted as ext4"
            } else {
                "mkfs: data disk formatted as FAT32"
            },
        ),
        Err(e) => fs_err("mkfs", e),
    }
}

// ---------- wtest ----------

pub const WTEST_MAX: usize = 4_194_304;

/// The byte `i` of the test pattern.
pub open spec fn pattern(i: int) -> u8 {
    (i * 2654435761 / 0x20_0000 % 256) as u8 ^ (i % 256 * 31 % 256) as u8
}

fn wtest_pattern(i: usize) -> (b: u8)
    requires
        i < WTEST_MAX,
    ensures
        b == pattern(i as int),
{
    let a: u64 = i as u64 * 2654435761 / 0x20_0000 % 256;
    let c: u64 = i as u64 % 256 * 31 % 256;
    a as u8 ^ c as u8
}

/// The first byte from `i` on that is not that of the pattern.
pub open spec fn first_bad(d: Seq<u8>, i: int) -> Option<int>
    decreases d.len() - i,
{
    if i < 0 || i >= d.len() {
        None
    } else if d[i] != pattern(i) {
        Some(i)
    } else {
        first_bad(d, i + 1)
    }
}

pub open spec fn verified(f: FsView, arg: Seq<char>) -> Seq<OutView> {
    match fs::model::read_file(f, arg, WTEST_MAX as int) {
        (_, Some(e)) => seq![err_line("wtest"@, e)],
        (d, None) => match first_bad(d, 0) {
            Some(i) => seq![line("wtest: MISMATCH at byte "@ + text::dec(i as nat))],
            None => seq![line("wtest: verify OK ("@ + text::dec(d.len()) + " bytes)"@)],
        },
    }
}

fn verify(f: &Fs, arg: &[char]) -> (v: Vec<Out>)
    requires
        f.wf(),
    ensures
        outs(v@) == verified(f@, arg@),
{
    let mut buf = bytes::zeros(WTEST_MAX);
    let ghost d = fs::model::read_file(f@, arg@, WTEST_MAX as int).0;
    let n: usize = match fs::read_file(f, arg, &mut buf) {
        Ok(n) => n,
        Err(e) => {
            return fs_err("wtest", e);
        },
    };
    assert(buf@.subrange(0, n as int) =~= d);
    let mut i: usize = 0;
    while i < n
        invariant
            i <= n <= WTEST_MAX,
            n == d.len(),
            buf@.len() == WTEST_MAX,
            forall|k: int| 0 <= k < n ==> #[trigger] buf@[k] == d[k],
            d == fs::model::read_file(f@, arg@, WTEST_MAX as int).0,
            fs::model::read_file(f@, arg@, WTEST_MAX as int).1 is None,
            first_bad(d, 0) == first_bad(d, i as int),
        decreases n - i,
    {
        if buf[i] != wtest_pattern(i) {
            let mut l = chars_of("wtest: MISMATCH at byte ");
            push_dec(&mut l, i as u64);
            return one_line(l);
        }
        i += 1;
    }
    let mut l = chars_of("wtest: verify OK (");
    push_dec(&mut l, n as u64);
    push_str(&mut l, " bytes)");
    one_line(l)
}

/// The size that an argument gives, read digit by digit from `k` on.
pub enum Size {
    Invalid,
    TooBig,
    Is(nat),
}

pub open spec fn size_from(s: Seq<char>, k: int, n: nat) -> Size
    decreases s.len() - k,
{
    if k < 0 || k >= s.len() {
        Size::Is(n)
    } else if !('0' <= s[k] && s[k] <= '9') {
        Size::Invalid
    } else {
        let m = n * 10 + (s[k] as int - 48);
        if m > WTEST_MAX {
            Size::TooBig
        } else {
            size_from(s, k + 1, m as nat)
        }
    }
}

pub open spec fn pattern_bytes(n: nat) -> Seq<u8> {
    Seq::new(n, |i: int| pattern(i))
}

/// What a write of the test pattern does.
pub open spec fn pattern_written(f: FsView, arg: Seq<char>, n: nat) -> (FsView, Seq<OutView>) {
    let (f1, r) = fs::model::write_file(f, arg, pattern_bytes(n));
    (
        ext4::model::jbd_commit(f1).0,
        match r {
            Ok(_) => seq![line("wtest: wrote "@ + text::dec(n) + " bytes to "@ + arg)],
            Err(e) => seq![err_line("wtest"@, e)],
        },
    )
}

fn write_pattern(f: &mut Fs, arg: &[char], size: usize) -> (v: Vec<Out>)
    requires
        old(f).wf(),
        size <= WTEST_MAX,
    ensures
        final(f).wf(),
        (final(f)@, outs(v@)) == pattern_written(old(f)@, arg@, size as nat),
{
    let mut buf: Vec<u8> = Vec::new();
    let mut i: usize = 0;
    while i < size
        invariant
            i <= size <= WTEST_MAX,
            buf@ == pattern_bytes(i as nat),
        decreases size - i,
    {
        buf.push(wtest_pattern(i));
        i += 1;
        assert(buf@ =~= pattern_bytes(i as nat));
    }
    let r = fs::write_file(f, arg, &buf);
    let _ = ext4::jbd_commit(f);
    match r {
        Ok(_) => {
            let mut l = chars_of("wtest: wrote ");
            push_dec(&mut l, size as u64);
            push_str(&mut l, " bytes to ");
            push_all(&mut l, arg);
            one_line(l)
        },
        Err(e) => fs_err("wtest", e),
    }
}

pub open spec fn wtest(f: FsView, arg: Seq<char>, size: Seq<char>) -> (FsView, Seq<OutView>) {
    match refused(
        f,
        "wtest"@,
        "Usage: wtest <path> <size|verify>"@,
        arg.len() > 0 && size.len() > 0,
    ) {
        Some(o) => (f, o),
        None => if same_but_case(size, "verify"@) {
            (f, verified(f, arg))
        } else {
            match size_from(size, 0, 0) {
                Size::Invalid => (f, seq![line("wtest: invalid size"@)]),
                Size::TooBig => (
                    f,
                    seq![line("wtest: size must be <= "@ + text::dec(WTEST_MAX as nat))],
                ),
                Size::Is(n) => if n == 0 {
                    (f, seq![line("wtest: size must be > 0"@)])
                } else {
                    pattern_written(f, arg, n)
                },
            }
        },
    }
}

fn digit_of(c: char) -> (r: Option<usize>)
    ensures
        r is Some <==> '0' <= c && c <= '9',
        r matches Some(d) ==> d == c as int - 48 && d <= 9,
{
    if '0' <= c && c <= '9' {
        Some(c as usize - 48)
    } else {
        None
    }
}

/// Writes a pattern file, or verifies one.
pub(crate) fn cmd_wtest(f: &mut Fs, arg: &[char], size_arg: &[char]) -> (v: Vec<Out>)
    requires
        old(f).wf(),
    ensures
        final(f).wf(),
        (final(f)@, outs(v@)) == wtest(old(f)@, arg@, size_arg@),
{
    if let Some(v) = refuse(
        f,
        "wtest",
        "Usage: wtest <path> <size|verify>",
        arg.len() > 0 && size_arg.len() > 0,
    ) {
        return v;
    }
    if eq_ci_str(size_arg, "verify") {
        return verify(f, arg);
    }
    let mut size: usize = 0;
    let mut k: usize = 0;
    while k < size_arg.len()
        invariant
            k <= size_arg@.len(),
            size <= WTEST_MAX,
            f.wf(),
            f@ == old(f)@,
            !same_but_case(size_arg@, "verify"@),
            refused(
                f@,
                "wtest"@,
                "Usage: wtest <path> <size|verify>"@,
                arg@.len() > 0 && size_arg@.len() > 0,
            ) is None,
            size_from(size_arg@, 0, 0) == size_from(size_arg@, k as int, size as nat),
        decreases size_arg@.len() - k,
    {
        let d: usize = match digit_of(size_arg[k]) {
            Some(d) => d,
            None => {
                return one_str("wtest: invalid size");
            },
        };
        size = size * 10 + d;
        if size > WTEST_MAX {
            let mut l = chars_of("wtest: size must be <= ");
            push_dec(&mut l, WTEST_MAX as u64);
            return one_line(l);
        }
        k += 1;
    }
    if size == 0 {
        return one_str("wtest: size must be > 0");
    }
    write_pattern(f, arg, size)
}

/// A pattern file that reads back whole is found to be in order.
pub proof fn pattern_verifies(n: nat, i: int)
    requires
        0 <= i <= n,
    ensures
        first_bad(pattern_bytes(n), i) is None,
    decreases n - i,
{
    if i < n {
        pattern_verifies(n, i + 1);
    }
}

proof fn size_of_more(s: Seq<char>, k: int, n: nat, c: char)
    requires
        0 <= k <= s.len(),
        '0' <= c <= '9',
        size_from(s, k, n) is Is,
        n <= WTEST_MAX,
    ensures
        size_from(s.push(c), k, n) == ({
            let m = size_from(s, k, n)->Is_0 * 10 + (c as int - 48);
            if m > WTEST_MAX {
                Size::TooBig
            } else {
                Size::Is(m as nat)
            }
        }),
    decreases s.len() - k,
{
    let t = s.push(c);
    if k < s.len() {
        assert(t[k] == s[k]);
        let m = n * 10 + (s[k] as int - 48);
        size_of_more(s, k + 1, m as nat, c);
    } else {
        assert(t[k] == c);
        let m = n * 10 + (c as int - 48);
        if m <= WTEST_MAX {
            assert(size_from(t, k + 1, m as nat) == Size::Is(m as nat));
        }
    }
}

/// A size that is typed in decimal is the size that is read, up to the largest
/// that there is.
pub proof fn typed_size_is_read(n: nat)
    requires
        n <= WTEST_MAX,
    ensures
        size_from(text::dec(n), 0, 0) == Size::Is(n),
    decreases n,
{
    let s = text::dec(n);
    if n < 10 {
        assert(s[0] == text::digit(n));
        assert(size_from(s, 1, n) == Size::Is(n));
    } else {
        typed_size_is_read(n / 10);
        size_of_more(text::dec(n / 10), 0, 0, text::digit(n % 10));
    }
}

} // verus!
