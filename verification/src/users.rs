//! The user accounts, and the file that keeps them.

use vstd::prelude::*;
use crate::fs;
use crate::fs::laws::{has_room_for, names_fat_dir, sound, volume_stays_sound, written_file_reads_back, Ground};
use crate::fs::{Fs, FsView};
use crate::text;
use crate::text::{chars_of, copy_chars, same_chars};

verus! {

pub const MAX_USERS: usize = 16;

pub const NAME_CAP: usize = 16;

pub const PASS_CAP: usize = 32;

/// The length of the longest account file that is read.
pub const FILE_CAP: usize = 2048;

pub struct User {
    pub name: Vec<char>,
    pub uid: u32,
    pub gid: u32,
    pub pass: Vec<char>,
}

#[verifier::ext_equal]
pub struct UserView {
    pub name: Seq<char>,
    pub uid: u32,
    pub gid: u32,
    pub pass: Seq<char>,
}

impl User {
    pub open spec fn seen(&self) -> UserView {
        UserView { name: self.name@, uid: self.uid, gid: self.gid, pass: self.pass@ }
    }

    fn new() -> (u: User)
        ensures
            u.seen() == no_user(),
    {
        let u = User { name: Vec::new(), uid: 0, gid: 0, pass: Vec::new() };
        assert(u.seen() =~= no_user());
        u
    }
}

impl UserView {
    pub open spec fn wf(self) -> bool {
        self.name.len() <= NAME_CAP && self.pass.len() <= PASS_CAP
    }
}

pub open spec fn no_user() -> UserView {
    UserView { name: Seq::empty(), uid: 0, gid: 0, pass: Seq::empty() }
}

pub open spec fn root_user() -> UserView {
    UserView { name: "root"@, ..no_user() }
}

/// The table of accounts.
pub struct Users {
    /// All the places; those from `count` on are not in use.
    pub slots: Vec<User>,
    pub count: usize,
    pub current: usize,
}

#[verifier::ext_equal]
pub struct UsersView {
    pub slots: Seq<UserView>,
    pub count: int,
    pub current: int,
}

pub open spec fn slots_view(s: Seq<User>) -> Seq<UserView> {
    Seq::new(s.len(), |i: int| s[i].seen())
}

impl UsersView {
    pub open spec fn wf(self) -> bool {
        &&& self.slots.len() == MAX_USERS
        &&& 0 <= self.count <= MAX_USERS
        &&& 0 <= self.current < MAX_USERS
        &&& forall|i: int| 0 <= i < MAX_USERS ==> (#[trigger] self.slots[i]).wf()
    }

    /// The first account with the name, from `i` on.
    pub open spec fn found(self, name: Seq<char>, i: int) -> Option<int>
        decreases self.count - i,
    {
        if i < 0 || i >= self.count {
            None
        } else if self.slots[i].name == name {
            Some(i)
        } else {
            self.found(name, i + 1)
        }
    }

    /// An account has the number.
    pub open spec fn uid_used(self, uid: u32) -> bool {
        exists|i: int| 0 <= i < self.count && (#[trigger] self.slots[i]).uid == uid
    }

    /// The least number from `uid` on that no account has.
    pub open spec fn free_uid(self, uid: u32) -> u32
        decreases u32::MAX - uid,
    {
        if uid < u32::MAX && self.uid_used(uid) {
            self.free_uid((uid + 1) as u32)
        } else {
            uid
        }
    }

    /// The table with one more account; a name that is too long is cut.
    pub open spec fn added(self, name: Seq<char>, uid: u32, gid: u32) -> Result<
        UsersView,
        UserErr,
    > {
        if self.count >= MAX_USERS {
            Err(UserErr::Full)
        } else if self.found(name, 0) is Some {
            Err(UserErr::Exists)
        } else {
            let n = if name.len() > NAME_CAP {
                name.take(NAME_CAP as int)
            } else {
                name
            };
            Ok(
                UsersView {
                    slots: self.slots.update(
                        self.count,
                        UserView { name: n, uid, gid, pass: Seq::empty() },
                    ),
                    count: self.count + 1,
                    ..self
                },
            )
        }
    }
}

/// Why an account could not be made or changed.
#[derive(Clone, Copy, PartialEq, Eq, Debug, Structural)]
pub enum UserErr {
    Full,
    Exists,
    BadName,
    PassTooLong,
}

pub open spec fn err_text(e: UserErr) -> Seq<char> {
    match e {
        UserErr::Full => "user table is full"@,
        UserErr::Exists => "user already exists"@,
        UserErr::BadName => "invalid username (letters, digits, _ - . only)"@,
        UserErr::PassTooLong => "password too long"@,
    }
}

pub fn err_str(e: UserErr) -> (r: &'static str)
    ensures
        r@ == err_text(e),
{
    match e {
        UserErr::Full => "user table is full",
        UserErr::Exists => "user already exists",
        UserErr::BadName => "invalid username (letters, digits, _ - . only)",
        UserErr::PassTooLong => "password too long",
    }
}

impl Users {
    pub open spec fn seen(&self) -> UsersView {
        UsersView {
            slots: slots_view(self.slots@),
            count: self.count as int,
            current: self.current as int,
        }
    }

    pub open spec fn wf(&self) -> bool {
        self.seen().wf()
    }

    /// An empty table.
    pub fn new() -> (u: Users)
        ensures
            u.wf(),
            u.seen() == empty_table(),
    {
        let mut slots: Vec<User> = Vec::new();
        let mut k: usize = 0;
        while k < MAX_USERS
            invariant
                k <= MAX_USERS,
                slots_view(slots@) == Seq::new(k as nat, |i: int| no_user()),
            decreases MAX_USERS - k,
        {
            let ghost before = slots_view(slots@);
            slots.push(User::new());
            k += 1;
            assert(slots_view(slots@) =~= before.push(no_user()));
            assert(slots_view(slots@) =~= Seq::new(k as nat, |i: int| no_user()));
        }
        Users { slots, count: 0, current: 0 }
    }

    fn put(&mut self, at: usize, user: User)
        requires
            old(self).slots@.len() == MAX_USERS,
            at < MAX_USERS,
        ensures
            final(self).seen() == (UsersView {
                slots: old(self).seen().slots.update(at as int, user.seen()),
                ..old(self).seen()
            }),
            final(self).slots@.len() == MAX_USERS,
    {
        let ghost before = self.seen();
        self.slots.set(at, user);
        assert(slots_view(self.slots@) =~= before.slots.update(at as int, user.seen()));
    }
}

pub open spec fn empty_table() -> UsersView {
    UsersView { slots: Seq::new(MAX_USERS as nat, |i: int| no_user()), count: 0, current: 0 }
}

/// Resets the table to a fresh state with only `root`.
pub fn init(u: &mut Users)
    requires
        old(u).wf(),
    ensures
        final(u).wf(),
        final(u).seen() == (UsersView {
            slots: empty_table().slots.update(0, root_user()),
            count: 1,
            current: 0,
        }),
{
    *u = Users::new();
    let root = chars_of("root");
    proof {
        reveal_strlit("root");
    }
    let r = add_user_core(u, &root, 0, 0);
    assert(u.seen() =~= (UsersView {
        slots: empty_table().slots.update(0, root_user()),
        count: 1,
        current: 0,
    }));
}

fn find_from(u: &Users, name: &[char]) -> (r: Option<usize>)
    requires
        u.wf(),
    ensures
        match r {
            Some(i) => u.seen().found(name@, 0) == Some(i as int) && i < u.count,
            None => u.seen().found(name@, 0) is None,
        },
{
    let mut i: usize = 0;
    while i < u.count
        invariant
            u.wf(),
            i <= u.count,
            u.seen().found(name@, 0) == u.seen().found(name@, i as int),
        decreases u.count - i,
    {
        assert(u.seen().slots[i as int] == u.slots@[i as int].seen());
        if same_chars(&u.slots[i].name, name) {
            return Some(i);
        }
        i += 1;
    }
    None
}

fn add_user_core(u: &mut Users, name: &[char], uid: u32, gid: u32) -> (r: Result<usize, UserErr>)
    requires
        old(u).wf(),
    ensures
        final(u).wf(),
        match old(u).seen().added(name@, uid, gid) {
            Ok(v) => r == Ok::<usize, UserErr>(old(u).count) && final(u).seen() == v,
            Err(e) => r == Err::<usize, UserErr>(e) && final(u).seen() == old(u).seen(),
        },
{
    if u.count >= MAX_USERS {
        return Err(UserErr::Full);
    }
    if find_from(u, name).is_some() {
        return Err(UserErr::Exists);
    }
    let n: usize = if name.len() > NAME_CAP {
        NAME_CAP
    } else {
        name.len()
    };
    let kept = copy_chars(&name[0..n]);
    assert(kept@ =~= if name@.len() > NAME_CAP {
        name@.take(NAME_CAP as int)
    } else {
        name@
    });
    let idx: usize = u.count;
    let nu = User { name: kept, uid, gid, pass: Vec::new() };
    assert(nu.pass@ =~= Seq::<char>::empty());
    u.put(idx, nu);
    u.count = idx + 1;
    Ok(idx)
}

pub open spec fn name_char(c: char) -> bool {
    ('a' <= c && c <= 'z') || ('A' <= c && c <= 'Z') || ('0' <= c && c <= '9') || c == '_' || c
        == '-' || c == '.'
}

/// A name that an account can have.
pub open spec fn good_name(name: Seq<char>) -> bool {
    &&& 0 < name.len() <= NAME_CAP
    &&& forall|i: int| 0 <= i < name.len() ==> name_char(#[trigger] name[i])
}

fn valid_name(name: &[char]) -> (r: bool)
    ensures
        r == good_name(name@),
{
    if name.len() == 0 || name.len() > NAME_CAP {
        return false;
    }
    let mut i: usize = 0;
    while i < name.len()
        invariant
            i <= name@.len(),
            forall|k: int| 0 <= k < i ==> name_char(#[trigger] name@[k]),
        decreases name@.len() - i,
    {
        let c: char = name[i];
        let good: bool = ('a' <= c && c <= 'z') || ('A' <= c && c <= 'Z') || ('0' <= c && c
            <= '9') || c == '_' || c == '-' || c == '.';
        if !good {
            assert(!name_char(name@[i as int]));
            return false;
        }
        i += 1;
    }
    true
}

fn uid_in_use(u: &Users, uid: u32) -> (r: bool)
    requires
        u.wf(),
    ensures
        r == u.seen().uid_used(uid),
{
    let mut i: usize = 0;
    while i < u.count
        invariant
            u.wf(),
            i <= u.count,
            forall|k: int| 0 <= k < i ==> (#[trigger] u.seen().slots[k]).uid != uid,
        decreases u.count - i,
    {
        assert(u.seen().slots[i as int] == u.slots@[i as int].seen());
        if u.slots[i].uid == uid {
            return true;
        }
        i += 1;
    }
    false
}

/// The least number from 1000 on that no account has.
fn next_uid(u: &Users) -> (r: u32)
    requires
        u.wf(),
    ensures
        r == u.seen().free_uid(1000),
{
    let mut uid: u32 = 1000;
    while uid < u32::MAX && uid_in_use(u, uid)
        invariant
            u.wf(),
            u.seen().free_uid(1000) == u.seen().free_uid(uid),
        decreases u32::MAX - uid,
    {
        uid += 1;
    }
    uid
}

/// Adding an account by name.
pub open spec fn user_added(u: UsersView, name: Seq<char>) -> Result<UsersView, UserErr> {
    if !good_name(name) {
        Err(UserErr::BadName)
    } else {
        let uid = u.free_uid(1000);
        u.added(name, uid, uid)
    }
}

/// Adds an account and saves the table.
pub fn add_user(u: &mut Users, f: &mut Fs, name: &[char]) -> (r: Result<usize, UserErr>)
    requires
        old(u).wf(),
        old(f).wf(),
    ensures
        final(u).wf(),
        final(f).wf(),
        match user_added(old(u).seen(), name@) {
            Ok(v) => {
                &&& r == Ok::<usize, UserErr>(old(u).count)
                &&& final(u).seen() == v
                &&& final(f)@ == saved(v, old(f)@)
            },
            Err(e) => {
                &&& r == Err::<usize, UserErr>(e)
                &&& final(u).seen() == old(u).seen()
                &&& final(f)@ == old(f)@
            },
        },
{
    if !valid_name(name) {
        return Err(UserErr::BadName);
    }
    let uid: u32 = next_uid(u);
    match add_user_core(u, name, uid, uid) {
        Ok(idx) => {
            save_to_fs(u, f);
            Ok(idx)
        },
        Err(e) => Err(e),
    }
}

pub fn count(u: &Users) -> (n: usize)
    ensures
        n == u.seen().count,
{
    u.count
}

pub fn find(u: &Users, name: &[char]) -> (r: Option<usize>)
    requires
        u.wf(),
    ensures
        match r {
            Some(i) => u.seen().found(name@, 0) == Some(i as int) && i < u.count,
            None => u.seen().found(name@, 0) is None,
        },
{
    find_from(u, name)
}

pub fn current_user(u: &Users) -> (i: usize)
    ensures
        i == u.seen().current,
{
    u.current
}

/// Switches to an account; a number that has none changes nothing.
pub fn set_current(u: &mut Users, i: usize)
    requires
        old(u).wf(),
    ensures
        final(u).wf(),
        final(u).seen() == (if i < old(u).count {
            UsersView { current: i as int, ..old(u).seen() }
        } else {
            old(u).seen()
        }),
{
    if i < u.count {
        u.current = i;
    }
}

pub fn user_name(u: &Users, i: usize) -> (r: Vec<char>)
    requires
        u.wf(),
        i < MAX_USERS,
    ensures
        r@ == u.seen().slots[i as int].name,
{
    copy_chars(&u.slots[i].name)
}

pub fn user_uid(u: &Users, i: usize) -> (r: u32)
    requires
        u.wf(),
        i < MAX_USERS,
    ensures
        r == u.seen().slots[i as int].uid,
{
    u.slots[i].uid
}

pub fn user_gid(u: &Users, i: usize) -> (r: u32)
    requires
        u.wf(),
        i < MAX_USERS,
    ensures
        r == u.seen().slots[i as int].gid,
{
    u.slots[i].gid
}

pub fn has_password(u: &Users, i: usize) -> (r: bool)
    requires
        u.wf(),
        i < MAX_USERS,
    ensures
        r == (u.seen().slots[i as int].pass.len() > 0),
{
    u.slots[i].pass.len() > 0
}

/// The password opens the account: an account without one is open.
pub open spec fn opens(v: UserView, pass: Seq<char>) -> bool {
    v.pass.len() == 0 || v.pass == pass
}

pub fn check_password(u: &Users, i: usize, pass: &[char]) -> (r: bool)
    requires
        u.wf(),
        i < MAX_USERS,
    ensures
        r == opens(u.seen().slots[i as int], pass@),
{
    if u.slots[i].pass.len() == 0 {
        return true;
    }
    same_chars(&u.slots[i].pass, pass)
}

/// The table with another password for an account.
pub open spec fn with_password(u: UsersView, i: int, pass: Seq<char>) -> UsersView {
    UsersView { slots: u.slots.update(i, UserView { pass, ..u.slots[i] }), ..u }
}

/// Sets a password and saves the table.
pub fn set_password(u: &mut Users, f: &mut Fs, i: usize, pass: &[char]) -> (r: Result<
    (),
    UserErr,
>)
    requires
        old(u).wf(),
        old(f).wf(),
        i < MAX_USERS,
    ensures
        final(u).wf(),
        final(f).wf(),
        if pass@.len() > PASS_CAP {
            &&& r == Err::<(), UserErr>(UserErr::PassTooLong)
            &&& final(u).seen() == old(u).seen()
            &&& final(f)@ == old(f)@
        } else {
            &&& r == Ok::<(), UserErr>(())
            &&& final(u).seen() == with_password(old(u).seen(), i as int, pass@)
            &&& final(f)@ == saved(with_password(old(u).seen(), i as int, pass@), old(f)@)
        },
{
    if pass.len() > PASS_CAP {
        return Err(UserErr::PassTooLong);
    }
    assert(u.seen().slots[i as int] == u.slots@[i as int].seen());
    let nu = User {
        name: copy_chars(&u.slots[i].name),
        uid: u.slots[i].uid,
        gid: u.slots[i].gid,
        pass: copy_chars(pass),
    };
    u.put(i, nu);
    save_to_fs(u, f);
    Ok(())
}

// ---------- the account file ----------

pub open spec fn passwd_path() -> Seq<char> {
    "/etc/passwd"@
}

/// The low bytes of characters.
pub open spec fn low_bytes(s: Seq<char>) -> Seq<u8> {
    Seq::new(s.len(), |i: int| (s[i] as int % 256) as u8)
}

/// The line of an account.
#[verifier::opaque]
pub open spec fn user_line(v: UserView) -> Seq<u8> {
    low_bytes(v.name) + seq![58u8] + low_bytes(text::dec(v.uid as nat)) + seq![58u8] + low_bytes(
        text::dec(v.gid as nat),
    ) + seq![58u8] + low_bytes(v.pass) + seq![10u8]
}

/// The lines of the first `n` accounts.
pub open spec fn user_lines(s: Seq<UserView>, n: int) -> Seq<u8>
    decreases n,
{
    if n <= 0 {
        Seq::empty()
    } else {
        user_lines(s, n - 1) + user_line(s[n - 1])
    }
}

/// The file system after the table was saved. Nothing is saved without a
/// mounted file system or without accounts.
pub open spec fn saved(u: UsersView, f: FsView) -> FsView {
    if f.mount is None || user_lines(u.slots, u.count).len() == 0 {
        f
    } else {
        fs::model::write_file(f, passwd_path(), user_lines(u.slots, u.count)).0
    }
}

fn low_byte(c: char) -> (b: u8)
    ensures
        b == (c as int % 256) as u8,
{
    (c as u32 % 256) as u8
}

fn push_low(out: &mut Vec<u8>, s: &[char])
    ensures
        final(out)@ == old(out)@ + low_bytes(s@),
{
    let mut k: usize = 0;
    assert(out@ =~= old(out)@ + low_bytes(s@).take(0));
    while k < s.len()
        invariant
            k <= s@.len(),
            out@ == old(out)@ + low_bytes(s@).take(k as int),
        decreases s@.len() - k,
    {
        out.push(low_byte(s[k]));
        k += 1;
        assert(out@ =~= old(out)@ + low_bytes(s@).take(k as int));
    }
    assert(low_bytes(s@).take(k as int) =~= low_bytes(s@));
}

fn push_user(out: &mut Vec<u8>, u: &User)
    ensures
        final(out)@ == old(out)@ + user_line(u.seen()),
{
    reveal(user_line);
    push_low(out, &u.name);
    out.push(58);
    push_low(out, &text::dec_of(u.uid as u64));
    out.push(58);
    push_low(out, &text::dec_of(u.gid as u64));
    out.push(58);
    push_low(out, &u.pass);
    out.push(10);
    assert(out@ =~= old(out)@ + user_line(u.seen()));
}

/// Saves the table to the account file.
pub fn save_to_fs(u: &Users, f: &mut Fs)
    requires
        u.wf(),
        old(f).wf(),
    ensures
        final(f).wf(),
        final(f)@ == saved(u.seen(), old(f)@),
{
    if !fs::mounted(f) {
        return;
    }
    let mut out: Vec<u8> = Vec::new();
    let mut i: usize = 0;
    while i < u.count
        invariant
            u.wf(),
            i <= u.count,
            out@ == user_lines(u.seen().slots, i as int),
        decreases u.count - i,
    {
        assert(u.seen().slots[i as int] == u.slots@[i as int].seen());
        push_user(&mut out, &u.slots[i]);
        i += 1;
    }
    if out.len() > 0 {
        let path = chars_of("/etc/passwd");
        let _ = fs::write_file(f, &path, &out);
    }
}

/// A decimal number that fits 32 bits.
pub open spec fn number(s: Seq<u8>) -> Option<u32>
    decreases s.len(),
{
    if s.len() == 0 {
        None
    } else {
        let d = s.last() as int - 48;
        let head = if s.len() == 1 {
            Some(0u32)
        } else {
            number(s.drop_last())
        };
        match head {
            Some(v) if 0 <= d <= 9 && v * 10 + d <= u32::MAX => Some((v * 10 + d) as u32),
            _ => None,
        }
    }
}

fn parse_u32(s: &[u8]) -> (r: Option<u32>)
    ensures
        r == number(s@),
{
    if s.len() == 0 {
        return None;
    }
    let mut v: u32 = 0;
    let mut k: usize = 0;
    while k < s.len()
        invariant
            k <= s@.len(),
            s@.len() > 0,
            k > 0 ==> number(s@.take(k as int)) == Some(v),
            k == 0 ==> v == 0,
        decreases s@.len() - k,
    {
        let b: u8 = s[k];
        assert(s@.take(k + 1).drop_last() =~= s@.take(k as int));
        assert(s@.take(k + 1).last() == b);
        let next: u64 = v as u64 * 10 + if b >= 48 {
            b as u64 - 48
        } else {
            0
        };
        if b < 48 || b > 57 || next > 0xFFFF_FFFF {
            proof {
                assert(number(s@.take(k + 1)) is None);
                no_number_continues(s@, k + 1);
            }
            return None;
        }
        v = next as u32;
        k += 1;
    }
    assert(s@.take(k as int) =~= s@);
    Some(v)
}

/// What no number starts, is none.
proof fn no_number_continues(s: Seq<u8>, k: int)
    requires
        0 < k <= s.len(),
        number(s.take(k)) is None,
    ensures
        number(s) is None,
    decreases s.len() - k,
{
    if k == s.len() {
        assert(s.take(k) =~= s);
    } else {
        assert(s.take(k + 1).drop_last() =~= s.take(k));
        no_number_continues(s, k + 1);
    }
}

/// The end of the field or line that starts at `i`: the next `stop`, or the
/// end.
pub open spec fn end_of(b: Seq<u8>, i: int, stop: u8) -> int
    decreases b.len() - i,
{
    if i < 0 || i >= b.len() || b[i] == stop {
        i
    } else {
        end_of(b, i + 1, stop)
    }
}

/// An end lies between its start and the end of the bytes.
pub proof fn end_bounds(b: Seq<u8>, i: int, stop: u8)
    requires
        0 <= i <= b.len(),
    ensures
        i <= end_of(b, i, stop) <= b.len(),
    decreases b.len() - i,
{
    if i < b.len() && b[i] != stop {
        end_bounds(b, i + 1, stop);
    }
}

fn find_end(b: &[u8], i: usize, stop: u8) -> (e: usize)
    requires
        i <= b@.len(),
    ensures
        e == end_of(b@, i as int, stop),
        i <= e <= b@.len(),
{
    let mut k: usize = i;
    while k < b.len() && b[k] != stop
        invariant
            i <= k <= b@.len(),
            end_of(b@, i as int, stop) == end_of(b@, k as int, stop),
        decreases b@.len() - k,
    {
        k += 1;
    }
    k
}

/// The text of a field: at most `cap` characters, none of them zero.
pub open spec fn field_text(s: Seq<u8>, cap: int) -> Option<Seq<char>> {
    if s.len() > cap || s.contains(0u8) {
        None
    } else {
        Some(Seq::new(s.len(), |i: int| s[i] as char))
    }
}

fn bytes_to_chars(s: &[u8], cap: usize) -> (r: Option<Vec<char>>)
    ensures
        match r {
            Some(v) => field_text(s@, cap as int) == Some(v@),
            None => field_text(s@, cap as int) is None,
        },
{
    if s.len() > cap {
        return None;
    }
    let mut out: Vec<char> = Vec::new();
    let mut k: usize = 0;
    while k < s.len()
        invariant
            k <= s@.len(),
            out@ == Seq::new(k as nat, |i: int| s@[i] as char),
            forall|j: int| 0 <= j < k ==> #[trigger] s@[j] != 0,
        decreases s@.len() - k,
    {
        if s[k] == 0 {
            assert(s@.contains(0u8));
            return None;
        }
        out.push(s[k] as char);
        k += 1;
        assert(out@ =~= Seq::new(k as nat, |i: int| s@[i] as char));
    }
    assert(!s@.contains(0u8)) by {
        if s@.contains(0u8) {
            let j = choose|j: int| 0 <= j < s@.len() && s@[j] == 0u8;
            assert(s@[j] != 0);
        }
    }
    assert(out@ =~= Seq::new(s@.len(), |i: int| s@[i] as char));
    Some(out)
}

/// The account that a line describes: name, numbers and password, separated
/// by colons. Fields beyond those four are not read. A number that cannot be
/// read is 0, or for the group that of the user.
#[verifier::opaque]
pub open spec fn line_user(l: Seq<u8>) -> Option<UserView> {
    let a = end_of(l, 0, 58);
    let b = end_of(l, a + 1, 58);
    let c = end_of(l, b + 1, 58);
    let d = end_of(l, c + 1, 58);
    if a >= l.len() || b >= l.len() || c >= l.len() {
        None
    } else {
        let uid = match number(l.subrange(a + 1, b)) {
            Some(v) => v,
            None => 0,
        };
        let gid = match number(l.subrange(b + 1, c)) {
            Some(v) => v,
            None => uid,
        };
        match (
            field_text(l.subrange(0, a), NAME_CAP as int),
            field_text(l.subrange(c + 1, d), PASS_CAP as int),
        ) {
            (Some(name), Some(pass)) => Some(UserView { name, uid, gid, pass }),
            _ => None,
        }
    }
}

fn parse_line(l: &[u8]) -> (r: Option<User>)
    ensures
        match r {
            Some(u) => line_user(l@) == Some(u.seen()) && u.seen().wf(),
            None => line_user(l@) is None,
        },
{
    reveal(line_user);
    let n: usize = l.len();
    let a: usize = find_end(l, 0, 58);
    if a >= n {
        return None;
    }
    let b: usize = find_end(l, a + 1, 58);
    if b >= n {
        return None;
    }
    let c: usize = find_end(l, b + 1, 58);
    if c >= n {
        return None;
    }
    let d: usize = find_end(l, c + 1, 58);
    let uid: u32 = match parse_u32(&l[a + 1..b]) {
        Some(v) => v,
        None => 0,
    };
    let gid: u32 = match parse_u32(&l[b + 1..c]) {
        Some(v) => v,
        None => uid,
    };
    match (bytes_to_chars(&l[0..a], NAME_CAP), bytes_to_chars(&l[c + 1..d], PASS_CAP)) {
        (Some(name), Some(pass)) => {
            let u = User { name, uid, gid, pass };
            assert(line_user(l@) =~= Some(u.seen()));
            Some(u)
        },
        _ => None,
    }
}

/// The accounts that the lines from `i` on describe, after those that are
/// known; no more than the table holds.
pub open spec fn file_users(b: Seq<u8>, i: int, known: Seq<UserView>) -> Seq<UserView>
    decreases b.len() + 1 - i,
{
    if i < 0 || i >= b.len() {
        known
    } else {
        proof {
            end_bounds(b, i, 10);
        }
        let e = end_of(b, i, 10);
        let more = match line_user(b.subrange(i, e)) {
            Some(v) if known.len() < MAX_USERS => known.push(v),
            _ => known,
        };
        file_users(b, e + 1, more)
    }
}

pub open spec fn has_root(s: Seq<UserView>) -> bool {
    exists|i: int| 0 <= i < s.len() && (#[trigger] s[i]).name == "root"@
}

/// The table rebuilt from accounts: `root` is added where it is missing and
/// there is a place.
pub open spec fn rebuilt(u: UsersView, found: Seq<UserView>) -> UsersView {
    let all = if !has_root(found) && found.len() < MAX_USERS {
        found.push(root_user())
    } else {
        found
    };
    UsersView {
        slots: Seq::new(
            MAX_USERS as nat,
            |i: int|
                if i < all.len() {
                    all[i]
                } else {
                    u.slots[i]
                },
        ),
        count: all.len() as int,
        ..u
    }
}

/// The table and the file system after the accounts were loaded: nothing
/// happens where the file cannot be read or is empty.
pub open spec fn loaded(u: UsersView, f: FsView) -> (UsersView, FsView) {
    let (data, err) = fs::model::read_file(f, passwd_path(), FILE_CAP as int);
    if f.mount is None || err is Some || data.len() == 0 {
        (u, f)
    } else {
        let v = rebuilt(u, file_users(data, 0, Seq::empty()));
        (v, saved(v, f))
    }
}

fn parse_file(b: &[u8]) -> (out: Vec<User>)
    ensures
        slots_view(out@) == file_users(b@, 0, Seq::empty()),
        out@.len() <= MAX_USERS,
        forall|i: int| 0 <= i < out@.len() ==> (#[trigger] out@[i]).seen().wf(),
{
    let mut out: Vec<User> = Vec::new();
    let mut i: usize = 0;
    let n: usize = b.len();
    assert(slots_view(out@) =~= Seq::<UserView>::empty());
    while i < n
        invariant
            out@.len() <= MAX_USERS,
            forall|k: int| 0 <= k < out@.len() ==> (#[trigger] out@[k]).seen().wf(),
            i <= n,
            n == b@.len(),
            file_users(b@, 0, Seq::empty()) == file_users(b@, i as int, slots_view(out@)),
        decreases n - i,
    {
        let e: usize = find_end(b, i, 10);
        let ghost known = slots_view(out@);
        if let Some(u) = parse_line(&b[i..e]) {
            if out.len() < MAX_USERS {
                let ghost v = u.seen();
                out.push(u);
                assert(slots_view(out@) =~= known.push(v));
            }
        }
        if e >= n {
            assert(file_users(b@, e + 1, slots_view(out@)) == slots_view(out@));
            return out;
        }
        i = e + 1;
    }
    out
}

fn find_root(v: &Vec<User>) -> (r: bool)
    ensures
        r == has_root(slots_view(v@)),
{
    let root = chars_of("root");
    let mut i: usize = 0;
    while i < v.len()
        invariant
            i <= v@.len(),
            root@ == "root"@,
            forall|k: int| 0 <= k < i ==> (#[trigger] slots_view(v@)[k]).name != "root"@,
        decreases v@.len() - i,
    {
        if same_chars(&v[i].name, &root) {
            assert(slots_view(v@)[i as int].name == "root"@);
            return true;
        }
        i += 1;
    }
    false
}

/// Loads the table from the account file, and saves it again.
pub fn load_from_fs(u: &mut Users, f: &mut Fs)
    requires
        old(u).wf(),
        old(f).wf(),
    ensures
        final(u).wf(),
        final(f).wf(),
        (final(u).seen(), final(f)@) == loaded(old(u).seen(), old(f)@),
{
    if !fs::mounted(f) {
        return;
    }
    let mut buf = crate::bytes::zeros(FILE_CAP);
    let path = chars_of("/etc/passwd");
    let ghost data = fs::model::read_file(f@, path@, FILE_CAP as int).0;
    let n: usize = match fs::read_file(f, &path, &mut buf) {
        Ok(n) => n,
        Err(_) => {
            return;
        },
    };
    if n == 0 {
        return;
    }
    assert(buf@.subrange(0, n as int) =~= data);
    let mut found = parse_file(&buf[0..n]);
    let ghost parsed = slots_view(found@);
    if !find_root(&found) && found.len() < MAX_USERS {
        proof {
            reveal_strlit("root");
        }
        let root = User { name: chars_of("root"), uid: 0, gid: 0, pass: Vec::new() };
        assert(root.pass@ =~= Seq::<char>::empty());
        found.push(root);
        assert(slots_view(found@) =~= parsed.push(root_user()));
    }
    let ghost all = slots_view(found@);
    let ghost u0 = u.seen();
    let total: usize = found.len();
    let mut k: usize = 0;
    while k < total
        invariant
            k <= total <= MAX_USERS,
            total == found@.len(),
            u.slots@.len() == MAX_USERS,
            slots_view(found@) == all,
            forall|i: int| 0 <= i < all.len() ==> (#[trigger] all[i]).wf(),
            u0.wf(),
            u.seen() == (UsersView {
                slots: Seq::new(
                    MAX_USERS as nat,
                    |i: int|
                        if i < k {
                            all[i]
                        } else {
                            u0.slots[i]
                        },
                ),
                ..u0
            }),
        decreases total - k,
    {
        let v = User {
            name: copy_chars(&found[k].name),
            uid: found[k].uid,
            gid: found[k].gid,
            pass: copy_chars(&found[k].pass),
        };
        assert(all[k as int] == found@[k as int].seen());
        u.put(k, v);
        k += 1;
        assert(u.seen().slots =~= Seq::new(
            MAX_USERS as nat,
            |i: int|
                if i < k {
                    all[i]
                } else {
                    u0.slots[i]
                },
        ));
    }
    u.count = total;
    assert(u.seen() =~= rebuilt(u0, parsed));
    save_to_fs(u, f);
}

// ---------- laws ----------

/// A character that the account file keeps: one byte, and none that ends a
/// field or a line.
pub open spec fn kept_char(c: char) -> bool {
    0 < (c as int) < 256 && c != ':' && c != '\n'
}

/// An account that the file keeps.
pub open spec fn kept_user(v: UserView) -> bool {
    &&& v.wf()
    &&& forall|i: int| 0 <= i < v.name.len() ==> kept_char(#[trigger] v.name[i])
    &&& forall|i: int| 0 <= i < v.pass.len() ==> kept_char(#[trigger] v.pass[i])
}

proof fn end_is(b: Seq<u8>, i: int, stop: u8, e: int)
    requires
        0 <= i <= e <= b.len(),
        forall|k: int| i <= k < e ==> #[trigger] b[k] != stop,
        e < b.len() ==> b[e] == stop,
    ensures
        end_of(b, i, stop) == e,
    decreases e - i,
{
    if i < e {
        assert(b[i] != stop);
        end_is(b, i + 1, stop, e);
    }
}

proof fn digits_are_digits(n: nat)
    ensures
        text::dec(n).len() > 0,
        forall|i: int|
            0 <= i < text::dec(n).len() ==> 48 <= (#[trigger] text::dec(n)[i]) as int <= 57,
    decreases n,
{
    if n >= 10 {
        digits_are_digits(n / 10);
    }
}

/// A number reads back from its decimal digits.
pub proof fn number_reads_back(n: u32)
    ensures
        number(low_bytes(text::dec(n as nat))) == Some(n),
    decreases n,
{
    let s = low_bytes(text::dec(n as nat));
    digits_are_digits(n as nat);
    if n >= 10 {
        let m = (n / 10) as u32;
        number_reads_back(m);
        digits_are_digits(m as nat);
        assert(s.drop_last() =~= low_bytes(text::dec(m as nat)));
        assert(text::dec(n as nat).last() == text::digit(n as nat % 10));
    } else {
        assert(text::dec(n as nat)[0] == text::digit(n as nat));
    }
}

proof fn field_reads_back(t: Seq<char>, cap: int)
    requires
        t.len() <= cap,
        forall|i: int| 0 <= i < t.len() ==> kept_char(#[trigger] t[i]),
    ensures
        field_text(low_bytes(t), cap) == Some(t),
{
    let b = low_bytes(t);
    assert(!b.contains(0u8)) by {
        if b.contains(0u8) {
            let j = choose|j: int| 0 <= j < b.len() && b[j] == 0u8;
            assert(kept_char(t[j]));
        }
    }
    assert(Seq::new(b.len(), |i: int| b[i] as char) =~= t) by {
        assert forall|i: int| 0 <= i < t.len() implies #[trigger] b[i] as char == t[i] by {
            assert(kept_char(t[i]));
        }
    }
}

/// An account reads back from its line.
pub proof fn user_reads_back(v: UserView)
    requires
        kept_user(v),
    ensures
        line_user(user_line(v).drop_last()) == Some(v),
        forall|k: int| 0 <= k < user_line(v).len() - 1 ==> #[trigger] user_line(v)[k] != 10,
        user_line(v).last() == 10,
        user_line(v).len() > 0,
{
    reveal(user_line);
    reveal(line_user);
    let n = low_bytes(v.name);
    let u = low_bytes(text::dec(v.uid as nat));
    let g = low_bytes(text::dec(v.gid as nat));
    let p = low_bytes(v.pass);
    let l = user_line(v).drop_last();
    digits_are_digits(v.uid as nat);
    digits_are_digits(v.gid as nat);
    let a = n.len() as int;
    let b = a + 1 + u.len();
    let c = b + 1 + g.len();
    let d = c + 1 + p.len();
    assert(l.len() == d);
    assert forall|k: int| 0 <= k < n.len() implies n[k] != 58 && n[k] != 10 by {
        assert(kept_char(v.name[k]));
    }
    assert forall|k: int| 0 <= k < p.len() implies p[k] != 58 && p[k] != 10 by {
        assert(kept_char(v.pass[k]));
    }
    assert forall|k: int| 0 <= k < u.len() implies u[k] != 58 && u[k] != 10 by {
        assert(48 <= text::dec(v.uid as nat)[k] as int <= 57);
    }
    assert forall|k: int| 0 <= k < g.len() implies g[k] != 58 && g[k] != 10 by {
        assert(48 <= text::dec(v.gid as nat)[k] as int <= 57);
    }
    assert(forall|k: int| 0 <= k < a ==> l[k] == n[k]);
    assert(l[a] == 58);
    assert(forall|k: int| a + 1 <= k < b ==> l[k] == u[k - a - 1]);
    assert(l[b] == 58);
    assert(forall|k: int| b + 1 <= k < c ==> l[k] == g[k - b - 1]);
    assert(l[c] == 58);
    assert(forall|k: int| c + 1 <= k < d ==> l[k] == p[k - c - 1]);
    end_is(l, 0, 58, a);
    end_is(l, a + 1, 58, b);
    end_is(l, b + 1, 58, c);
    end_is(l, c + 1, 58, d);
    assert(l.subrange(0, a) =~= n);
    assert(l.subrange(a + 1, b) =~= u);
    assert(l.subrange(b + 1, c) =~= g);
    assert(l.subrange(c + 1, d) =~= p);
    number_reads_back(v.uid);
    number_reads_back(v.gid);
    field_reads_back(v.name, NAME_CAP as int);
    field_reads_back(v.pass, PASS_CAP as int);
    assert forall|k: int| 0 <= k < user_line(v).len() - 1 implies #[trigger] user_line(v)[k]
        != 10 by {
        assert(user_line(v)[k] == l[k]);
    }
}

proof fn lines_length(s: Seq<UserView>, m: int, n: int)
    requires
        0 <= m <= n,
    ensures
        user_lines(s, m).len() <= user_lines(s, n).len(),
        user_lines(s, n).take(user_lines(s, m).len() as int) == user_lines(s, m),
    decreases n - m,
{
    if m < n {
        lines_length(s, m, n - 1);
        assert(user_lines(s, n).take(user_lines(s, m).len() as int) =~= user_lines(
            s,
            n - 1,
        ).take(user_lines(s, m).len() as int));
    } else {
        assert(user_lines(s, n).take(user_lines(s, n).len() as int) =~= user_lines(s, n));
    }
}

proof fn line_stands(s: Seq<UserView>, n: int, m: int)
    requires
        0 <= m < n,
    ensures
        ({
            let b = user_lines(s, n);
            let i = user_lines(s, m).len() as int;
            let line = user_line(s[m]);
            &&& user_lines(s, m + 1).len() == i + line.len()
            &&& i + line.len() <= b.len()
            &&& b.subrange(i, i + line.len()) == line
        }),
{
    let b = user_lines(s, n);
    let i = user_lines(s, m).len() as int;
    let line = user_line(s[m]);
    lines_length(s, m + 1, n);
    assert(user_lines(s, m + 1) == user_lines(s, m) + line);
    let t = b.take(user_lines(s, m + 1).len() as int);
    assert(t.subrange(i, i + line.len()) =~= line);
    assert(b.subrange(i, i + line.len()) =~= t.subrange(i, i + line.len()));
}

proof fn file_reads_back_from(s: Seq<UserView>, n: int, m: int)
    requires
        0 <= m <= n <= s.len(),
        n <= MAX_USERS,
        forall|i: int| 0 <= i < n ==> kept_user(#[trigger] s[i]),
    ensures
        file_users(user_lines(s, n), user_lines(s, m).len() as int, s.take(m)) == s.take(n),
    decreases n - m,
{
    let b = user_lines(s, n);
    let i = user_lines(s, m).len() as int;
    if m < n {
        let v = s[m];
        let line = user_line(v);
        assert(kept_user(v));
        user_reads_back(v);
        line_stands(s, n, m);
        let e = i + line.len() - 1;
        assert forall|k: int| i <= k < e implies #[trigger] b[k] != 10 by {
            assert(b.subrange(i, i + line.len())[k - i] == line[k - i]);
        }
        assert(b[e] == b.subrange(i, i + line.len())[line.len() - 1]);
        end_is(b, i, 10, e);
        assert(b.subrange(i, e) =~= line.drop_last());
        assert(s.take(m).push(v) =~= s.take(m + 1));
        assert(file_users(b, i, s.take(m)) == file_users(b, e + 1, s.take(m + 1)));
        file_reads_back_from(s, n, m + 1);
    }
}

/// The accounts read back from the file: what was saved is what a load finds,
/// account for account, for accounts whose name and password the file keeps.
pub proof fn accounts_read_back(u: UsersView)
    requires
        u.wf(),
        forall|i: int| 0 <= i < u.count ==> kept_user(#[trigger] u.slots[i]),
    ensures
        file_users(user_lines(u.slots, u.count), 0, Seq::empty()) == u.slots.take(u.count),
{
    assert(u.slots.take(0) =~= Seq::<UserView>::empty());
    file_reads_back_from(u.slots, u.count, 0);
}

/// Rebuilding the table from its own accounts leaves it as it was, where
/// `root` is among them.
pub proof fn rebuilding_keeps_the_table(u: UsersView)
    requires
        u.wf(),
        has_root(u.slots.take(u.count)),
    ensures
        rebuilt(u, u.slots.take(u.count)) == u,
{
    assert(rebuilt(u, u.slots.take(u.count)).slots =~= u.slots);
}

/// The account file never exceeds the length that a load reads.
pub proof fn file_fits(u: UsersView)
    requires
        u.wf(),
    ensures
        user_lines(u.slots, u.count).len() <= FILE_CAP,
{
    lines_bound(u, u.count);
}

proof fn decimal_length(n: nat)
    requires
        n <= u32::MAX,
    ensures
        text::dec(n).len() <= 10,
{
    reveal_with_fuel(text::dec, 11);
}

proof fn lines_bound(u: UsersView, n: int)
    requires
        u.wf(),
        0 <= n <= u.count,
    ensures
        user_lines(u.slots, n).len() <= 72 * n,
    decreases n,
{
    reveal(user_line);
    if n > 0 {
        lines_bound(u, n - 1);
        let v = u.slots[n - 1];
        decimal_length(v.uid as nat);
        decimal_length(v.gid as nat);
        assert(v.wf());
    }
}

/// Accounts that were saved on a sound volume come back with the next load:
/// the same accounts in the same order, whatever the table held meanwhile, for
/// a table with `root` whose names and passwords the file keeps.
pub proof fn saved_accounts_are_loaded(u: UsersView, v: UsersView, f: FsView, g: Ground)
    requires
        u.wf(),
        v.wf(),
        has_root(u.slots.take(u.count)),
        forall|i: int| 0 <= i < u.count ==> kept_user(#[trigger] u.slots[i]),
        sound(f, g),
        !names_fat_dir(f, passwd_path()),
        has_room_for(f, g, user_lines(u.slots, u.count)),
        fs::model::write_file(f, passwd_path(), user_lines(u.slots, u.count)).1 is Ok,
    ensures
        loaded(v, saved(u, f)).0.count == u.count,
        loaded(v, saved(u, f)).0.slots.take(u.count) == u.slots.take(u.count),
{
    let data = user_lines(u.slots, u.count);
    let k = choose|k: int|
        0 <= k < u.slots.take(u.count).len() && (#[trigger] u.slots.take(u.count)[k]).name == "root"@;
    assert(u.count > 0);
    assert(data.len() > 0) by {
        reveal(user_line);
    }
    file_fits(u);
    written_file_reads_back(f, g, passwd_path(), data, FILE_CAP as int);
    let h = volume_stays_sound(f, g, passwd_path(), data);
    accounts_read_back(u);
    assert(loaded(v, saved(u, f)).0.slots.take(u.count) =~= u.slots.take(u.count));
}

/// A new account gets a number that no account has, unless none is left.
pub proof fn new_uid_is_free(u: UsersView, uid: u32)
    ensures
        u.free_uid(uid) >= uid,
        u.free_uid(uid) < u32::MAX ==> !u.uid_used(u.free_uid(uid)),
    decreases u32::MAX - uid,
{
    if uid < u32::MAX && u.uid_used(uid) {
        new_uid_is_free(u, (uid + 1) as u32);
    }
}

/// An account that was added is found under its name, and the others stay
/// where they were.
pub proof fn added_user_is_found(u: UsersView, name: Seq<char>, uid: u32, gid: u32)
    requires
        u.wf(),
        name.len() <= NAME_CAP,
        u.added(name, uid, gid) is Ok,
    ensures
        u.added(name, uid, gid)->Ok_0.found(name, 0) == Some(u.count),
        u.added(name, uid, gid)->Ok_0.slots.take(u.count) == u.slots.take(u.count),
{
    let v = u.added(name, uid, gid)->Ok_0;
    assert(v.slots.take(u.count) =~= u.slots.take(u.count));
    found_at_end(u, v, name, 0);
}

proof fn found_at_end(u: UsersView, v: UsersView, name: Seq<char>, i: int)
    requires
        0 <= i <= u.count,
        v.count == u.count + 1,
        u.count < v.slots.len(),
        v.slots[u.count].name == name,
        forall|k: int| 0 <= k < u.count ==> #[trigger] v.slots[k] == u.slots[k],
        u.found(name, i) is None,
    ensures
        v.found(name, i) == Some(u.count),
    decreases u.count - i,
{
    if i < u.count {
        assert(v.slots[i] == u.slots[i]);
        found_at_end(u, v, name, i + 1);
    }
}

/// Loading never loses the superuser: where the file has no account `root`, it is
/// added, as long as there is a place.
pub proof fn loading_keeps_root(u: UsersView, found: Seq<UserView>)
    requires
        found.len() < 16,
    ensures
        exists|i: int|
            0 <= i < rebuilt(u, found).count && (#[trigger] rebuilt(u, found).slots[i]).name
                == "root"@,
        forall|i: int|
            0 <= i < found.len() ==> #[trigger] rebuilt(u, found).slots[i] == found[i],
        rebuilt(u, found).count == found.len() || rebuilt(u, found).count == found.len() + 1,
        rebuilt(u, found).current == u.current,
{
    let v = rebuilt(u, found);
    if has_root(found) {
        let i = choose|i: int| 0 <= i < found.len() && (#[trigger] found[i]).name == "root"@;
        assert(v.slots[i] == found[i]);
    } else {
        assert(v.slots[found.len() as int] == root_user());
    }
}

} // verus!
