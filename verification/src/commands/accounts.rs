//! Commands on user accounts.

use vstd::prelude::*;
use crate::fs::{Fs, FsView};
use crate::text;
use crate::text::{chars_of, push_all, push_dec, push_left, push_str, same_chars};
use crate::tty::{line, nothing, one_line, one_str, outs, put, put_line, Out, OutView};
use crate::users;
use crate::users::{UserErr, UserView, Users, UsersView};

verus! {

/// What a command waits for: a line that is typed without being shown.
pub enum Prompt {
    NewPassword(usize),
    /// The account, and the line typed first with its length.
    RepeatPassword(usize, Vec<char>, usize),
    LoginPassword(usize),
}

pub enum PromptView {
    NewPassword(int),
    RepeatPassword(int, Seq<char>, int),
    LoginPassword(int),
}

impl Prompt {
    pub open spec fn seen(&self) -> PromptView {
        match self {
            Prompt::NewPassword(i) => PromptView::NewPassword(*i as int),
            Prompt::RepeatPassword(i, l, n) => PromptView::RepeatPassword(
                *i as int,
                l@,
                *n as int,
            ),
            Prompt::LoginPassword(i) => PromptView::LoginPassword(*i as int),
        }
    }

    pub open spec fn wf(&self) -> bool {
        match self {
            Prompt::NewPassword(i) => *i < users::MAX_USERS,
            Prompt::RepeatPassword(i, l, n) => *i < users::MAX_USERS && *n <= l@.len(),
            Prompt::LoginPassword(i) => *i < users::MAX_USERS,
        }
    }
}

pub open spec fn prompt_view(p: Option<Prompt>) -> Option<PromptView> {
    match p {
        Some(p) => Some(p.seen()),
        None => None,
    }
}

pub open spec fn prompt_wf(p: Option<Prompt>) -> bool {
    p matches Some(q) ==> q.wf()
}

pub open spec fn user_list(u: UsersView) -> Seq<OutView> {
    seq![line("User accounts ("@ + text::dec(u.count as nat) + "):"@)] + Seq::new(
        u.count as nat,
        |i: int| line(user_text(u.slots[i])),
    )
}

pub open spec fn user_text(v: UserView) -> Seq<char> {
    "  "@ + v.name + " uid="@ + text::left(text::dec(v.uid as nat), 5) + " gid="@ + text::dec(
        v.gid as nat,
    )
}

pub(crate) fn cmd_users(u: &Users) -> (v: Vec<Out>)
    requires
        u.wf(),
    ensures
        outs(v@) == user_list(u.seen()),
{
    let mut head = chars_of("User accounts (");
    push_dec(&mut head, users::count(u) as u64);
    push_str(&mut head, "):");
    let mut v = nothing();
    put_line(&mut v, head);
    let mut i: usize = 0;
    let ghost all = user_list(u.seen());
    assert(outs(v@) =~= all.take(1));
    while i < u.count
        invariant
            u.wf(),
            i <= u.count,
            all == user_list(u.seen()),
            outs(v@) == all.take(i + 1),
        decreases u.count - i,
    {
        let mut l = chars_of("  ");
        push_all(&mut l, &users::user_name(u, i));
        push_str(&mut l, " uid=");
        push_left(&mut l, &text::dec_of(users::user_uid(u, i) as u64), 5);
        push_str(&mut l, " gid=");
        push_dec(&mut l, users::user_gid(u, i) as u64);
        put_line(&mut v, l);
        i += 1;
        assert(outs(v@) =~= all.take(i + 1));
    }
    assert(all.take(i + 1) =~= all);
    v
}

/// Adding an account: the table, the file system, and what is shown.
pub open spec fn adduser(u: UsersView, f: FsView, arg: Seq<char>) -> (
    UsersView,
    FsView,
    Seq<OutView>,
) {
    if arg.len() == 0 {
        (u, f, seq![line("Usage: adduser <name>"@)])
    } else {
        match users::user_added(u, arg) {
            Ok(v) => (
                v,
                users::saved(v, f),
                seq![
                    line(
                        "user '"@ + v.slots[u.count].name + "' added with uid "@ + text::dec(
                            v.slots[u.count].uid as nat,
                        ),
                    ),
                ],
            ),
            Err(e) => (u, f, seq![line("adduser: "@ + users::err_text(e))]),
        }
    }
}

fn show_err(cmd: &str, e: UserErr) -> (v: Vec<Out>)
    ensures
        outs(v@) == seq![line(cmd@ + users::err_text(e))],
{
    let mut l = chars_of(cmd);
    push_str(&mut l, users::err_str(e));
    one_line(l)
}

pub(crate) fn cmd_adduser(u: &mut Users, f: &mut Fs, arg: &[char]) -> (v: Vec<Out>)
    requires
        old(u).wf(),
        old(f).wf(),
    ensures
        final(u).wf(),
        final(f).wf(),
        (final(u).seen(), final(f)@, outs(v@)) == adduser(old(u).seen(), old(f)@, arg@),
{
    if arg.len() == 0 {
        return one_str("Usage: adduser <name>");
    }
    let ghost u0 = u.seen();
    match users::add_user(u, f, arg) {
        Ok(idx) => {
            assert(u0.count < users::MAX_USERS);
            let mut l = chars_of("user '");
            push_all(&mut l, &users::user_name(u, idx));
            push_str(&mut l, "' added with uid ");
            push_dec(&mut l, users::user_uid(u, idx) as u64);
            one_line(l)
        },
        Err(e) => show_err("adduser: ", e),
    }
}

/// Starting to change a password.
pub open spec fn passwd(u: UsersView, arg: Seq<char>) -> (Seq<OutView>, Option<PromptView>) {
    if arg.len() > 0 && u.found(arg, 0) is None {
        (seq![line("passwd: no such user"@)], None)
    } else {
        (
            seq![OutView::Text("New password: "@)],
            Some(
                PromptView::NewPassword(
                    if arg.len() == 0 {
                        u.current
                    } else {
                        u.found(arg, 0)->0
                    },
                ),
            ),
        )
    }
}

fn ask(s: &str) -> (v: Vec<Out>)
    ensures
        outs(v@) == seq![OutView::Text(s@)],
{
    let mut v = nothing();
    put(&mut v, Out::Text(chars_of(s)));
    assert(outs(v@) =~= seq![OutView::Text(s@)]);
    v
}

pub(crate) fn cmd_passwd(u: &Users, arg: &[char]) -> (r: (Vec<Out>, Option<Prompt>))
    requires
        u.wf(),
    ensures
        (outs(r.0@), prompt_view(r.1)) == passwd(u.seen(), arg@),
        prompt_wf(r.1),
{
    let idx: usize = if arg.len() == 0 {
        users::current_user(u)
    } else {
        match users::find(u, arg) {
            Some(i) => i,
            None => {
                return (one_str("passwd: no such user"), None);
            },
        }
    };
    (ask("New password: "), Some(Prompt::NewPassword(idx)))
}

/// Starting to log in: an account without a password is entered at once.
pub open spec fn login(u: UsersView, arg: Seq<char>) -> (
    UsersView,
    Seq<OutView>,
    Option<PromptView>,
) {
    if arg.len() == 0 {
        (u, seq![line("Usage: login <user>"@)], None)
    } else {
        match u.found(arg, 0) {
            None => (u, seq![line("login: no such user '"@ + arg + "'"@)], None),
            Some(i) => if u.slots[i].pass.len() > 0 {
                (u, seq![OutView::Text("Password: "@)], Some(PromptView::LoginPassword(i)))
            } else {
                let (v, o) = entered(u, i);
                (v, o, None)
            },
        }
    }
}

/// The table after an account was entered, and what is shown.
pub open spec fn entered(u: UsersView, i: int) -> (UsersView, Seq<OutView>) {
    (
        if i < u.count {
            UsersView { current: i, ..u }
        } else {
            u
        },
        seq![line("logged in as "@ + u.slots[i].name)],
    )
}

fn enter(u: &mut Users, i: usize) -> (v: Vec<Out>)
    requires
        old(u).wf(),
        i < users::MAX_USERS,
    ensures
        final(u).wf(),
        (final(u).seen(), outs(v@)) == entered(old(u).seen(), i as int),
{
    users::set_current(u, i);
    let mut l = chars_of("logged in as ");
    push_all(&mut l, &users::user_name(u, i));
    one_line(l)
}

pub(crate) fn cmd_login(u: &mut Users, arg: &[char]) -> (r: (Vec<Out>, Option<Prompt>))
    requires
        old(u).wf(),
    ensures
        final(u).wf(),
        (final(u).seen(), outs(r.0@), prompt_view(r.1)) == login(old(u).seen(), arg@),
        prompt_wf(r.1),
{
    if arg.len() == 0 {
        return (one_str("Usage: login <user>"), None);
    }
    let idx: usize = match users::find(u, arg) {
        Some(i) => i,
        None => {
            let mut l = chars_of("login: no such user '");
            push_all(&mut l, arg);
            push_str(&mut l, "'");
            return (one_line(l), None);
        },
    };
    if users::has_password(u, idx) {
        return (ask("Password: "), Some(Prompt::LoginPassword(idx)));
    }
    (enter(u, idx), None)
}

/// What a typed line does: `line` is the buffer of the line and `len` its
/// length; none where the line was given up.
pub open spec fn answered(
    u: UsersView,
    f: FsView,
    p: PromptView,
    typed: Option<(Seq<char>, int)>,
) -> (UsersView, FsView, Seq<OutView>, Option<PromptView>) {
    match (p, typed) {
        (PromptView::LoginPassword(_), None) => (u, f, seq![line("login: cancelled"@)], None),
        (_, None) => (u, f, seq![line("passwd: cancelled"@)], None),
        (PromptView::NewPassword(i), Some((l, n))) => (
            u,
            f,
            seq![OutView::Text("Repeat password: "@)],
            Some(PromptView::RepeatPassword(i, l, n)),
        ),
        (PromptView::RepeatPassword(i, l0, n0), Some((l, n))) => if l0 != l || n0 != n {
            (u, f, seq![line("passwd: passwords do not match"@)], None)
        } else if n0 > users::PASS_CAP {
            (u, f, seq![line("passwd: "@ + users::err_text(UserErr::PassTooLong))], None)
        } else {
            let v = users::with_password(u, i, l0.take(n0));
            (v, users::saved(v, f), seq![line("passwd: password updated"@)], None)
        },
        (PromptView::LoginPassword(i), Some((l, n))) => if users::opens(u.slots[i], l.take(n)) {
            let (v, o) = entered(u, i);
            (v, f, o, None)
        } else {
            (u, f, seq![line("login: authentication failure"@)], None)
        },
    }
}

/// Takes in the line that a command waited for.
pub fn answer(
    u: &mut Users,
    f: &mut Fs,
    p: Prompt,
    typed: Option<(Vec<char>, usize)>,
) -> (r: (Vec<Out>, Option<Prompt>))
    requires
        old(u).wf(),
        old(f).wf(),
        p.wf(),
        typed matches Some((l, n)) ==> n <= l@.len(),
    ensures
        final(u).wf(),
        final(f).wf(),
        prompt_wf(r.1),
        (final(u).seen(), final(f)@, outs(r.0@), prompt_view(r.1)) == answered(
            old(u).seen(),
            old(f)@,
            p.seen(),
            match typed {
                Some((l, n)) => Some((l@, n as int)),
                None => None,
            },
        ),
{
    let (l, n) = match typed {
        None => {
            return match p {
                Prompt::LoginPassword(_) => (one_str("login: cancelled"), None),
                _ => (one_str("passwd: cancelled"), None),
            };
        },
        Some(t) => t,
    };
    match p {
        Prompt::NewPassword(i) => (
            ask("Repeat password: "),
            Some(Prompt::RepeatPassword(i, l, n)),
        ),
        Prompt::RepeatPassword(i, l0, n0) => {
            if !same_chars(&l0, &l) || n0 != n {
                return (one_str("passwd: passwords do not match"), None);
            }
            assert(l0@.subrange(0, n0 as int) =~= l0@.take(n0 as int));
            match users::set_password(u, f, i, &l0[0..n0]) {
                Ok(_) => (one_str("passwd: password updated"), None),
                Err(e) => (show_err("passwd: ", e), None),
            }
        },
        Prompt::LoginPassword(i) => {
            assert(l@.subrange(0, n as int) =~= l@.take(n as int));
            if users::check_password(u, i, &l[0..n]) {
                (enter(u, i), None)
            } else {
                (one_str("login: authentication failure"), None)
            }
        },
    }
}

// ---------- laws ----------

/// A name is found at the first account that has it, or no account has it.
proof fn found_is_first(u: UsersView, name: Seq<char>, i: int)
    requires
        0 <= i,
    ensures
        match u.found(name, i) {
            Some(k) => {
                &&& i <= k < u.count
                &&& u.slots[k].name == name
                &&& forall|j: int| i <= j < k ==> (#[trigger] u.slots[j]).name != name
            },
            None => forall|j: int| i <= j < u.count ==> (#[trigger] u.slots[j]).name != name,
        },
    decreases u.count - i,
{
    if i < u.count && u.slots[i].name != name {
        found_is_first(u, name, i + 1);
    }
}

/// A password changes only where the same line was typed twice: a second line
/// that differs in a character or in its length changes neither the accounts
/// nor the file system. The password that is set is the line that was typed, and
/// nothing else of the accounts changes.
pub proof fn password_is_typed_twice(
    u: UsersView,
    f: FsView,
    i: int,
    first: (Seq<char>, int),
    second: (Seq<char>, int),
)
    requires
        0 <= i < u.slots.len(),
        0 <= first.1 <= first.0.len(),
        0 <= second.1 <= second.0.len(),
    ensures
        ({
            let (u1, f1, _, p1) = answered(u, f, PromptView::NewPassword(i), Some(first));
            let (v, g, _, p2) = answered(u1, f1, p1->0, Some(second));
            let line1 = first.0.take(first.1);
            let line2 = second.0.take(second.1);
            &&& u1 == u && f1 == f
            &&& p1 is Some
            &&& p2 is None
            &&& line1 != line2 ==> v == u && g == f
            &&& line1.len() > 32 ==> v == u && g == f
            &&& first == second && line1.len() <= 32 ==> v.slots[i].pass == line2 && g
                == users::saved(v, f)
            &&& v != u ==> v.slots[i].pass == line2
            &&& v.slots[i].name == u.slots[i].name
            &&& v.slots[i].uid == u.slots[i].uid && v.slots[i].gid == u.slots[i].gid
            &&& v.count == u.count && v.current == u.current
            &&& v.slots.len() == u.slots.len()
            &&& forall|j: int| 0 <= j < u.slots.len() && j != i ==> #[trigger] v.slots[j] == u.slots[j]
        }),
{
    assert(first.0.take(first.1).len() == first.1);
    assert(second.0.take(second.1).len() == second.1);
}

/// Giving up at a prompt changes nothing and asks for nothing more.
pub proof fn cancelled_prompt_changes_nothing(u: UsersView, f: FsView, p: PromptView)
    ensures
        answered(u, f, p, None).0 == u,
        answered(u, f, p, None).1 == f,
        answered(u, f, p, None).3 is None,
{
}

/// An account with a password is entered with exactly that password; another
/// line leaves everything as it was.
pub proof fn only_the_password_logs_in(u: UsersView, f: FsView, i: int, typed: (Seq<char>, int))
    requires
        0 <= i < u.count,
        u.slots[i].pass.len() > 0,
        0 <= typed.1 <= typed.0.len(),
    ensures
        ({
            let (v, g, _, p) = answered(u, f, PromptView::LoginPassword(i), Some(typed));
            &&& g == f
            &&& p is None
            &&& typed.0.take(typed.1) == u.slots[i].pass ==> v == (UsersView { current: i, ..u })
            &&& typed.0.take(typed.1) != u.slots[i].pass ==> v == u
        }),
{
}

/// Logging in goes to the first account of the name: at once where it has no
/// password, else the password is asked for first. A name that no account has
/// leads nowhere.
pub proof fn login_goes_to_the_named_account(u: UsersView, name: Seq<char>)
    requires
        name.len() > 0,
    ensures
        ({
            let (v, _, p) = login(u, name);
            &&& forall|i: int|
                0 <= i < u.count && (#[trigger] u.slots[i]).name == name && (forall|j: int|
                    0 <= j < i ==> (#[trigger] u.slots[j]).name != name) ==> if u.slots[i].pass.len()
                    > 0 {
                    v == u && p == Some(PromptView::LoginPassword(i))
                } else {
                    v == (UsersView { current: i, ..u }) && p is None
                }
            &&& (forall|j: int| 0 <= j < u.count ==> (#[trigger] u.slots[j]).name != name) ==> v == u
                && p is None
        }),
{
    found_is_first(u, name, 0);
}

/// Changing a password asks for that of the first account of the name, or of
/// the current one where no name is given.
pub proof fn passwd_asks_for_the_named_account(u: UsersView, name: Seq<char>)
    ensures
        name.len() == 0 ==> passwd(u, name).1 == Some(PromptView::NewPassword(u.current)),
        name.len() > 0 ==> forall|i: int|
            0 <= i < u.count && (#[trigger] u.slots[i]).name == name && (forall|j: int|
                0 <= j < i ==> (#[trigger] u.slots[j]).name != name) ==> passwd(u, name).1 == Some(
                PromptView::NewPassword(i),
            ),
        name.len() > 0 && (forall|j: int|
            0 <= j < u.count ==> (#[trigger] u.slots[j]).name != name) ==> passwd(u, name).1 is None,
{
    found_is_first(u, name, 0);
}

/// Adding an account adds one with the name, without a password, and with a
/// number of its own; the others stay as they are. It is refused where the name
/// is taken, is empty, too long or has another character, or where the table is
/// full: then nothing changes.
pub proof fn adduser_adds_one_account(u: UsersView, f: FsView, name: Seq<char>)
    requires
        u.wf(),
    ensures
        ({
            let (v, g, _) = adduser(u, f, name);
            let fine = 0 < name.len() <= 16 && u.count < 16 && (forall|i: int|
                0 <= i < name.len() ==> ({
                    let c = #[trigger] name[i];
                    ||| 'a' <= c <= 'z' || 'A' <= c <= 'Z' || '0' <= c <= '9'
                    ||| c == '_' || c == '-' || c == '.'
                })) && (forall|j: int|
                0 <= j < u.count ==> (#[trigger] u.slots[j]).name != name);
            &&& !fine ==> v == u && g == f
            &&& fine ==> {
                &&& v.count == u.count + 1
                &&& v.current == u.current
                &&& v.slots[u.count].name == name
                &&& v.slots[u.count].pass.len() == 0
                &&& v.slots[u.count].gid == v.slots[u.count].uid
                &&& v.slots[u.count].uid >= 1000
                &&& forall|x: u32| 1000 <= x < v.slots[u.count].uid ==> #[trigger] u.uid_used(x)
                &&& v.slots[u.count].uid < u32::MAX ==> forall|j: int|
                    0 <= j < u.count ==> (#[trigger] u.slots[j]).uid != v.slots[u.count].uid
                &&& forall|j: int| 0 <= j < u.count ==> #[trigger] v.slots[j] == u.slots[j]
                &&& g == users::saved(v, f)
            }
        }),
{
    found_is_first(u, name, 0);
    users::new_uid_is_free(u, 1000);
    numbers_before_are_used(u, 1000);
}

/// The numbers before the one that is found are all taken.
proof fn numbers_before_are_used(u: UsersView, from: u32)
    ensures
        forall|x: u32| from <= x < u.free_uid(from) ==> #[trigger] u.uid_used(x),
    decreases u32::MAX - from,
{
    if from < u32::MAX && u.uid_used(from) {
        numbers_before_are_used(u, (from + 1) as u32);
    }
}

} // verus!
