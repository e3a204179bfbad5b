//! The command line: splitting it into words, and the commands.

use vstd::prelude::*;
use crate::ata::Devices;
use crate::framebuffer::FrameBufferInfo;
use crate::fs;
use crate::fs::{Fs, FsView};
use crate::pci;
use crate::pci::PciDevice;
use crate::settings::{KbdLayout, Settings};
use crate::text::{chars_of, copy_chars, eq_ci_str, lower_char, push_all, push_str, same_but_case};
use crate::tty::{line, nothing, one_line, one_str, outs, put, put_line, Out, OutView};
use crate::users;
use crate::users::{Users, UsersView};
use crate::commands::accounts::{prompt_view, prompt_wf, Prompt, PromptView};

pub mod accounts;
pub mod files;
pub mod info;

verus! {

pub const MAX_ARGS: usize = 8;

pub const MAX_ARG_LEN: usize = 64;

// ---------- words ----------

pub open spec fn blank(c: char) -> bool {
    c == ' ' || c == '\t'
}

/// The first position from `i` on that is not blank.
pub open spec fn word_start(s: Seq<char>, i: int) -> int
    decreases s.len() - i,
{
    if i < 0 || i >= s.len() || !blank(s[i]) {
        i
    } else {
        word_start(s, i + 1)
    }
}

/// The first position from `i` on that is blank.
pub open spec fn word_end(s: Seq<char>, i: int) -> int
    decreases s.len() - i,
{
    if i < 0 || i >= s.len() || blank(s[i]) {
        i
    } else {
        word_end(s, i + 1)
    }
}

/// A word starts and ends within the line.
pub proof fn word_bounds(s: Seq<char>, i: int)
    requires
        0 <= i <= s.len(),
    ensures
        i <= word_start(s, i) <= s.len(),
        i <= word_end(s, i) <= s.len(),
        i < s.len() && !blank(s[i]) ==> word_end(s, i) > i,
        word_start(s, i) < s.len() ==> !blank(s[word_start(s, i)]),
    decreases s.len() - i,
{
    if i < s.len() {
        word_bounds(s, i + 1);
    }
}

/// A word, cut to the length that an argument can have.
pub open spec fn cut(w: Seq<char>) -> Seq<char> {
    if w.len() > MAX_ARG_LEN {
        w.take(MAX_ARG_LEN as int)
    } else {
        w
    }
}

/// The words of a line from `i` on, at most `n` of them.
pub open spec fn words(s: Seq<char>, i: int, n: nat) -> Seq<Seq<char>>
    decreases n,
{
    let a = word_start(s, i);
    let b = word_end(s, a);
    if n == 0 || a >= s.len() {
        Seq::empty()
    } else {
        seq![cut(s.subrange(a, b))] + words(s, b, (n - 1) as nat)
    }
}

pub open spec fn args_view(v: Seq<Vec<char>>) -> Seq<Seq<char>> {
    Seq::new(v.len(), |i: int| v[i]@)
}

fn find_start(s: &[char], i: usize) -> (r: usize)
    requires
        i <= s@.len(),
    ensures
        r == word_start(s@, i as int),
        i <= r <= s@.len(),
{
    let mut k: usize = i;
    while k < s.len() && (s[k] == ' ' || s[k] == '\t')
        invariant
            i <= k <= s@.len(),
            word_start(s@, i as int) == word_start(s@, k as int),
        decreases s@.len() - k,
    {
        k += 1;
    }
    k
}

fn find_end(s: &[char], i: usize) -> (r: usize)
    requires
        i <= s@.len(),
    ensures
        r == word_end(s@, i as int),
        i <= r <= s@.len(),
{
    let mut k: usize = i;
    while k < s.len() && s[k] != ' ' && s[k] != '\t'
        invariant
            i <= k <= s@.len(),
            word_end(s@, i as int) == word_end(s@, k as int),
        decreases s@.len() - k,
    {
        k += 1;
    }
    k
}

/// The words of a line: at most eight, each cut to 64 characters.
pub fn parse_args(chars: &[char]) -> (args: Vec<Vec<char>>)
    ensures
        args_view(args@) == words(chars@, 0, MAX_ARGS as nat),
{
    let mut args: Vec<Vec<char>> = Vec::new();
    let ghost all = words(chars@, 0, MAX_ARGS as nat);
    let mut i: usize = 0;
    assert(args_view(args@) + all =~= all);
    while args.len() < MAX_ARGS
        invariant
            args@.len() <= MAX_ARGS,
            i <= chars@.len(),
            all == words(chars@, 0, MAX_ARGS as nat),
            args_view(args@) + words(chars@, i as int, (MAX_ARGS - args@.len()) as nat) == all,
        decreases MAX_ARGS - args@.len(),
    {
        let a: usize = find_start(chars, i);
        if a >= chars.len() {
            assert(args_view(args@) + Seq::<Seq<char>>::empty() =~= args_view(args@));
            return args;
        }
        let b: usize = find_end(chars, a);
        let ghost before = args_view(args@);
        let ghost left = (MAX_ARGS - args@.len()) as nat;
        let e: usize = if b - a > MAX_ARG_LEN {
            a + MAX_ARG_LEN
        } else {
            b
        };
        let w = copy_chars(&chars[a..e]);
        let ghost wv = w@;
        assert(wv =~= cut(chars@.subrange(a as int, b as int)));
        args.push(w);
        i = b;
        assert(args_view(args@) =~= before.push(wv));
        let ghost rest = words(chars@, b as int, (left - 1) as nat);
        assert(args_view(args@) + rest =~= before + (seq![wv] + rest));
    }
    assert(args_view(args@) + Seq::<Seq<char>>::empty() =~= args_view(args@));
    args
}

// ---------- the state ----------

/// What the commands show of the machine.
pub struct System {
    pub devices: Devices,
    pub pci: Vec<PciDevice>,
    pub vendor: Vec<u8>,
    pub brand: Vec<u8>,
    pub model: u32,
    pub usable_mb: u64,
    pub fb: Option<FrameBufferInfo>,
    /// Milliseconds since the start.
    pub ticks: u64,
}

impl System {
    pub open spec fn wf(&self) -> bool {
        self.devices.wf()
    }
}

/// What the commands work on.
pub struct Shell {
    pub fs: Fs,
    pub users: Users,
    pub settings: Settings,
}

#[verifier::ext_equal]
pub struct ShellView {
    pub fs: FsView,
    pub users: UsersView,
    pub layout: KbdLayout,
}

impl Shell {
    pub open spec fn seen(&self) -> ShellView {
        ShellView {
            fs: self.fs@,
            users: self.users.seen(),
            layout: self.settings.layout,
        }
    }

    pub open spec fn wf(&self) -> bool {
        self.fs.wf() && self.users.wf()
    }
}

/// What a command leaves: the state, the output, and what it waits for.
pub struct Response {
    pub shell: ShellView,
    pub out: Seq<OutView>,
    pub prompt: Option<PromptView>,
}

// ---------- the commands ----------

#[derive(Clone, Copy, PartialEq, Eq, Debug, Structural)]
pub enum Cmd {
    Help,
    Clear,
    Echo,
    Version,
    Solarfetch,
    Count,
    Color,
    Status,
    Loadkeys,
    Hidden,
    Diskinfo,
    Ls,
    Cd,
    Pwd,
    Mkdir,
    Touch,
    Cat,
    Rm,
    Rmdir,
    Mv,
    Wtest,
    Mkfs,
    Whoami,
    Users,
    Adduser,
    Passwd,
    Login,
    Pci,
    Unknown,
}

/// The command that a word names, whatever its case.
pub open spec fn named(w: Seq<char>) -> Cmd {
    if same_but_case(w, "help"@) {
        Cmd::Help
    } else if same_but_case(w, "clear"@) {
        Cmd::Clear
    } else if same_but_case(w, "echo"@) {
        Cmd::Echo
    } else if same_but_case(w, "version"@) {
        Cmd::Version
    } else if same_but_case(w, "solarfetch"@) {
        Cmd::Solarfetch
    } else if same_but_case(w, "count"@) {
        Cmd::Count
    } else if same_but_case(w, "color"@) {
        Cmd::Color
    } else if same_but_case(w, "status"@) {
        Cmd::Status
    } else if same_but_case(w, "loadkeys"@) {
        Cmd::Loadkeys
    } else if same_but_case(w, "help2"@) {
        Cmd::Hidden
    } else if same_but_case(w, "diskinfo"@) {
        Cmd::Diskinfo
    } else if same_but_case(w, "ls"@) {
        Cmd::Ls
    } else if same_but_case(w, "cd"@) {
        Cmd::Cd
    } else if same_but_case(w, "pwd"@) {
        Cmd::Pwd
    } else if same_but_case(w, "mkdir"@) {
        Cmd::Mkdir
    } else if same_but_case(w, "touch"@) {
        Cmd::Touch
    } else if same_but_case(w, "cat"@) {
        Cmd::Cat
    } else if same_but_case(w, "rm"@) {
        Cmd::Rm
    } else if same_but_case(w, "rmdir"@) {
        Cmd::Rmdir
    } else if same_but_case(w, "mv"@) {
        Cmd::Mv
    } else if same_but_case(w, "wtest"@) {
        Cmd::Wtest
    } else if same_but_case(w, "mkfs"@) {
        Cmd::Mkfs
    } else if same_but_case(w, "whoami"@) {
        Cmd::Whoami
    } else if same_but_case(w, "users"@) {
        Cmd::Users
    } else if same_but_case(w, "adduser"@) {
        Cmd::Adduser
    } else if same_but_case(w, "passwd"@) {
        Cmd::Passwd
    } else if same_but_case(w, "login"@) {
        Cmd::Login
    } else if same_but_case(w, "su"@) {
        Cmd::Login
    } else if same_but_case(w, "pci"@) {
        Cmd::Pci
    } else {
        Cmd::Unknown
    }
}

fn which(w: &[char]) -> (c: Cmd)
    ensures
        c == named(w@),
{
    if eq_ci_str(w, "help") {
        Cmd::Help
    } else if eq_ci_str(w, "clear") {
        Cmd::Clear
    } else if eq_ci_str(w, "echo") {
        Cmd::Echo
    } else if eq_ci_str(w, "version") {
        Cmd::Version
    } else if eq_ci_str(w, "solarfetch") {
        Cmd::Solarfetch
    } else if eq_ci_str(w, "count") {
        Cmd::Count
    } else if eq_ci_str(w, "color") {
        Cmd::Color
    } else if eq_ci_str(w, "status") {
        Cmd::Status
    } else if eq_ci_str(w, "loadkeys") {
        Cmd::Loadkeys
    } else if eq_ci_str(w, "help2") {
        Cmd::Hidden
    } else if eq_ci_str(w, "diskinfo") {
        Cmd::Diskinfo
    } else if eq_ci_str(w, "ls") {
        Cmd::Ls
    } else if eq_ci_str(w, "cd") {
        Cmd::Cd
    } else if eq_ci_str(w, "pwd") {
        Cmd::Pwd
    } else if eq_ci_str(w, "mkdir") {
        Cmd::Mkdir
    } else if eq_ci_str(w, "touch") {
        Cmd::Touch
    } else if eq_ci_str(w, "cat") {
        Cmd::Cat
    } else if eq_ci_str(w, "rm") {
        Cmd::Rm
    } else if eq_ci_str(w, "rmdir") {
        Cmd::Rmdir
    } else if eq_ci_str(w, "mv") {
        Cmd::Mv
    } else if eq_ci_str(w, "wtest") {
        Cmd::Wtest
    } else if eq_ci_str(w, "mkfs") {
        Cmd::Mkfs
    } else if eq_ci_str(w, "whoami") {
        Cmd::Whoami
    } else if eq_ci_str(w, "users") {
        Cmd::Users
    } else if eq_ci_str(w, "adduser") {
        Cmd::Adduser
    } else if eq_ci_str(w, "passwd") {
        Cmd::Passwd
    } else if eq_ci_str(w, "login") {
        Cmd::Login
    } else if eq_ci_str(w, "su") {
        Cmd::Login
    } else if eq_ci_str(w, "pci") {
        Cmd::Pci
    } else {
        Cmd::Unknown
    }
}

/// The argument `i`; empty where there is none.
pub open spec fn arg(a: Seq<Seq<char>>, i: int) -> Seq<char> {
    if i < a.len() {
        a[i]
    } else {
        Seq::empty()
    }
}

fn arg_str(a: &Vec<Vec<char>>, i: usize) -> (r: Vec<char>)
    ensures
        r@ == arg(args_view(a@), i as int),
{
    if i < a.len() {
        copy_chars(&a[i])
    } else {
        let none: Vec<char> = Vec::new();
        assert(none@ =~= Seq::<char>::empty());
        none
    }
}

/// What stands behind the first word, without the blanks before it; at most
/// 256 characters of it.
pub open spec fn echoed(s: Seq<char>) -> Seq<char> {
    let t = s.skip(word_start(s, word_end(s, word_start(s, 0))));
    if t.len() > 256 {
        t.take(256)
    } else {
        t
    }
}

pub open spec fn echo(s: Seq<char>) -> Seq<OutView> {
    if echoed(s).len() == 0 {
        Seq::empty()
    } else {
        seq![line(echoed(s))]
    }
}

fn cmd_echo(chars: &[char]) -> (v: Vec<Out>)
    ensures
        outs(v@) == echo(chars@),
{
    let a: usize = find_start(chars, 0);
    let b: usize = find_end(chars, a);
    let c: usize = find_start(chars, b);
    let n: usize = chars.len();
    let e: usize = if n - c > 256 {
        c + 256
    } else {
        n
    };
    assert(chars@.subrange(c as int, e as int) =~= echoed(chars@));
    if c == n {
        return nothing();
    }
    one_line(copy_chars(&chars[c..e]))
}

pub open spec fn unknown(w: Seq<char>) -> Seq<OutView> {
    seq![
        line(
            "Unknown command: '"@ + if w.len() > 32 {
                w.take(32)
            } else {
                w
            } + "'. Type 'help' for a list of commands."@,
        ),
    ]
}

fn cmd_unknown(w: &[char]) -> (v: Vec<Out>)
    ensures
        outs(v@) == unknown(w@),
{
    let mut l = chars_of("Unknown command: '");
    if w.len() > 32 {
        assert(w@.subrange(0, 32) =~= w@.take(32));
        push_all(&mut l, &w[0..32]);
    } else {
        push_all(&mut l, w);
    }
    push_str(&mut l, "'. Type 'help' for a list of commands.");
    one_line(l)
}

/// The list of the devices on the bus.
pub open spec fn pci_list(list: Seq<PciDevice>) -> Seq<OutView> {
    Seq::new(pci::listing(list).len(), |i: int| line(pci::listing(list)[i]))
}

fn cmd_pci(list: &Vec<PciDevice>) -> (v: Vec<Out>)
    ensures
        outs(v@) == pci_list(list@),
{
    let lines = pci::print_devices(list);
    let ghost all = pci_list(list@);
    let mut v = nothing();
    let mut k: usize = 0;
    assert(outs(v@) =~= all.take(0));
    while k < lines.len()
        invariant
            k <= lines@.len(),
            all == pci_list(list@),
            pci::lines_view(lines@) == pci::listing(list@),
            outs(v@) == all.take(k as int),
        decreases lines@.len() - k,
    {
        assert(pci::lines_view(lines@)[k as int] == lines@[k as int]@);
        put_line(&mut v, copy_chars(&lines[k]));
        k += 1;
        assert(outs(v@) =~= all.take(k as int));
    }
    assert(all.take(k as int) =~= all);
    v
}

pub open spec fn shows(s: ShellView, out: Seq<OutView>) -> Response {
    Response { shell: s, out, prompt: None }
}

pub open spec fn on_files(s: ShellView, r: (FsView, Seq<OutView>)) -> Response {
    Response { shell: ShellView { fs: r.0, ..s }, out: r.1, prompt: None }
}

/// What a command line does.
pub open spec fn executed(s: ShellView, sys: System, chars: Seq<char>) -> Response {
    let a = words(chars, 0, MAX_ARGS as nat);
    let me = s.users.slots[s.users.current].name;
    if a.len() == 0 {
        shows(s, Seq::empty())
    } else {
        match named(a[0]) {
            Cmd::Help => shows(s, info::help()),
            Cmd::Clear => shows(s, seq![OutView::Clear]),
            Cmd::Echo => shows(s, echo(chars)),
            Cmd::Version => shows(s, seq![line("SolarOS 26.1"@)]),
            Cmd::Solarfetch => shows(s, info::solarfetch(sys, me, s.layout)),
            Cmd::Count => shows(s, info::count(arg(a, 1))),
            Cmd::Color => shows(s, info::color(arg(a, 1))),
            Cmd::Status => shows(s, info::status(sys, me, s.layout)),
            Cmd::Loadkeys => Response {
                shell: ShellView {
                    layout: match info::layout_named(info::short(arg(a, 1))) {
                        Some(l) => l,
                        None => s.layout,
                    },
                    ..s
                },
                out: info::loadkeys(arg(a, 1)),
                prompt: None,
            },
            Cmd::Hidden => shows(
                s,
                seq![line("Hidden command found! More is coming here in the future."@)],
            ),
            Cmd::Diskinfo => shows(s, info::diskinfo(sys.devices)),
            Cmd::Ls => shows(s, files::ls(s.fs, arg(a, 1))),
            Cmd::Cd => on_files(s, files::cd(s.fs, arg(a, 1))),
            Cmd::Pwd => shows(s, seq![line(fs::model::pwd(s.fs.cwd))]),
            Cmd::Mkdir => on_files(s, files::mkdir(s.fs, arg(a, 1))),
            Cmd::Touch => on_files(s, files::touch(s.fs, arg(a, 1))),
            Cmd::Cat => shows(s, files::cat(s.fs, arg(a, 1))),
            Cmd::Rm => on_files(s, files::rm(s.fs, arg(a, 1))),
            Cmd::Rmdir => on_files(s, files::rmdir(s.fs, arg(a, 1))),
            Cmd::Mv => on_files(s, files::mv(s.fs, arg(a, 1), arg(a, 2))),
            Cmd::Wtest => on_files(s, files::wtest(s.fs, arg(a, 1), arg(a, 2))),
            Cmd::Mkfs => on_files(s, files::mkfs(s.fs, arg(a, 1))),
            Cmd::Whoami => shows(s, seq![line(me)]),
            Cmd::Users => shows(s, accounts::user_list(s.users)),
            Cmd::Adduser => {
                let (u, f, out) = accounts::adduser(s.users, s.fs, arg(a, 1));
                shows(ShellView { users: u, fs: f, ..s }, out)
            },
            Cmd::Passwd => {
                let (out, prompt) = accounts::passwd(s.users, arg(a, 1));
                Response { shell: s, out, prompt }
            },
            Cmd::Login => {
                let (u, out, prompt) = accounts::login(s.users, arg(a, 1));
                Response { shell: ShellView { users: u, ..s }, out, prompt }
            },
            Cmd::Pci => shows(s, pci_list(sys.pci@)),
            Cmd::Unknown => shows(s, unknown(a[0])),
        }
    }
}

/// Runs a command line: the output, and the line that the command waits for,
/// if any.
pub fn execute(sh: &mut Shell, sys: &System, chars: &[char]) -> (r: (Vec<Out>, Option<Prompt>))
    requires
        old(sh).wf(),
        sys.wf(),
    ensures
        final(sh).wf(),
        prompt_wf(r.1),
        (Response { shell: final(sh).seen(), out: outs(r.0@), prompt: prompt_view(r.1) })
            == executed(old(sh).seen(), *sys, chars@),
{
    let args = parse_args(chars);
    if args.len() == 0 {
        return (nothing(), None);
    }
    let a = arg_str(&args, 1);
    let cmd = which(&args[0]);
    assert(args@[0]@ == args_view(args@)[0]);
    let out: Vec<Out> = match cmd {
        Cmd::Help => info::cmd_help(),
        Cmd::Clear => {
            let mut v = nothing();
            put(&mut v, Out::Clear);
            assert(outs(v@) =~= seq![OutView::Clear]);
            v
        },
        Cmd::Echo => cmd_echo(chars),
        Cmd::Version => one_str("SolarOS 26.1"),
        Cmd::Solarfetch => info::cmd_solarfetch(
            sys,
            &users::user_name(&sh.users, users::current_user(&sh.users)),
            &sh.settings,
        ),
        Cmd::Count => info::cmd_count(&a),
        Cmd::Color => info::cmd_color(&a),
        Cmd::Status => info::cmd_status(
            sys,
            &users::user_name(&sh.users, users::current_user(&sh.users)),
            &sh.settings,
        ),
        Cmd::Loadkeys => info::cmd_loadkeys(&mut sh.settings, &a),
        Cmd::Hidden => one_str("Hidden command found! More is coming here in the future."),
        Cmd::Diskinfo => info::cmd_diskinfo(&sys.devices),
        Cmd::Ls => files::cmd_ls(&sh.fs, &a),
        Cmd::Cd => files::cmd_cd(&mut sh.fs, &a),
        Cmd::Pwd => one_line(fs::pwd(&sh.fs)),
        Cmd::Mkdir => files::cmd_mkdir(&mut sh.fs, &a),
        Cmd::Touch => files::cmd_touch(&mut sh.fs, &a),
        Cmd::Cat => files::cmd_cat(&sh.fs, &a),
        Cmd::Rm => files::cmd_rm(&mut sh.fs, &a),
        Cmd::Rmdir => files::cmd_rmdir(&mut sh.fs, &a),
        Cmd::Mv => files::cmd_mv(&mut sh.fs, &a, &arg_str(&args, 2)),
        Cmd::Wtest => files::cmd_wtest(&mut sh.fs, &a, &arg_str(&args, 2)),
        Cmd::Mkfs => files::cmd_mkfs(&mut sh.fs, &a),
        Cmd::Whoami => one_line(
            users::user_name(&sh.users, users::current_user(&sh.users)),
        ),
        Cmd::Users => accounts::cmd_users(&sh.users),
        Cmd::Adduser => accounts::cmd_adduser(&mut sh.users, &mut sh.fs, &a),
        Cmd::Passwd => {
            return accounts::cmd_passwd(&sh.users, &a);
        },
        Cmd::Login => {
            return accounts::cmd_login(&mut sh.users, &a);
        },
        Cmd::Pci => cmd_pci(&sys.pci),
        Cmd::Unknown => cmd_unknown(&args[0]),
    };
    (out, None)
}

// ---------- laws ----------

proof fn start_is_first(s: Seq<char>, i: int)
    requires
        0 <= i <= s.len(),
    ensures
        i <= word_start(s, i) <= s.len(),
        forall|k: int| i <= k < word_start(s, i) ==> #[trigger] s[k] == ' ' || s[k] == '\t',
        word_start(s, i) < s.len() ==> s[word_start(s, i)] != ' ' && s[word_start(s, i)] != '\t',
    decreases s.len() - i,
{
    if i < s.len() && blank(s[i]) {
        start_is_first(s, i + 1);
    }
}

proof fn end_is_first(s: Seq<char>, i: int)
    requires
        0 <= i <= s.len(),
    ensures
        i <= word_end(s, i) <= s.len(),
        forall|k: int| i <= k < word_end(s, i) ==> #[trigger] s[k] != ' ' && s[k] != '\t',
        word_end(s, i) < s.len() ==> s[word_end(s, i)] == ' ' || s[word_end(s, i)] == '\t',
    decreases s.len() - i,
{
    if i < s.len() && !blank(s[i]) {
        end_is_first(s, i + 1);
    }
}

/// A line of blanks has no words.
pub proof fn blanks_are_no_words(s: Seq<char>, i: int, n: nat)
    requires
        0 <= i <= s.len(),
        forall|k: int| i <= k < s.len() ==> #[trigger] s[k] == ' ' || s[k] == '\t',
    ensures
        words(s, i, n).len() == 0,
{
    start_is_first(s, i);
}

/// The first word of a line, and the rest of the words: behind blanks, a run of
/// other characters from `a` up to the next blank or the end at `b`, of which the
/// first 64 are kept; and then the words of what follows.
pub proof fn words_are_runs(s: Seq<char>, i: int, n: nat, a: int, b: int)
    requires
        n > 0,
        0 <= i <= a < b <= s.len(),
        forall|k: int| i <= k < a ==> #[trigger] s[k] == ' ' || s[k] == '\t',
        forall|k: int| a <= k < b ==> #[trigger] s[k] != ' ' && s[k] != '\t',
        b < s.len() ==> s[b] == ' ' || s[b] == '\t',
    ensures
        words(s, i, n).len() > 0,
        words(s, i, n)[0] == (if b - a > 64 {
            s.subrange(a, a + 64)
        } else {
            s.subrange(a, b)
        }),
        words(s, i, n).skip(1) == words(s, b, (n - 1) as nat),
{
    start_is_first(s, i);
    let a0 = word_start(s, i);
    end_is_first(s, a0);
    let b0 = word_end(s, a0);
    assert(s[a] != ' ' && s[a] != '\t');
    assert(a0 == a);
    assert(b0 == b) by {
        if b0 < b {
            assert(s[b0] != ' ' && s[b0] != '\t');
        }
        if b < b0 {
            assert(s[b] != ' ' && s[b] != '\t');
        }
    }
    let rest = words(s, b, (n - 1) as nat);
    let w = words(s, i, n);
    assert(w == seq![cut(s.subrange(a, b))] + rest);
    assert(w.skip(1) =~= rest);
    if b - a > 64 {
        assert(s.subrange(a, b).take(64) =~= s.subrange(a, a + 64));
    }
    assert(w[0] == cut(s.subrange(a, b)));
}

/// The name of a command may be typed in capitals or not.
pub proof fn commands_pass_over_case(v: Seq<char>, w: Seq<char>)
    requires
        v.len() == w.len(),
        forall|k: int|
            0 <= k < v.len() ==> #[trigger] v[k] == w[k] || ('A' <= v[k] <= 'Z' && w[k] as int
                == v[k] as int + 32) || ('A' <= w[k] <= 'Z' && v[k] as int == w[k] as int + 32),
    ensures
        named(v) == named(w),
{
    assert forall|x: Seq<char>| #[trigger] same_but_case(v, x) == same_but_case(w, x) by {
        assert forall|k: int| 0 <= k < v.len() implies lower_char(#[trigger] v[k]) == lower_char(
            w[k],
        ) by {}
        if same_but_case(v, x) {
            assert forall|k: int| 0 <= k < w.len() implies lower_char(#[trigger] w[k])
                == lower_char(x[k]) by {
                assert(lower_char(v[k]) == lower_char(x[k]));
            }
        }
        if same_but_case(w, x) {
            assert forall|k: int| 0 <= k < v.len() implies lower_char(#[trigger] v[k])
                == lower_char(x[k]) by {
                assert(lower_char(w[k]) == lower_char(x[k]));
            }
        }
    }
}

/// Two words that differ in their length, or in a letter whatever its case, name
/// different commands.
proof fn differ_in_a_letter(v: Seq<char>, w: Seq<char>, k: int)
    requires
        v.len() != w.len() || (0 <= k < v.len() && lower_char(v[k]) != lower_char(w[k])),
    ensures
        !same_but_case(v, w),
{
}

/// Each command has its name, and a word that is no name is no command.
pub proof fn names_are_commands(w: Seq<char>)
    ensures
        same_but_case(w, "help"@) ==> named(w) == Cmd::Help,
        same_but_case(w, "clear"@) ==> named(w) == Cmd::Clear,
        same_but_case(w, "echo"@) ==> named(w) == Cmd::Echo,
        same_but_case(w, "version"@) ==> named(w) == Cmd::Version,
        same_but_case(w, "solarfetch"@) ==> named(w) == Cmd::Solarfetch,
        same_but_case(w, "count"@) ==> named(w) == Cmd::Count,
        same_but_case(w, "color"@) ==> named(w) == Cmd::Color,
        same_but_case(w, "status"@) ==> named(w) == Cmd::Status,
        same_but_case(w, "loadkeys"@) ==> named(w) == Cmd::Loadkeys,
        same_but_case(w, "help2"@) ==> named(w) == Cmd::Hidden,
        same_but_case(w, "diskinfo"@) ==> named(w) == Cmd::Diskinfo,
        same_but_case(w, "ls"@) ==> named(w) == Cmd::Ls,
        same_but_case(w, "cd"@) ==> named(w) == Cmd::Cd,
        same_but_case(w, "pwd"@) ==> named(w) == Cmd::Pwd,
        same_but_case(w, "mkdir"@) ==> named(w) == Cmd::Mkdir,
        same_but_case(w, "touch"@) ==> named(w) == Cmd::Touch,
        same_but_case(w, "cat"@) ==> named(w) == Cmd::Cat,
        same_but_case(w, "rm"@) ==> named(w) == Cmd::Rm,
        same_but_case(w, "rmdir"@) ==> named(w) == Cmd::Rmdir,
        same_but_case(w, "mv"@) ==> named(w) == Cmd::Mv,
        same_but_case(w, "wtest"@) ==> named(w) == Cmd::Wtest,
        same_but_case(w, "mkfs"@) ==> named(w) == Cmd::Mkfs,
        same_but_case(w, "whoami"@) ==> named(w) == Cmd::Whoami,
        same_but_case(w, "users"@) ==> named(w) == Cmd::Users,
        same_but_case(w, "adduser"@) ==> named(w) == Cmd::Adduser,
        same_but_case(w, "passwd"@) ==> named(w) == Cmd::Passwd,
        same_but_case(w, "login"@) ==> named(w) == Cmd::Login,
        same_but_case(w, "su"@) ==> named(w) == Cmd::Login,
        same_but_case(w, "pci"@) ==> named(w) == Cmd::Pci,
        named(w) == Cmd::Unknown <==> !(same_but_case(w, "help"@) || same_but_case(w, "clear"@) || same_but_case(w, "echo"@) || same_but_case(w, "version"@) || same_but_case(w, "solarfetch"@) || same_but_case(w, "count"@) || same_but_case(w, "color"@) || same_but_case(w, "status"@) || same_but_case(w, "loadkeys"@) || same_but_case(w, "help2"@) || same_but_case(w, "diskinfo"@) || same_but_case(w, "ls"@) || same_but_case(w, "cd"@) || same_but_case(w, "pwd"@) || same_but_case(w, "mkdir"@) || same_but_case(w, "touch"@) || same_but_case(w, "cat"@) || same_but_case(w, "rm"@) || same_but_case(w, "rmdir"@) || same_but_case(w, "mv"@) || same_but_case(w, "wtest"@) || same_but_case(w, "mkfs"@) || same_but_case(w, "whoami"@) || same_but_case(w, "users"@) || same_but_case(w, "adduser"@) || same_but_case(w, "passwd"@) || same_but_case(w, "login"@) || same_but_case(w, "su"@) || same_but_case(w, "pci"@)),
{
    reveal_strlit("help");
    reveal_strlit("clear");
    reveal_strlit("echo");
    reveal_strlit("version");
    reveal_strlit("solarfetch");
    reveal_strlit("count");
    reveal_strlit("color");
    reveal_strlit("status");
    reveal_strlit("loadkeys");
    reveal_strlit("help2");
    reveal_strlit("diskinfo");
    reveal_strlit("ls");
    reveal_strlit("cd");
    reveal_strlit("pwd");
    reveal_strlit("mkdir");
    reveal_strlit("touch");
    reveal_strlit("cat");
    reveal_strlit("rm");
    reveal_strlit("rmdir");
    reveal_strlit("mv");
    reveal_strlit("wtest");
    reveal_strlit("mkfs");
    reveal_strlit("whoami");
    reveal_strlit("users");
    reveal_strlit("adduser");
    reveal_strlit("passwd");
    reveal_strlit("login");
    reveal_strlit("su");
    reveal_strlit("pci");
    assert(!(same_but_case(w, "help"@) && same_but_case(w, "echo"@))) by {
        if same_but_case(w, "help"@) && same_but_case(w, "echo"@) {
            assert(lower_char(w[0]) == lower_char("help"@[0]) && lower_char(w[0]) == lower_char("echo"@[0]));
        }
    }
    assert(!(same_but_case(w, "help"@) && same_but_case(w, "mkfs"@))) by {
        if same_but_case(w, "help"@) && same_but_case(w, "mkfs"@) {
            assert(lower_char(w[0]) == lower_char("help"@[0]) && lower_char(w[0]) == lower_char("mkfs"@[0]));
        }
    }
    assert(!(same_but_case(w, "clear"@) && same_but_case(w, "count"@))) by {
        if same_but_case(w, "clear"@) && same_but_case(w, "count"@) {
            assert(lower_char(w[1]) == lower_char("clear"@[1]) && lower_char(w[1]) == lower_char("count"@[1]));
        }
    }
    assert(!(same_but_case(w, "clear"@) && same_but_case(w, "color"@))) by {
        if same_but_case(w, "clear"@) && same_but_case(w, "color"@) {
            assert(lower_char(w[1]) == lower_char("clear"@[1]) && lower_char(w[1]) == lower_char("color"@[1]));
        }
    }
    assert(!(same_but_case(w, "clear"@) && same_but_case(w, "help2"@))) by {
        if same_but_case(w, "clear"@) && same_but_case(w, "help2"@) {
            assert(lower_char(w[0]) == lower_char("clear"@[0]) && lower_char(w[0]) == lower_char("help2"@[0]));
        }
    }
    assert(!(same_but_case(w, "clear"@) && same_but_case(w, "mkdir"@))) by {
        if same_but_case(w, "clear"@) && same_but_case(w, "mkdir"@) {
            assert(lower_char(w[0]) == lower_char("clear"@[0]) && lower_char(w[0]) == lower_char("mkdir"@[0]));
        }
    }
    assert(!(same_but_case(w, "clear"@) && same_but_case(w, "touch"@))) by {
        if same_but_case(w, "clear"@) && same_but_case(w, "touch"@) {
            assert(lower_char(w[0]) == lower_char("clear"@[0]) && lower_char(w[0]) == lower_char("touch"@[0]));
        }
    }
    assert(!(same_but_case(w, "clear"@) && same_but_case(w, "rmdir"@))) by {
        if same_but_case(w, "clear"@) && same_but_case(w, "rmdir"@) {
            assert(lower_char(w[0]) == lower_char("clear"@[0]) && lower_char(w[0]) == lower_char("rmdir"@[0]));
        }
    }
    assert(!(same_but_case(w, "clear"@) && same_but_case(w, "wtest"@))) by {
        if same_but_case(w, "clear"@) && same_but_case(w, "wtest"@) {
            assert(lower_char(w[0]) == lower_char("clear"@[0]) && lower_char(w[0]) == lower_char("wtest"@[0]));
        }
    }
    assert(!(same_but_case(w, "clear"@) && same_but_case(w, "users"@))) by {
        if same_but_case(w, "clear"@) && same_but_case(w, "users"@) {
            assert(lower_char(w[0]) == lower_char("clear"@[0]) && lower_char(w[0]) == lower_char("users"@[0]));
        }
    }
    assert(!(same_but_case(w, "clear"@) && same_but_case(w, "login"@))) by {
        if same_but_case(w, "clear"@) && same_but_case(w, "login"@) {
            assert(lower_char(w[0]) == lower_char("clear"@[0]) && lower_char(w[0]) == lower_char("login"@[0]));
        }
    }
    assert(!(same_but_case(w, "echo"@) && same_but_case(w, "mkfs"@))) by {
        if same_but_case(w, "echo"@) && same_but_case(w, "mkfs"@) {
            assert(lower_char(w[0]) == lower_char("echo"@[0]) && lower_char(w[0]) == lower_char("mkfs"@[0]));
        }
    }
    assert(!(same_but_case(w, "version"@) && same_but_case(w, "adduser"@))) by {
        if same_but_case(w, "version"@) && same_but_case(w, "adduser"@) {
            assert(lower_char(w[0]) == lower_char("version"@[0]) && lower_char(w[0]) == lower_char("adduser"@[0]));
        }
    }
    assert(!(same_but_case(w, "count"@) && same_but_case(w, "color"@))) by {
        if same_but_case(w, "count"@) && same_but_case(w, "color"@) {
            assert(lower_char(w[2]) == lower_char("count"@[2]) && lower_char(w[2]) == lower_char("color"@[2]));
        }
    }
    assert(!(same_but_case(w, "count"@) && same_but_case(w, "help2"@))) by {
        if same_but_case(w, "count"@) && same_but_case(w, "help2"@) {
            assert(lower_char(w[0]) == lower_char("count"@[0]) && lower_char(w[0]) == lower_char("help2"@[0]));
        }
    }
    assert(!(same_but_case(w, "count"@) && same_but_case(w, "mkdir"@))) by {
        if same_but_case(w, "count"@) && same_but_case(w, "mkdir"@) {
            assert(lower_char(w[0]) == lower_char("count"@[0]) && lower_char(w[0]) == lower_char("mkdir"@[0]));
        }
    }
    assert(!(same_but_case(w, "count"@) && same_but_case(w, "touch"@))) by {
        if same_but_case(w, "count"@) && same_but_case(w, "touch"@) {
            assert(lower_char(w[0]) == lower_char("count"@[0]) && lower_char(w[0]) == lower_char("touch"@[0]));
        }
    }
    assert(!(same_but_case(w, "count"@) && same_but_case(w, "rmdir"@))) by {
        if same_but_case(w, "count"@) && same_but_case(w, "rmdir"@) {
            assert(lower_char(w[0]) == lower_char("count"@[0]) && lower_char(w[0]) == lower_char("rmdir"@[0]));
        }
    }
    assert(!(same_but_case(w, "count"@) && same_but_case(w, "wtest"@))) by {
        if same_but_case(w, "count"@) && same_but_case(w, "wtest"@) {
            assert(lower_char(w[0]) == lower_char("count"@[0]) && lower_char(w[0]) == lower_char("wtest"@[0]));
        }
    }
    assert(!(same_but_case(w, "count"@) && same_but_case(w, "users"@))) by {
        if same_but_case(w, "count"@) && same_but_case(w, "users"@) {
            assert(lower_char(w[0]) == lower_char("count"@[0]) && lower_char(w[0]) == lower_char("users"@[0]));
        }
    }
    assert(!(same_but_case(w, "count"@) && same_but_case(w, "login"@))) by {
        if same_but_case(w, "count"@) && same_but_case(w, "login"@) {
            assert(lower_char(w[0]) == lower_char("count"@[0]) && lower_char(w[0]) == lower_char("login"@[0]));
        }
    }
    assert(!(same_but_case(w, "color"@) && same_but_case(w, "help2"@))) by {
        if same_but_case(w, "color"@) && same_but_case(w, "help2"@) {
            assert(lower_char(w[0]) == lower_char("color"@[0]) && lower_char(w[0]) == lower_char("help2"@[0]));
        }
    }
    assert(!(same_but_case(w, "color"@) && same_but_case(w, "mkdir"@))) by {
        if same_but_case(w, "color"@) && same_but_case(w, "mkdir"@) {
            assert(lower_char(w[0]) == lower_char("color"@[0]) && lower_char(w[0]) == lower_char("mkdir"@[0]));
        }
    }
    assert(!(same_but_case(w, "color"@) && same_but_case(w, "touch"@))) by {
        if same_but_case(w, "color"@) && same_but_case(w, "touch"@) {
            assert(lower_char(w[0]) == lower_char("color"@[0]) && lower_char(w[0]) == lower_char("touch"@[0]));
        }
    }
    assert(!(same_but_case(w, "color"@) && same_but_case(w, "rmdir"@))) by {
        if same_but_case(w, "color"@) && same_but_case(w, "rmdir"@) {
            assert(lower_char(w[0]) == lower_char("color"@[0]) && lower_char(w[0]) == lower_char("rmdir"@[0]));
        }
    }
    assert(!(same_but_case(w, "color"@) && same_but_case(w, "wtest"@))) by {
        if same_but_case(w, "color"@) && same_but_case(w, "wtest"@) {
            assert(lower_char(w[0]) == lower_char("color"@[0]) && lower_char(w[0]) == lower_char("wtest"@[0]));
        }
    }
    assert(!(same_but_case(w, "color"@) && same_but_case(w, "users"@))) by {
        if same_but_case(w, "color"@) && same_but_case(w, "users"@) {
            assert(lower_char(w[0]) == lower_char("color"@[0]) && lower_char(w[0]) == lower_char("users"@[0]));
        }
    }
    assert(!(same_but_case(w, "color"@) && same_but_case(w, "login"@))) by {
        if same_but_case(w, "color"@) && same_but_case(w, "login"@) {
            assert(lower_char(w[0]) == lower_char("color"@[0]) && lower_char(w[0]) == lower_char("login"@[0]));
        }
    }
    assert(!(same_but_case(w, "status"@) && same_but_case(w, "whoami"@))) by {
        if same_but_case(w, "status"@) && same_but_case(w, "whoami"@) {
            assert(lower_char(w[0]) == lower_char("status"@[0]) && lower_char(w[0]) == lower_char("whoami"@[0]));
        }
    }
    assert(!(same_but_case(w, "status"@) && same_but_case(w, "passwd"@))) by {
        if same_but_case(w, "status"@) && same_but_case(w, "passwd"@) {
            assert(lower_char(w[0]) == lower_char("status"@[0]) && lower_char(w[0]) == lower_char("passwd"@[0]));
        }
    }
    assert(!(same_but_case(w, "loadkeys"@) && same_but_case(w, "diskinfo"@))) by {
        if same_but_case(w, "loadkeys"@) && same_but_case(w, "diskinfo"@) {
            assert(lower_char(w[0]) == lower_char("loadkeys"@[0]) && lower_char(w[0]) == lower_char("diskinfo"@[0]));
        }
    }
    assert(!(same_but_case(w, "help2"@) && same_but_case(w, "mkdir"@))) by {
        if same_but_case(w, "help2"@) && same_but_case(w, "mkdir"@) {
            assert(lower_char(w[0]) == lower_char("help2"@[0]) && lower_char(w[0]) == lower_char("mkdir"@[0]));
        }
    }
    assert(!(same_but_case(w, "help2"@) && same_but_case(w, "touch"@))) by {
        if same_but_case(w, "help2"@) && same_but_case(w, "touch"@) {
            assert(lower_char(w[0]) == lower_char("help2"@[0]) && lower_char(w[0]) == lower_char("touch"@[0]));
        }
    }
    assert(!(same_but_case(w, "help2"@) && same_but_case(w, "rmdir"@))) by {
        if same_but_case(w, "help2"@) && same_but_case(w, "rmdir"@) {
            assert(lower_char(w[0]) == lower_char("help2"@[0]) && lower_char(w[0]) == lower_char("rmdir"@[0]));
        }
    }
    assert(!(same_but_case(w, "help2"@) && same_but_case(w, "wtest"@))) by {
        if same_but_case(w, "help2"@) && same_but_case(w, "wtest"@) {
            assert(lower_char(w[0]) == lower_char("help2"@[0]) && lower_char(w[0]) == lower_char("wtest"@[0]));
        }
    }
    assert(!(same_but_case(w, "help2"@) && same_but_case(w, "users"@))) by {
        if same_but_case(w, "help2"@) && same_but_case(w, "users"@) {
            assert(lower_char(w[0]) == lower_char("help2"@[0]) && lower_char(w[0]) == lower_char("users"@[0]));
        }
    }
    assert(!(same_but_case(w, "help2"@) && same_but_case(w, "login"@))) by {
        if same_but_case(w, "help2"@) && same_but_case(w, "login"@) {
            assert(lower_char(w[0]) == lower_char("help2"@[0]) && lower_char(w[0]) == lower_char("login"@[0]));
        }
    }
    assert(!(same_but_case(w, "ls"@) && same_but_case(w, "cd"@))) by {
        if same_but_case(w, "ls"@) && same_but_case(w, "cd"@) {
            assert(lower_char(w[0]) == lower_char("ls"@[0]) && lower_char(w[0]) == lower_char("cd"@[0]));
        }
    }
    assert(!(same_but_case(w, "ls"@) && same_but_case(w, "rm"@))) by {
        if same_but_case(w, "ls"@) && same_but_case(w, "rm"@) {
            assert(lower_char(w[0]) == lower_char("ls"@[0]) && lower_char(w[0]) == lower_char("rm"@[0]));
        }
    }
    assert(!(same_but_case(w, "ls"@) && same_but_case(w, "mv"@))) by {
        if same_but_case(w, "ls"@) && same_but_case(w, "mv"@) {
            assert(lower_char(w[0]) == lower_char("ls"@[0]) && lower_char(w[0]) == lower_char("mv"@[0]));
        }
    }
    assert(!(same_but_case(w, "ls"@) && same_but_case(w, "su"@))) by {
        if same_but_case(w, "ls"@) && same_but_case(w, "su"@) {
            assert(lower_char(w[0]) == lower_char("ls"@[0]) && lower_char(w[0]) == lower_char("su"@[0]));
        }
    }
    assert(!(same_but_case(w, "cd"@) && same_but_case(w, "rm"@))) by {
        if same_but_case(w, "cd"@) && same_but_case(w, "rm"@) {
            assert(lower_char(w[0]) == lower_char("cd"@[0]) && lower_char(w[0]) == lower_char("rm"@[0]));
        }
    }
    assert(!(same_but_case(w, "cd"@) && same_but_case(w, "mv"@))) by {
        if same_but_case(w, "cd"@) && same_but_case(w, "mv"@) {
            assert(lower_char(w[0]) == lower_char("cd"@[0]) && lower_char(w[0]) == lower_char("mv"@[0]));
        }
    }
    assert(!(same_but_case(w, "cd"@) && same_but_case(w, "su"@))) by {
        if same_but_case(w, "cd"@) && same_but_case(w, "su"@) {
            assert(lower_char(w[0]) == lower_char("cd"@[0]) && lower_char(w[0]) == lower_char("su"@[0]));
        }
    }
    assert(!(same_but_case(w, "pwd"@) && same_but_case(w, "cat"@))) by {
        if same_but_case(w, "pwd"@) && same_but_case(w, "cat"@) {
            assert(lower_char(w[0]) == lower_char("pwd"@[0]) && lower_char(w[0]) == lower_char("cat"@[0]));
        }
    }
    assert(!(same_but_case(w, "pwd"@) && same_but_case(w, "pci"@))) by {
        if same_but_case(w, "pwd"@) && same_but_case(w, "pci"@) {
            assert(lower_char(w[1]) == lower_char("pwd"@[1]) && lower_char(w[1]) == lower_char("pci"@[1]));
        }
    }
    assert(!(same_but_case(w, "mkdir"@) && same_but_case(w, "touch"@))) by {
        if same_but_case(w, "mkdir"@) && same_but_case(w, "touch"@) {
            assert(lower_char(w[0]) == lower_char("mkdir"@[0]) && lower_char(w[0]) == lower_char("touch"@[0]));
        }
    }
    assert(!(same_but_case(w, "mkdir"@) && same_but_case(w, "rmdir"@))) by {
        if same_but_case(w, "mkdir"@) && same_but_case(w, "rmdir"@) {
            assert(lower_char(w[0]) == lower_char("mkdir"@[0]) && lower_char(w[0]) == lower_char("rmdir"@[0]));
        }
    }
    assert(!(same_but_case(w, "mkdir"@) && same_but_case(w, "wtest"@))) by {
        if same_but_case(w, "mkdir"@) && same_but_case(w, "wtest"@) {
            assert(lower_char(w[0]) == lower_char("mkdir"@[0]) && lower_char(w[0]) == lower_char("wtest"@[0]));
        }
    }
    assert(!(same_but_case(w, "mkdir"@) && same_but_case(w, "users"@))) by {
        if same_but_case(w, "mkdir"@) && same_but_case(w, "users"@) {
            assert(lower_char(w[0]) == lower_char("mkdir"@[0]) && lower_char(w[0]) == lower_char("users"@[0]));
        }
    }
    assert(!(same_but_case(w, "mkdir"@) && same_but_case(w, "login"@))) by {
        if same_but_case(w, "mkdir"@) && same_but_case(w, "login"@) {
            assert(lower_char(w[0]) == lower_char("mkdir"@[0]) && lower_char(w[0]) == lower_char("login"@[0]));
        }
    }
    assert(!(same_but_case(w, "touch"@) && same_but_case(w, "rmdir"@))) by {
        if same_but_case(w, "touch"@) && same_but_case(w, "rmdir"@) {
            assert(lower_char(w[0]) == lower_char("touch"@[0]) && lower_char(w[0]) == lower_char("rmdir"@[0]));
        }
    }
    assert(!(same_but_case(w, "touch"@) && same_but_case(w, "wtest"@))) by {
        if same_but_case(w, "touch"@) && same_but_case(w, "wtest"@) {
            assert(lower_char(w[0]) == lower_char("touch"@[0]) && lower_char(w[0]) == lower_char("wtest"@[0]));
        }
    }
    assert(!(same_but_case(w, "touch"@) && same_but_case(w, "users"@))) by {
        if same_but_case(w, "touch"@) && same_but_case(w, "users"@) {
            assert(lower_char(w[0]) == lower_char("touch"@[0]) && lower_char(w[0]) == lower_char("users"@[0]));
        }
    }
    assert(!(same_but_case(w, "touch"@) && same_but_case(w, "login"@))) by {
        if same_but_case(w, "touch"@) && same_but_case(w, "login"@) {
            assert(lower_char(w[0]) == lower_char("touch"@[0]) && lower_char(w[0]) == lower_char("login"@[0]));
        }
    }
    assert(!(same_but_case(w, "cat"@) && same_but_case(w, "pci"@))) by {
        if same_but_case(w, "cat"@) && same_but_case(w, "pci"@) {
            assert(lower_char(w[0]) == lower_char("cat"@[0]) && lower_char(w[0]) == lower_char("pci"@[0]));
        }
    }
    assert(!(same_but_case(w, "rm"@) && same_but_case(w, "mv"@))) by {
        if same_but_case(w, "rm"@) && same_but_case(w, "mv"@) {
            assert(lower_char(w[0]) == lower_char("rm"@[0]) && lower_char(w[0]) == lower_char("mv"@[0]));
        }
    }
    assert(!(same_but_case(w, "rm"@) && same_but_case(w, "su"@))) by {
        if same_but_case(w, "rm"@) && same_but_case(w, "su"@) {
            assert(lower_char(w[0]) == lower_char("rm"@[0]) && lower_char(w[0]) == lower_char("su"@[0]));
        }
    }
    assert(!(same_but_case(w, "rmdir"@) && same_but_case(w, "wtest"@))) by {
        if same_but_case(w, "rmdir"@) && same_but_case(w, "wtest"@) {
            assert(lower_char(w[0]) == lower_char("rmdir"@[0]) && lower_char(w[0]) == lower_char("wtest"@[0]));
        }
    }
    assert(!(same_but_case(w, "rmdir"@) && same_but_case(w, "users"@))) by {
        if same_but_case(w, "rmdir"@) && same_but_case(w, "users"@) {
            assert(lower_char(w[0]) == lower_char("rmdir"@[0]) && lower_char(w[0]) == lower_char("users"@[0]));
        }
    }
    assert(!(same_but_case(w, "rmdir"@) && same_but_case(w, "login"@))) by {
        if same_but_case(w, "rmdir"@) && same_but_case(w, "login"@) {
            assert(lower_char(w[0]) == lower_char("rmdir"@[0]) && lower_char(w[0]) == lower_char("login"@[0]));
        }
    }
    assert(!(same_but_case(w, "mv"@) && same_but_case(w, "su"@))) by {
        if same_but_case(w, "mv"@) && same_but_case(w, "su"@) {
            assert(lower_char(w[0]) == lower_char("mv"@[0]) && lower_char(w[0]) == lower_char("su"@[0]));
        }
    }
    assert(!(same_but_case(w, "wtest"@) && same_but_case(w, "users"@))) by {
        if same_but_case(w, "wtest"@) && same_but_case(w, "users"@) {
            assert(lower_char(w[0]) == lower_char("wtest"@[0]) && lower_char(w[0]) == lower_char("users"@[0]));
        }
    }
    assert(!(same_but_case(w, "wtest"@) && same_but_case(w, "login"@))) by {
        if same_but_case(w, "wtest"@) && same_but_case(w, "login"@) {
            assert(lower_char(w[0]) == lower_char("wtest"@[0]) && lower_char(w[0]) == lower_char("login"@[0]));
        }
    }
    assert(!(same_but_case(w, "whoami"@) && same_but_case(w, "passwd"@))) by {
        if same_but_case(w, "whoami"@) && same_but_case(w, "passwd"@) {
            assert(lower_char(w[0]) == lower_char("whoami"@[0]) && lower_char(w[0]) == lower_char("passwd"@[0]));
        }
    }
    assert(!(same_but_case(w, "users"@) && same_but_case(w, "login"@))) by {
        if same_but_case(w, "users"@) && same_but_case(w, "login"@) {
            assert(lower_char(w[0]) == lower_char("users"@[0]) && lower_char(w[0]) == lower_char("login"@[0]));
        }
    }
}

/// A command line changes what its command is for, and nothing else: the file
/// commands work on the file system, with the words behind the command as paths,
/// and change nothing where there is no file system or a path is missing; what
/// shows something leaves the state as it is.
pub proof fn commands_do_their_work(s: ShellView, sys: System, chars: Seq<char>)
    requires
        words(chars, 0, 8).len() > 0,
    ensures
        ({
            let a = words(chars, 0, 8);
            let c = named(a[0]);
            let p = if a.len() > 1 {
                a[1]
            } else {
                Seq::empty()
            };
            let q = if a.len() > 2 {
                a[2]
            } else {
                Seq::empty()
            };
            let r = executed(s, sys, chars);
            let there = s.fs.mount is Some && p.len() > 0;
            &&& c == Cmd::Mkdir && there ==> r.shell == (ShellView {
                fs: fs::model::mkdir(s.fs, p).0,
                ..s
            })
            &&& c == Cmd::Touch && there ==> r.shell == (ShellView {
                fs: fs::model::touch(s.fs, p).0,
                ..s
            })
            &&& c == Cmd::Rm && there ==> r.shell == (ShellView {
                fs: fs::model::rm(s.fs, p).0,
                ..s
            })
            &&& c == Cmd::Rmdir && there ==> r.shell == (ShellView {
                fs: fs::model::rmdir(s.fs, p).0,
                ..s
            })
            &&& c == Cmd::Mv && there && q.len() > 0 ==> r.shell == (ShellView {
                fs: fs::model::mv(s.fs, p, q).0,
                ..s
            })
            &&& c == Cmd::Mv && q.len() == 0 ==> r.shell == s
            &&& c == Cmd::Cd && s.fs.mount is Some ==> r.shell == (ShellView {
                fs: fs::model::cd(s.fs, p).0,
                ..s
            })
            &&& (c == Cmd::Mkdir || c == Cmd::Touch || c == Cmd::Rm || c == Cmd::Rmdir || c == Cmd::Mv)
                && !there ==> r.shell == s
            &&& c == Cmd::Ls || c == Cmd::Cat || c == Cmd::Pwd || c == Cmd::Whoami || c == Cmd::Users
                || c == Cmd::Help || c == Cmd::Echo || c == Cmd::Status || c == Cmd::Diskinfo || c
                == Cmd::Pci || c == Cmd::Version || c == Cmd::Count || c == Cmd::Color || c
                == Cmd::Clear || c == Cmd::Solarfetch || c == Cmd::Unknown ==> r.shell == s
                && r.prompt is None
            &&& c == Cmd::Passwd ==> r.shell == s
            &&& c == Cmd::Loadkeys ==> r.shell == (ShellView { layout: r.shell.layout, ..s })
            &&& c == Cmd::Login ==> r.shell == (ShellView { users: r.shell.users, ..s })
                && r.shell.users.slots == s.users.slots
            &&& c == Cmd::Pwd ==> r.out == seq![line(fs::model::pwd(s.fs.cwd))]
            &&& c == Cmd::Whoami ==> r.out == seq![line(s.users.slots[s.users.current].name)]
        }),
{
}

/// What stands behind the first word is echoed as it was typed, with the blanks
/// in it; at most 256 characters of it. A word alone echoes nothing.
pub proof fn echo_shows_the_rest(s: Seq<char>, a: int, b: int, c: int)
    requires
        0 <= a < b <= c <= s.len(),
        forall|k: int| 0 <= k < a ==> #[trigger] s[k] == ' ' || s[k] == '\t',
        forall|k: int| a <= k < b ==> #[trigger] s[k] != ' ' && s[k] != '\t',
        forall|k: int| b <= k < c ==> #[trigger] s[k] == ' ' || s[k] == '\t',
        c < s.len() ==> b < c && s[c] != ' ' && s[c] != '\t',
    ensures
        c == s.len() ==> echo(s).len() == 0,
        c < s.len() && s.len() - c <= 256 ==> echo(s) == seq![line(s.subrange(c, s.len() as int))],
        s.len() - c > 256 ==> echo(s) == seq![line(s.subrange(c, c + 256))],
{
    start_is_first(s, 0);
    assert(s[a] != ' ' && s[a] != '\t');
    assert(word_start(s, 0) == a);
    end_is_first(s, a);
    let e = word_end(s, a);
    assert(e == b) by {
        if e < b {
            assert(s[e] != ' ' && s[e] != '\t');
        }
        if b < e {
            assert(s[b] != ' ' && s[b] != '\t');
        }
    }
    start_is_first(s, b);
    let f = word_start(s, b);
    assert(f == c) by {
        if f < c {
            assert(s[f] == ' ' || s[f] == '\t');
        }
        if c < f {
            assert(s[c] == ' ' || s[c] == '\t');
        }
    }
    let t = s.skip(c);
    assert(t =~= s.subrange(c, s.len() as int));
    if s.len() - c > 256 {
        assert(t.take(256) =~= s.subrange(c, c + 256));
    }
}

} // verus!
