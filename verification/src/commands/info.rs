//! Commands that show the system and change its settings.

use vstd::prelude::*;
use crate::ata;
use crate::ata::{AtaDevice, Devices};
use crate::boot;
use crate::commands::System;
use crate::framebuffer::{accent, Rgb};
use crate::settings;
use crate::settings::{KbdLayout, Settings};
use crate::text;
use crate::text::{chars_of, copy_chars, eq_ci_str, push_all, push_dec, push_hex, push_left};
use crate::text::{push_right, push_str, same_but_case};
use crate::tty::{line, nothing, one_line, one_str, outs, put, put_line, put_str, Out};
use crate::tty::OutView;

verus! {

/// The number of commands.
pub const COMMAND_COUNT: usize = 29;

/// The name of the command `k`.
pub open spec fn command_name(k: int) -> Seq<char> {
    if k == 0 {
        "help"@
    } else if k == 1 {
        "clear"@
    } else if k == 2 {
        "echo"@
    } else if k == 3 {
        "version"@
    } else if k == 4 {
        "solarfetch"@
    } else if k == 5 {
        "count"@
    } else if k == 6 {
        "color"@
    } else if k == 7 {
        "status"@
    } else if k == 8 {
        "loadkeys"@
    } else if k == 9 {
        "help2"@
    } else if k == 10 {
        "wtest"@
    } else if k == 11 {
        "diskinfo"@
    } else if k == 12 {
        "ls"@
    } else if k == 13 {
        "cd"@
    } else if k == 14 {
        "pwd"@
    } else if k == 15 {
        "mkdir"@
    } else if k == 16 {
        "touch"@
    } else if k == 17 {
        "cat"@
    } else if k == 18 {
        "rm"@
    } else if k == 19 {
        "rmdir"@
    } else if k == 20 {
        "mv"@
    } else if k == 21 {
        "mkfs"@
    } else if k == 22 {
        "whoami"@
    } else if k == 23 {
        "users"@
    } else if k == 24 {
        "adduser"@
    } else if k == 25 {
        "passwd"@
    } else if k == 26 {
        "login"@
    } else if k == 27 {
        "su"@
    } else if k == 28 {
        "pci"@
    } else {
        ""@
    }
}

fn name_str(k: usize) -> (r: &'static str)
    ensures
        r@ == command_name(k as int),
{
    match k {
        0 => "help",
        1 => "clear",
        2 => "echo",
        3 => "version",
        4 => "solarfetch",
        5 => "count",
        6 => "color",
        7 => "status",
        8 => "loadkeys",
        9 => "help2",
        10 => "wtest",
        11 => "diskinfo",
        12 => "ls",
        13 => "cd",
        14 => "pwd",
        15 => "mkdir",
        16 => "touch",
        17 => "cat",
        18 => "rm",
        19 => "rmdir",
        20 => "mv",
        21 => "mkfs",
        22 => "whoami",
        23 => "users",
        24 => "adduser",
        25 => "passwd",
        26 => "login",
        27 => "su",
        28 => "pci",
        _ => "",
    }
}

/// What the command `k` does.
pub open spec fn command_desc(k: int) -> Seq<char> {
    if k == 0 {
        "shows the list of commands"@
    } else if k == 1 {
        "clears the screen"@
    } else if k == 2 {
        "prints the given text: echo <text>"@
    } else if k == 3 {
        "shows the SolarOS version"@
    } else if k == 4 {
        "shows system info in a fastfetch-style layout"@
    } else if k == 5 {
        "counts from 1 to n: count <n>"@
    } else if k == 6 {
        "changes the text color: color <color> (colors: red, green, blue, yellow, purple, cyan, orange, pink, white, default)"@
    } else if k == 7 {
        "shows the system status (uptime, framebuffer, settings)"@
    } else if k == 8 {
        "changes the keyboard layout like Linux: loadkeys <tr|trq|us|qwerty>"@
    } else if k == 9 {
        "hidden command"@
    } else if k == 10 {
        "writes a pattern file and verifies it: wtest <path> <size> | verify"@
    } else if k == 11 {
        "shows the detected ATA disks"@
    } else if k == 12 {
        "lists files: ls [path]"@
    } else if k == 13 {
        "changes the directory: cd <path>"@
    } else if k == 14 {
        "prints the current directory"@
    } else if k == 15 {
        "creates a directory: mkdir <path>"@
    } else if k == 16 {
        "creates an empty file: touch <path>"@
    } else if k == 17 {
        "prints a file: cat <path>"@
    } else if k == 18 {
        "removes a file: rm <path>"@
    } else if k == 19 {
        "removes an empty directory: rmdir <path>"@
    } else if k == 20 {
        "moves/renames: mv <old> <new>"@
    } else if k == 21 {
        "formats the data disk: mkfs [ext4] (default FAT32)"@
    } else if k == 22 {
        "prints the current user"@
    } else if k == 23 {
        "lists all users"@
    } else if k == 24 {
        "creates a user: adduser <name>"@
    } else if k == 25 {
        "sets a password: passwd [user]"@
    } else if k == 26 {
        "switches the current user: login <user>"@
    } else if k == 27 {
        "switches the current user: su <user>"@
    } else if k == 28 {
        "lists the PCI devices"@
    } else {
        ""@
    }
}

fn desc_str(k: usize) -> (r: &'static str)
    ensures
        r@ == command_desc(k as int),
{
    match k {
        0 => "shows the list of commands",
        1 => "clears the screen",
        2 => "prints the given text: echo <text>",
        3 => "shows the SolarOS version",
        4 => "shows system info in a fastfetch-style layout",
        5 => "counts from 1 to n: count <n>",
        6 => "changes the text color: color <color> (colors: red, green, blue, yellow, purple, cyan, orange, pink, white, default)",
        7 => "shows the system status (uptime, framebuffer, settings)",
        8 => "changes the keyboard layout like Linux: loadkeys <tr|trq|us|qwerty>",
        9 => "hidden command",
        10 => "writes a pattern file and verifies it: wtest <path> <size> | verify",
        11 => "shows the detected ATA disks",
        12 => "lists files: ls [path]",
        13 => "changes the directory: cd <path>",
        14 => "prints the current directory",
        15 => "creates a directory: mkdir <path>",
        16 => "creates an empty file: touch <path>",
        17 => "prints a file: cat <path>",
        18 => "removes a file: rm <path>",
        19 => "removes an empty directory: rmdir <path>",
        20 => "moves/renames: mv <old> <new>",
        21 => "formats the data disk: mkfs [ext4] (default FAT32)",
        22 => "prints the current user",
        23 => "lists all users",
        24 => "creates a user: adduser <name>",
        25 => "sets a password: passwd [user]",
        26 => "switches the current user: login <user>",
        27 => "switches the current user: su <user>",
        28 => "lists the PCI devices",
        _ => "",
    }
}

// ---------- help ----------

pub open spec fn help_line(k: int) -> Seq<char> {
    "  "@ + text::left(command_name(k), 10) + " - "@ + command_desc(k)
}

pub open spec fn help() -> Seq<OutView> {
    seq![line("SolarOS commands:"@)] + Seq::new(COMMAND_COUNT as nat, |k: int| line(help_line(k)))
}

pub(crate) fn cmd_help() -> (v: Vec<Out>)
    ensures
        outs(v@) == help(),
{
    let mut v = nothing();
    put_str(&mut v, "SolarOS commands:");
    let mut k: usize = 0;
    assert(outs(v@) =~= help().take(1));
    while k < COMMAND_COUNT
        invariant
            k <= COMMAND_COUNT,
            outs(v@) == help().take(k + 1),
        decreases COMMAND_COUNT - k,
    {
        let mut l = chars_of("  ");
        push_left(&mut l, &chars_of(name_str(k)), 10);
        push_str(&mut l, " - ");
        push_str(&mut l, desc_str(k));
        put_line(&mut v, l);
        k += 1;
        assert(outs(v@) =~= help().take(k + 1));
    }
    assert(help().take(k + 1) =~= help());
    v
}

// ---------- count ----------

/// The number that the digits give, held at the largest one; none where a
/// character is no digit.
pub open spec fn digits(s: Seq<char>) -> Option<u64>
    decreases s.len(),
{
    if s.len() == 0 {
        Some(0)
    } else {
        let c = s.last();
        match digits(s.drop_last()) {
            Some(n) if '0' <= c && c <= '9' => {
                let v = n * 10 + (c as int - 48);
                Some(
                    if v > u64::MAX {
                        u64::MAX
                    } else {
                        v as u64
                    },
                )
            },
            _ => None,
        }
    }
}

fn digit_value(c: char) -> (d: u64)
    requires
        '0' <= c && c <= '9',
    ensures
        d == c as int - 48,
        d <= 9,
{
    c as u64 - 48
}

proof fn no_digits_continue(s: Seq<char>, k: int)
    requires
        0 <= k <= s.len(),
        digits(s.take(k)) is None,
    ensures
        digits(s) is None,
    decreases s.len() - k,
{
    if k == s.len() {
        assert(s.take(k) =~= s);
    } else {
        assert(s.take(k + 1).drop_last() =~= s.take(k));
        no_digits_continue(s, k + 1);
    }
}

/// Reads a number.
pub(crate) fn read_digits(s: &[char]) -> (r: Option<u64>)
    ensures
        r == digits(s@),
{
    let mut n: u64 = 0;
    let mut k: usize = 0;
    assert(s@.take(0) =~= Seq::<char>::empty());
    while k < s.len()
        invariant
            k <= s@.len(),
            digits(s@.take(k as int)) == Some(n),
        decreases s@.len() - k,
    {
        let c: char = s[k];
        assert(s@.take(k + 1).drop_last() =~= s@.take(k as int));
        if !('0' <= c && c <= '9') {
            proof {
                no_digits_continue(s@, k + 1);
            }
            return None;
        }
        let d: u64 = digit_value(c);
        n = if n > (u64::MAX - d) / 10 {
            u64::MAX
        } else {
            n * 10 + d
        };
        k += 1;
    }
    assert(s@.take(k as int) =~= s@);
    Some(n)
}

pub open spec fn count(arg: Seq<char>) -> Seq<OutView> {
    if arg.len() == 0 {
        seq![line("Usage: count <n>"@)]
    } else {
        match digits(arg) {
            None => seq![line("Error: enter a number."@)],
            Some(n) => if n == 0 || n > 100 {
                seq![line("Counting to "@ + text::dec(n as nat) + " is too long! (try 1-100)"@)]
            } else {
                Seq::new(n as nat, |i: int| line(text::dec((i + 1) as nat)))
            },
        }
    }
}

pub(crate) fn cmd_count(arg: &[char]) -> (v: Vec<Out>)
    ensures
        outs(v@) == count(arg@),
{
    if arg.len() == 0 {
        return one_str("Usage: count <n>");
    }
    let n: u64 = match read_digits(arg) {
        None => {
            return one_str("Error: enter a number.");
        },
        Some(n) => n,
    };
    if n == 0 || n > 100 {
        let mut l = chars_of("Counting to ");
        push_dec(&mut l, n);
        push_str(&mut l, " is too long! (try 1-100)");
        return one_line(l);
    }
    let mut v = nothing();
    let mut i: u64 = 0;
    while i < n
        invariant
            i <= n <= 100,
            outs(v@) == Seq::new(i as nat, |k: int| line(text::dec((k + 1) as nat))),
        decreases n - i,
    {
        put_line(&mut v, text::dec_of(i + 1));
        i += 1;
        assert(outs(v@) =~= Seq::new(i as nat, |k: int| line(text::dec((k + 1) as nat))));
    }
    v
}

// ---------- color ----------

/// The first 16 characters of a word.
pub open spec fn short(arg: Seq<char>) -> Seq<char> {
    if arg.len() > 16 {
        arg.take(16)
    } else {
        arg
    }
}

fn shorten(arg: &[char]) -> (r: &[char])
    ensures
        r@ == short(arg@),
{
    if arg.len() > 16 {
        assert(arg@.subrange(0, 16) =~= arg@.take(16));
        &arg[0..16]
    } else {
        arg
    }
}

/// What a colour name asks for: a colour, the default, or nothing known.
pub open spec fn color_named(s: Seq<char>) -> Option<Option<Rgb>> {
    if same_but_case(s, "red"@) {
        Some(Some(Rgb(255, 90, 90)))
    } else if same_but_case(s, "green"@) {
        Some(Some(Rgb(120, 255, 140)))
    } else if same_but_case(s, "blue"@) {
        Some(Some(Rgb(90, 160, 255)))
    } else if same_but_case(s, "yellow"@) {
        Some(Some(Rgb(255, 210, 110)))
    } else if same_but_case(s, "purple"@) {
        Some(Some(Rgb(200, 120, 255)))
    } else if same_but_case(s, "cyan"@) {
        Some(Some(Rgb(90, 255, 220)))
    } else if same_but_case(s, "orange"@) {
        Some(Some(Rgb(255, 150, 60)))
    } else if same_but_case(s, "pink"@) {
        Some(Some(Rgb(255, 120, 180)))
    } else if same_but_case(s, "white"@) {
        Some(Some(Rgb(255, 255, 255)))
    } else if same_but_case(s, "default"@) || same_but_case(s, "reset"@) {
        Some(None)
    } else {
        None
    }
}

fn find_color(s: &[char]) -> (r: Option<Option<Rgb>>)
    ensures
        r == color_named(s@),
{
    if eq_ci_str(s, "red") {
        Some(Some(Rgb(255, 90, 90)))
    } else if eq_ci_str(s, "green") {
        Some(Some(Rgb(120, 255, 140)))
    } else if eq_ci_str(s, "blue") {
        Some(Some(Rgb(90, 160, 255)))
    } else if eq_ci_str(s, "yellow") {
        Some(Some(Rgb(255, 210, 110)))
    } else if eq_ci_str(s, "purple") {
        Some(Some(Rgb(200, 120, 255)))
    } else if eq_ci_str(s, "cyan") {
        Some(Some(Rgb(90, 255, 220)))
    } else if eq_ci_str(s, "orange") {
        Some(Some(Rgb(255, 150, 60)))
    } else if eq_ci_str(s, "pink") {
        Some(Some(Rgb(255, 120, 180)))
    } else if eq_ci_str(s, "white") {
        Some(Some(Rgb(255, 255, 255)))
    } else if eq_ci_str(s, "default") || eq_ci_str(s, "reset") {
        Some(None)
    } else {
        None
    }
}

pub open spec fn color(arg: Seq<char>) -> Seq<OutView> {
    match color_named(short(arg)) {
        None => seq![
            line(
                "Unknown color: '"@ + short(arg)
                    + "'. (colors: red, green, blue, yellow, purple, cyan, orange, pink, white, default)"@,
            ),
        ],
        Some(Some(c)) => seq![OutView::Fg(c), line("Text color changed."@)],
        Some(None) => seq![OutView::Reset, line("Back to default colors."@)],
    }
}

pub(crate) fn cmd_color(arg: &[char]) -> (v: Vec<Out>)
    ensures
        outs(v@) == color(arg@),
{
    let s = shorten(arg);
    let mut v = nothing();
    match find_color(s) {
        None => {
            let mut l = chars_of("Unknown color: '");
            push_all(&mut l, s);
            push_str(
                &mut l,
                "'. (colors: red, green, blue, yellow, purple, cyan, orange, pink, white, default)",
            );
            put_line(&mut v, l);
        },
        Some(Some(c)) => {
            put(&mut v, Out::Fg(c));
            put_str(&mut v, "Text color changed.");
        },
        Some(None) => {
            put(&mut v, Out::Reset);
            put_str(&mut v, "Back to default colors.");
        },
    }
    assert(outs(v@) =~= color(arg@));
    v
}

// ---------- loadkeys ----------

pub open spec fn layout_named(s: Seq<char>) -> Option<KbdLayout> {
    if same_but_case(s, "tr"@) || same_but_case(s, "trq"@) || same_but_case(s, "turkish"@)
        || same_but_case(s, "trf"@) {
        Some(KbdLayout::TurkishQ)
    } else if same_but_case(s, "us"@) || same_but_case(s, "qwerty"@) || same_but_case(
        s,
        "english"@,
    ) || same_but_case(s, "us-intl"@) {
        Some(KbdLayout::Us)
    } else {
        None
    }
}

pub open spec fn loadkeys(arg: Seq<char>) -> Seq<OutView> {
    match layout_named(short(arg)) {
        Some(l) => seq![line("Keyboard layout: "@ + settings::code_of(l))],
        None => seq![line("Usage: loadkeys <tr|trq|us|qwerty>"@)],
    }
}

pub(crate) fn cmd_loadkeys(s: &mut Settings, arg: &[char]) -> (v: Vec<Out>)
    ensures
        outs(v@) == loadkeys(arg@),
        final(s).layout == (match layout_named(short(arg@)) {
            Some(l) => l,
            None => old(s).layout,
        }),
{
    let a = shorten(arg);
    if eq_ci_str(a, "tr") || eq_ci_str(a, "trq") || eq_ci_str(a, "turkish") || eq_ci_str(a, "trf") {
        settings::set_layout(s, KbdLayout::TurkishQ);
    } else if eq_ci_str(a, "us") || eq_ci_str(a, "qwerty") || eq_ci_str(a, "english") || eq_ci_str(
        a,
        "us-intl",
    ) {
        settings::set_layout(s, KbdLayout::Us);
    } else {
        return one_str("Usage: loadkeys <tr|trq|us|qwerty>");
    }
    let mut l = chars_of("Keyboard layout: ");
    push_str(&mut l, settings::layout_code(s));
    one_line(l)
}

// ---------- status ----------

/// A name in its column, a colon, and a value.
pub open spec fn field(name: Seq<char>, value: Seq<char>) -> OutView {
    line("  "@ + text::left(name, 14) + ": "@ + value)
}

fn put_field(v: &mut Vec<Out>, name: &str, value: &[char])
    ensures
        outs(final(v)@) == outs(old(v)@).push(field(name@, value@)),
{
    let mut l = chars_of("  ");
    push_left(&mut l, &chars_of(name), 14);
    push_str(&mut l, ": ");
    push_all(&mut l, value);
    put_line(v, l);
}

pub open spec fn status(sys: System, user: Seq<char>, layout: KbdLayout) -> Seq<OutView> {
    seq![
        line("System status:"@),
        field("Uptime"@, text::dec(sys.ticks as nat / 1000) + " seconds"@),
        field(
            "Framebuffer"@,
            match sys.fb {
                Some(i) => text::dec(i.width as nat) + "x"@ + text::dec(i.height as nat) + " px, "@
                    + boot::format_text(i.pixel_format),
                None => "NONE"@,
            },
        ),
        field("Command count"@, text::dec(COMMAND_COUNT as nat)),
        field("User"@, user),
        field("Keyboard"@, settings::code_of(layout)),
    ]
}

pub(crate) fn cmd_status(sys: &System, user: &[char], s: &Settings) -> (v: Vec<Out>)
    ensures
        outs(v@) == status(*sys, user@, s.layout),
{
    let mut v = nothing();
    put_str(&mut v, "System status:");
    let mut up = text::dec_of(sys.ticks / 1000);
    push_str(&mut up, " seconds");
    put_field(&mut v, "Uptime", &up);
    let fb = match sys.fb {
        Some(i) => {
            let mut l = text::dec_of(i.width as u64);
            push_str(&mut l, "x");
            push_dec(&mut l, i.height as u64);
            push_str(&mut l, " px, ");
            push_all(&mut l, &boot::show_format(i.pixel_format));
            l
        },
        None => chars_of("NONE"),
    };
    put_field(&mut v, "Framebuffer", &fb);
    put_field(&mut v, "Command count", &text::dec_of(COMMAND_COUNT as u64));
    put_field(&mut v, "User", user);
    put_field(&mut v, "Keyboard", &chars_of(settings::layout_code(s)));
    assert(outs(v@) =~= status(*sys, user@, s.layout));
    v
}

// ---------- diskinfo ----------

pub open spec fn disk_text(i: nat, d: AtaDevice) -> Seq<char> {
    let head = "  Disk "@ + text::dec(i) + " ("@ + boot::channel_text(d) + ":"@
        + boot::position_text(d) + "): "@;
    if d.present {
        head + text::dec(d.capacity_mb as nat) + " MB, "@ + text::dec(d.sectors as nat)
            + " sectors, LBA "@ + boot::yes_no(d.lba_supported) + " - "@ + ata::model_text(d.model@)
    } else {
        head + "not found"@
    }
}

fn show_disk(i: usize, d: &AtaDevice) -> (v: Vec<char>)
    ensures
        v@ == disk_text(i as nat, *d),
{
    let mut v = chars_of("  Disk ");
    push_dec(&mut v, i as u64);
    push_str(&mut v, " (");
    push_str(&mut v, boot::channel_str(d));
    push_str(&mut v, ":");
    push_str(&mut v, boot::position_str(d));
    push_str(&mut v, "): ");
    if d.present {
        push_dec(&mut v, d.capacity_mb);
        push_str(&mut v, " MB, ");
        push_dec(&mut v, d.sectors);
        push_str(&mut v, " sectors, LBA ");
        boot::push_yes_no(&mut v, d.lba_supported);
        push_str(&mut v, " - ");
        push_str(&mut v, &d.model_str());
    } else {
        push_str(&mut v, "not found");
    }
    v
}

pub open spec fn diskinfo(t: Devices) -> Seq<OutView> {
    seq![line("ATA devices:"@)] + Seq::new(8, |i: int| line(disk_text(i as nat, t.slots@[i])))
}

pub(crate) fn cmd_diskinfo(t: &Devices) -> (v: Vec<Out>)
    requires
        t.wf(),
    ensures
        outs(v@) == diskinfo(*t),
{
    let mut v = nothing();
    put_str(&mut v, "ATA devices:");
    let mut i: usize = 0;
    assert(outs(v@) =~= diskinfo(*t).take(1));
    while i < 8
        invariant
            t.wf(),
            i <= 8,
            outs(v@) == diskinfo(*t).take(i + 1),
        decreases 8 - i,
    {
        put_line(&mut v, show_disk(i, &t.slots[i]));
        i += 1;
        assert(outs(v@) =~= diskinfo(*t).take(i + 1));
    }
    assert(diskinfo(*t).take(9) =~= diskinfo(*t));
    v
}

// ---------- solarfetch ----------

/// The line `k` of the logo.
pub open spec fn logo_text(k: int) -> Seq<char> {
    if k == 0 {
        "⠀⠀⠀⠀⠀⠀⠀⠀⠀⠀⠀⠀⠀⢠⡀"@
    } else if k == 1 {
        "⠀⠀⠀⠀⠀⠀⠀⠀⠀⠀⠀⠀⠀⢸⣷⠀⠀⠀⠀⠀⠀⠀⠀⠀⠀⣄"@
    } else if k == 2 {
        "⠀⠀⠀⠀⠀⠀⠀⠀⠀⠀⠀⠀⠀⣾⡟⠀⠀⠀⠀⠀⠀⠀⠀⠀⣸⡿"@
    } else if k == 3 {
        "⠀⠀⠀⠀⠀⠀⠀⠀⠀⢀⠀⠀⠀⢹⣿⣄⠀⠀⣄⠀⠀⠀⣠⣾⡟⠁"@
    } else if k == 4 {
        "⠀⠀⠀⠀⠀⠀⠀⠀⠀⠈⢳⣄⠀⠀⢻⣿⡇⠰⠿⠀⠀⢀⣿⣿"@
    } else if k == 5 {
        "⠀⠀⠤⣀⣀⣀⠀⠀⠀⠀⠀⠙⠆⠀⣼⣿⡷⠠⡦⠀⣤⣾⣿⠇⠀⣠⠆"@
    } else if k == 6 {
        "⠀⠀⠀⠈⠛⢿⣶⣤⣤⣤⣀⣀⠴⠇⠈⢀⣀⣠⣤⣤⡉⠛⠋⣤⡘⠋⠀⠀⢀⣠⣤⣄⣠⣤⡴⠂"@
    } else if k == 7 {
        "⠀⠀⠀⠀⠀⠀⠉⠛⠛⢿⣿⡿⠀⣰⣾⡿⠟⠛⠛⠛⢿⣷⣄⠈⣵⣤⣤⣶⣿⠟⠛⠻⠛⠙"@
    } else if k == 8 {
        "⠀⠀⠀⠀⠠⢤⣤⣤⠀⢀⣉⠁⣼⣿⠋⣠⣶⣿⣿⣷⣄⠙⣿⣆⠘⠿⠟⠋⠁"@
    } else if k == 9 {
        "⠀⠀⠀⠀⠀⠀⠀⠀⢀⣈⣍⠀⣿⡏⠈⣿⣿⣁⡈⠹⣿⡇⢻⣿⠀⠺⠆⠀⣶⠶⠦⠂"@
    } else if k == 10 {
        "⠀⠀⠀⠀⠀⠀⢠⣾⣿⣿⣿⡇⠻⣿⣦⡈⠛⠋⣁⣴⣿⢃⣽⣿⠀⣤⡀"@
    } else if k == 11 {
        "⢀⣤⣾⣿⠿⣿⡿⠟⠁⠀⠠⣶⢀⡈⠻⠿⣿⣿⠿⠏⣡⣾⡿⠃⣸⣿⣿⣿⣿⣿⣷⣦"@
    } else if k == 12 {
        "⠀⠀⠀⠀⠀⠀⠀⢀⣴⠟⠀⠀⣿⣿⣿⣷⣶⣶⣾⡿⠟⠋⢀⣤⠈⠉⠉⠉⠁⠀⠛⠿⣶⣤⣄⡀"@
    } else if k == 13 {
        "⠀⠀⠀⠀⠀⠀⠀⠈⠀⠀⠀⢸⣿⡟⠁⠀⣥⡁⢠⣤⣴⣶⠀⠁⢶⣆"@
    } else if k == 14 {
        "⠀⠀⠀⠀⠀⠀⠀⠀⠀⠀⠀⣸⣿⡇⠀⢀⣌⠀⠈⣿⣿⡇⠀⠀⠀⠉⠃"@
    } else if k == 15 {
        "⠀⠀⠀⠀⠀⠀⠀⠀⠀⠀⣼⣿⠋⠀⠀⠰⠗⠀⠀⠘⣿⣿⡀"@
    } else if k == 16 {
        "⠀⠀⠀⠀⠀⠀⠀⠀⠀⢸⡿⠁⠀⠀⠀⠈⠀⠀⠀⠀⠈⠻⣿⡄"@
    } else if k == 17 {
        "⠀⠀⠀⠀⠀⠀⠀⠀⠀⠟⠀⠀⠀⠀⠀⠀⠀⠀⠀⠀⠀⠀⢿⡇"@
    } else if k == 18 {
        "⠀⠀⠀⠀⠀⠀⠀⠀⠀⠀⠀⠀⠀⠀⠀⠀⠀⠀⠀⠀⠀⠀⠘⠅"@
    } else {
        ""@
    }
}

fn logo_str(k: usize) -> (r: &'static str)
    ensures
        r@ == logo_text(k as int),
{
    match k {
        0 => "⠀⠀⠀⠀⠀⠀⠀⠀⠀⠀⠀⠀⠀⢠⡀",
        1 => "⠀⠀⠀⠀⠀⠀⠀⠀⠀⠀⠀⠀⠀⢸⣷⠀⠀⠀⠀⠀⠀⠀⠀⠀⠀⣄",
        2 => "⠀⠀⠀⠀⠀⠀⠀⠀⠀⠀⠀⠀⠀⣾⡟⠀⠀⠀⠀⠀⠀⠀⠀⠀⣸⡿",
        3 => "⠀⠀⠀⠀⠀⠀⠀⠀⠀⢀⠀⠀⠀⢹⣿⣄⠀⠀⣄⠀⠀⠀⣠⣾⡟⠁",
        4 => "⠀⠀⠀⠀⠀⠀⠀⠀⠀⠈⢳⣄⠀⠀⢻⣿⡇⠰⠿⠀⠀⢀⣿⣿",
        5 => "⠀⠀⠤⣀⣀⣀⠀⠀⠀⠀⠀⠙⠆⠀⣼⣿⡷⠠⡦⠀⣤⣾⣿⠇⠀⣠⠆",
        6 => "⠀⠀⠀⠈⠛⢿⣶⣤⣤⣤⣀⣀⠴⠇⠈⢀⣀⣠⣤⣤⡉⠛⠋⣤⡘⠋⠀⠀⢀⣠⣤⣄⣠⣤⡴⠂",
        7 => "⠀⠀⠀⠀⠀⠀⠉⠛⠛⢿⣿⡿⠀⣰⣾⡿⠟⠛⠛⠛⢿⣷⣄⠈⣵⣤⣤⣶⣿⠟⠛⠻⠛⠙",
        8 => "⠀⠀⠀⠀⠠⢤⣤⣤⠀⢀⣉⠁⣼⣿⠋⣠⣶⣿⣿⣷⣄⠙⣿⣆⠘⠿⠟⠋⠁",
        9 => "⠀⠀⠀⠀⠀⠀⠀⠀⢀⣈⣍⠀⣿⡏⠈⣿⣿⣁⡈⠹⣿⡇⢻⣿⠀⠺⠆⠀⣶⠶⠦⠂",
        10 => "⠀⠀⠀⠀⠀⠀⢠⣾⣿⣿⣿⡇⠻⣿⣦⡈⠛⠋⣁⣴⣿⢃⣽⣿⠀⣤⡀",
        11 => "⢀⣤⣾⣿⠿⣿⡿⠟⠁⠀⠠⣶⢀⡈⠻⠿⣿⣿⠿⠏⣡⣾⡿⠃⣸⣿⣿⣿⣿⣿⣷⣦",
        12 => "⠀⠀⠀⠀⠀⠀⠀⢀⣴⠟⠀⠀⣿⣿⣿⣷⣶⣶⣾⡿⠟⠋⢀⣤⠈⠉⠉⠉⠁⠀⠛⠿⣶⣤⣄⡀",
        13 => "⠀⠀⠀⠀⠀⠀⠀⠈⠀⠀⠀⢸⣿⡟⠁⠀⣥⡁⢠⣤⣴⣶⠀⠁⢶⣆",
        14 => "⠀⠀⠀⠀⠀⠀⠀⠀⠀⠀⠀⣸⣿⡇⠀⢀⣌⠀⠈⣿⣿⡇⠀⠀⠀⠉⠃",
        15 => "⠀⠀⠀⠀⠀⠀⠀⠀⠀⠀⣼⣿⠋⠀⠀⠰⠗⠀⠀⠘⣿⣿⡀",
        16 => "⠀⠀⠀⠀⠀⠀⠀⠀⠀⢸⡿⠁⠀⠀⠀⠈⠀⠀⠀⠀⠈⠻⣿⡄",
        17 => "⠀⠀⠀⠀⠀⠀⠀⠀⠀⠟⠀⠀⠀⠀⠀⠀⠀⠀⠀⠀⠀⠀⢿⡇",
        18 => "⠀⠀⠀⠀⠀⠀⠀⠀⠀⠀⠀⠀⠀⠀⠀⠀⠀⠀⠀⠀⠀⠀⠘⠅",
        _ => "",
    }
}

/// The colour of the line `k` of the logo.
pub open spec fn logo_color(k: int) -> Rgb {
    if k == 0 {
        Rgb(255, 255, 200)
    } else if k == 1 {
        Rgb(255, 240, 191)
    } else if k == 2 {
        Rgb(255, 225, 182)
    } else if k == 3 {
        Rgb(255, 210, 173)
    } else if k == 4 {
        Rgb(255, 195, 164)
    } else if k == 5 {
        Rgb(255, 180, 155)
    } else if k == 6 {
        Rgb(255, 165, 146)
    } else if k == 7 {
        Rgb(255, 150, 137)
    } else if k == 8 {
        Rgb(255, 135, 128)
    } else if k == 9 {
        Rgb(255, 120, 119)
    } else if k == 10 {
        Rgb(255, 105, 110)
    } else if k == 11 {
        Rgb(255, 90, 101)
    } else if k == 12 {
        Rgb(255, 75, 92)
    } else if k == 13 {
        Rgb(255, 60, 83)
    } else if k == 14 {
        Rgb(255, 45, 74)
    } else if k == 15 {
        Rgb(255, 40, 65)
    } else if k == 16 {
        Rgb(255, 40, 56)
    } else if k == 17 {
        Rgb(255, 40, 47)
    } else {
        Rgb(255, 40, 38)
    }
}

fn logo_rgb(k: usize) -> (c: Rgb)
    ensures
        c == logo_color(k as int),
{
    match k {
        0 => Rgb(255, 255, 200),
        1 => Rgb(255, 240, 191),
        2 => Rgb(255, 225, 182),
        3 => Rgb(255, 210, 173),
        4 => Rgb(255, 195, 164),
        5 => Rgb(255, 180, 155),
        6 => Rgb(255, 165, 146),
        7 => Rgb(255, 150, 137),
        8 => Rgb(255, 135, 128),
        9 => Rgb(255, 120, 119),
        10 => Rgb(255, 105, 110),
        11 => Rgb(255, 90, 101),
        12 => Rgb(255, 75, 92),
        13 => Rgb(255, 60, 83),
        14 => Rgb(255, 45, 74),
        15 => Rgb(255, 40, 65),
        16 => Rgb(255, 40, 56),
        17 => Rgb(255, 40, 47),
        _ => Rgb(255, 40, 38),
    }
}

pub open spec fn logo(k: int) -> Seq<OutView> {
    seq![
        OutView::Fg(logo_color(k)),
        OutView::Text(text::left(logo_text(k), 36) + "  "@),
        OutView::Reset,
    ]
}

fn about_logo(v: &mut Vec<Out>, k: usize)
    ensures
        outs(final(v)@) == outs(old(v)@) + logo(k as int),
{
    let ghost before = outs(v@);
    put(v, Out::Fg(logo_rgb(k)));
    let mut t: Vec<char> = Vec::new();
    push_left(&mut t, &chars_of(logo_str(k)), 36);
    push_str(&mut t, "  ");
    assert(t@ =~= text::left(logo_text(k as int), 36) + "  "@);
    put(v, Out::Text(t));
    put(v, Out::Reset);
    assert(outs(v@) =~= before + logo(k as int));
}

/// A line of the logo, a name and a value.
pub open spec fn row(k: int, name: Seq<char>, value: Seq<char>) -> Seq<OutView> {
    logo(k) + seq![
        OutView::Fg(accent()),
        OutView::Text(text::right(name, 10)),
        OutView::Text(": "@),
        OutView::Reset,
        line(value),
    ]
}

fn about_row(v: &mut Vec<Out>, k: usize, name: &str, value: Vec<char>)
    ensures
        outs(final(v)@) == outs(old(v)@) + row(k as int, name@, value@),
{
    let ghost before = outs(v@);
    about_logo(v, k);
    put(v, Out::Fg(accent()));
    let mut t: Vec<char> = Vec::new();
    push_right(&mut t, &chars_of(name), 10);
    assert(t@ =~= text::right(name@, 10));
    put(v, Out::Text(t));
    put(v, Out::Text(chars_of(": ")));
    put(v, Out::Reset);
    put_line(v, value);
    assert(outs(v@) =~= before + row(k as int, name@, value@));
}

pub open spec fn uptime_text(secs: nat) -> Seq<char> {
    if secs >= 3600 {
        text::dec(secs / 3600) + "h "@ + text::dec(secs % 3600 / 60) + "m"@
    } else if secs >= 60 {
        text::dec(secs / 60) + "m "@ + text::dec(secs % 60) + "s"@
    } else {
        text::dec(secs) + "s"@
    }
}

fn show_uptime(secs: u64) -> (v: Vec<char>)
    ensures
        v@ == uptime_text(secs as nat),
{
    if secs >= 3600 {
        let mut v = text::dec_of(secs / 3600);
        push_str(&mut v, "h ");
        push_dec(&mut v, secs % 3600 / 60);
        push_str(&mut v, "m");
        v
    } else if secs >= 60 {
        let mut v = text::dec_of(secs / 60);
        push_str(&mut v, "m ");
        push_dec(&mut v, secs % 60);
        push_str(&mut v, "s");
        v
    } else {
        let mut v = text::dec_of(secs);
        push_str(&mut v, "s");
        v
    }
}

/// A text without the zeros, and where asked the spaces, at its end.
pub open spec fn trimmed(s: Seq<char>, spaces: bool) -> Seq<char>
    decreases s.len(),
{
    if s.len() > 0 && (s.last() == '\0' || (spaces && s.last() == ' ')) {
        trimmed(s.drop_last(), spaces)
    } else {
        s
    }
}

fn trim_end(s: &[char], spaces: bool) -> (v: Vec<char>)
    ensures
        v@ == trimmed(s@, spaces),
{
    let mut n: usize = s.len();
    assert(s@.take(n as int) =~= s@);
    while n > 0 && (s[n - 1] == '\0' || (spaces && s[n - 1] == ' '))
        invariant
            n <= s@.len(),
            trimmed(s@, spaces) == trimmed(s@.take(n as int), spaces),
        decreases n,
    {
        assert(s@.take(n as int).drop_last() =~= s@.take(n - 1));
        n -= 1;
    }
    assert(s@.subrange(0, n as int) =~= s@.take(n as int));
    copy_chars(&s[0..n])
}

/// The brand as text.
pub open spec fn brand_text(brand: Seq<u8>) -> Seq<char> {
    if vstd::utf8::valid_utf8(brand) {
        trimmed(vstd::utf8::decode_utf8(brand), true)
    } else {
        Seq::empty()
    }
}

/// The processor: its brand, or its vendor and model where it has none.
pub open spec fn cpu_text(sys: System) -> Seq<char> {
    let b = brand_text(sys.brand@);
    if b.len() > 0 {
        b
    } else {
        trimmed(boot::vendor_text(sys.vendor@), false) + " (model 0x"@ + text::hex(
            sys.model as nat,
            0,
        ) + ")"@
    }
}

fn show_cpu(sys: &System) -> (v: Vec<char>)
    ensures
        v@ == cpu_text(*sys),
{
    let b = match text::from_utf8(&sys.brand) {
        Some(s) => trim_end(&chars_of(&s), true),
        None => {
            let none: Vec<char> = Vec::new();
            assert(none@ =~= Seq::<char>::empty());
            none
        },
    };
    if b.len() > 0 {
        return b;
    }
    let mut v = trim_end(&boot::show_vendor(&sys.vendor), false);
    push_str(&mut v, " (model 0x");
    push_hex(&mut v, sys.model as u64, 0);
    push_str(&mut v, ")");
    v
}

/// The capacity of the first `n` devices, held at the largest number.
pub open spec fn total_mb(s: Seq<AtaDevice>, n: int) -> u64
    decreases n,
{
    if n <= 0 {
        0
    } else {
        let before = total_mb(s, n - 1);
        if !s[n - 1].present {
            before
        } else if before + s[n - 1].capacity_mb > u64::MAX {
            u64::MAX
        } else {
            (before + s[n - 1].capacity_mb) as u64
        }
    }
}

fn sum_mb(t: &Devices) -> (mb: u64)
    requires
        t.wf(),
    ensures
        mb == total_mb(t.slots@, 8),
{
    let mut mb: u64 = 0;
    let mut i: usize = 0;
    while i < 8
        invariant
            t.wf(),
            i <= 8,
            mb == total_mb(t.slots@, i as int),
        decreases 8 - i,
    {
        if t.slots[i].present {
            mb = mb.saturating_add(t.slots[i].capacity_mb);
        }
        i += 1;
    }
    mb
}

pub open spec fn resolution_text(sys: System) -> Seq<char> {
    match sys.fb {
        Some(i) => text::dec(i.width as nat) + "x"@ + text::dec(i.height as nat),
        None => "unknown"@,
    }
}

/// The lines of the logo from `k` on, with nothing beside them.
pub open spec fn bare_logo(k: int) -> Seq<OutView>
    decreases 19 - k,
{
    if k >= 19 {
        Seq::empty()
    } else {
        logo(k) + seq![line(""@)] + bare_logo(k + 1)
    }
}

pub open spec fn solarfetch(sys: System, user: Seq<char>, layout: KbdLayout) -> Seq<OutView> {
    logo(0) + seq![OutView::Fg(accent()), line(user + "@solaros"@)] + logo(1) + seq![
        OutView::Fg(accent()),
        line("----------------"@),
    ] + row(2, "OS"@, "SolarOS 26.1 x86_64"@) + row(3, "Kernel"@, "solarcore 1.0"@) + row(
        4,
        "Uptime"@,
        uptime_text(sys.ticks as nat / 1000),
    ) + row(5, "CPU"@, cpu_text(sys)) + row(
        6,
        "Memory"@,
        text::dec(sys.usable_mb as nat) + " MB"@,
    ) + row(7, "Resolution"@, resolution_text(sys)) + row(
        8,
        "Disks"@,
        text::dec(sys.devices.count as nat) + " devices ("@ + text::dec(
            total_mb(sys.devices.slots@, 8) as nat,
        ) + " MB)"@,
    ) + row(9, "Keyboard"@, settings::code_of(layout)) + row(10, "Terminal"@, "tty"@) + bare_logo(
        11,
    )
}

pub(crate) fn cmd_solarfetch(sys: &System, user: &[char], s: &Settings) -> (v: Vec<Out>)
    requires
        sys.wf(),
    ensures
        outs(v@) == solarfetch(*sys, user@, s.layout),
{
    let mut v = nothing();
    about_logo(&mut v, 0);
    put(&mut v, Out::Fg(accent()));
    let mut l = copy_chars(user);
    push_str(&mut l, "@solaros");
    put_line(&mut v, l);
    assert(outs(v@) =~= logo(0) + seq![OutView::Fg(accent()), line(user@ + "@solaros"@)]);
    let ghost a = outs(v@);
    about_logo(&mut v, 1);
    put(&mut v, Out::Fg(accent()));
    put_str(&mut v, "----------------");
    assert(outs(v@) =~= a + logo(1) + seq![OutView::Fg(accent()), line("----------------"@)]);
    about_row(&mut v, 2, "OS", chars_of("SolarOS 26.1 x86_64"));
    about_row(&mut v, 3, "Kernel", chars_of("solarcore 1.0"));
    about_row(&mut v, 4, "Uptime", show_uptime(sys.ticks / 1000));
    about_row(&mut v, 5, "CPU", show_cpu(sys));
    let mut m = text::dec_of(sys.usable_mb);
    push_str(&mut m, " MB");
    about_row(&mut v, 6, "Memory", m);
    let res = match sys.fb {
        Some(i) => {
            let mut r = text::dec_of(i.width as u64);
            push_str(&mut r, "x");
            push_dec(&mut r, i.height as u64);
            r
        },
        None => chars_of("unknown"),
    };
    about_row(&mut v, 7, "Resolution", res);
    let mut d = text::dec_of(sys.devices.count as u64);
    push_str(&mut d, " devices (");
    push_dec(&mut d, sum_mb(&sys.devices));
    push_str(&mut d, " MB)");
    about_row(&mut v, 8, "Disks", d);
    about_row(&mut v, 9, "Keyboard", chars_of(settings::layout_code(s)));
    about_row(&mut v, 10, "Terminal", chars_of("tty"));
    let ghost head = outs(v@);
    let mut k: usize = 11;
    assert(outs(v@) + bare_logo(11) == head + bare_logo(11));
    while k < 19
        invariant
            11 <= k <= 19,
            outs(v@) + bare_logo(k as int) == head + bare_logo(11),
        decreases 19 - k,
    {
        let ghost before = outs(v@);
        about_logo(&mut v, k);
        put_str(&mut v, "");
        k += 1;
        assert(outs(v@) + bare_logo(k as int) =~= before + (logo(k - 1) + seq![line(""@)]
            + bare_logo(k as int)));
    }
    assert(outs(v@) =~= head + bare_logo(11));
    v
}

// ---------- laws ----------

/// A number that is typed in decimal is the number that is read.
pub proof fn typed_number_is_read(n: nat)
    requires
        n <= u64::MAX,
    ensures
        digits(text::dec(n)) == Some(n as u64),
    decreases n,
{
    let s = text::dec(n);
    if n < 10 {
        assert(s.drop_last() =~= Seq::<char>::empty());
        assert(digits(s.drop_last()) == Some(0u64));
    } else {
        typed_number_is_read(n / 10);
        assert(s.drop_last() =~= text::dec(n / 10));
        assert(s.last() == text::digit(n % 10));
    }
}

/// What is no number is not read as one.
pub proof fn other_text_is_no_number(s: Seq<char>, k: int)
    requires
        0 <= k < s.len(),
        !('0' <= s[k] <= '9'),
    ensures
        digits(s) is None,
    decreases s.len(),
{
    if k < s.len() - 1 {
        assert(s.drop_last()[k] == s[k]);
        other_text_is_no_number(s.drop_last(), k);
    }
}

/// The time since the start is told in hours and minutes, in minutes and seconds,
/// or in seconds: the parts add up to it, to the minute where there are hours.
pub proof fn uptime_adds_up(h: nat, m: nat, s: nat)
    requires
        m < 60,
        s < 60,
    ensures
        ({
            let t = uptime_text(3600 * h + 60 * m + s);
            &&& h > 0 ==> t == text::dec(h) + "h "@ + text::dec(m) + "m"@
            &&& h == 0 && m > 0 ==> t == text::dec(m) + "m "@ + text::dec(s) + "s"@
            &&& h == 0 && m == 0 ==> t == text::dec(s) + "s"@
        }),
{
}

} // verus!
