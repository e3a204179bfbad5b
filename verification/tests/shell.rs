use solaros::ata::{set_device, AtaDevice, Devices};
use solaros::boot;
use solaros::commands::accounts::{answer, Prompt};
use solaros::commands::{execute, parse_args, Shell, System};
use solaros::cpu::{cpu_brand, cpu_model, cpu_vendor, CpuIdResult};
use solaros::disk::Disk;
use solaros::framebuffer;
use solaros::framebuffer::{Console, Font, FrameBufferInfo, PixelFormat, Rgb};
use solaros::fs::{Fs, FsErr};
use solaros::mem::{MemoryRegion, RegionKind};
use solaros::ps2::Ps2InitReport;
use solaros::settings::{KbdLayout, Settings};
use solaros::tty::{Out, Tty};
use solaros::users;
use solaros::users::{UserErr, Users};

fn chars(s: &str) -> Vec<char> {
    s.chars().collect()
}

fn text(v: &[char]) -> String {
    v.iter().collect()
}

fn shown(v: &[Out]) -> String {
    let mut r = String::new();
    for o in v {
        if let Out::Text(t) = o {
            r.push_str(&text(t));
        }
    }
    r
}

fn devices() -> Devices {
    let mut t = Devices::new();
    let mut d = AtaDevice::absent();
    d.present = true;
    d.sectors = 70000;
    d.capacity_mb = 34;
    set_device(&mut t, 1, d);
    t
}

fn shell() -> (Shell, System) {
    let t = devices();
    let fs = Fs::new(Disk::blank(70000), &t);
    let mut users = Users::new();
    users::init(&mut users);
    let sys = System {
        devices: t,
        pci: vec![],
        vendor: b"GenuineIntel".to_vec(),
        brand: b"Test CPU".to_vec(),
        model: 6,
        usable_mb: 512,
        fb: None,
        ticks: 65_000,
    };
    (Shell { fs, users, settings: Settings::new() }, sys)
}

fn run(sh: &mut Shell, sys: &System, line: &str) -> String {
    let (out, prompt) = execute(sh, sys, &chars(line));
    assert!(prompt.is_none());
    shown(&out)
}

// ---------- commands ----------

#[test]
fn lines_are_split_into_words() {
    let w: Vec<String> = parse_args(&chars("  echo\t one  two ")).iter().map(|a| text(a)).collect();
    assert_eq!(w, ["echo", "one", "two"]);
    assert!(parse_args(&chars(" \t ")).is_empty());
    assert_eq!(parse_args(&chars("a b c d e f g h i j")).len(), 8);
    let long: String = "x".repeat(70);
    assert_eq!(parse_args(&chars(&long))[0].len(), 64);
}

#[test]
fn small_commands() {
    let (mut sh, sys) = shell();
    assert_eq!(run(&mut sh, &sys, ""), "");
    assert_eq!(run(&mut sh, &sys, "echo  hello  world"), "hello  world\n");
    assert_eq!(run(&mut sh, &sys, "version"), "SolarOS 26.1\n");
    assert_eq!(run(&mut sh, &sys, "count 3"), "1\n2\n3\n");
    assert_eq!(run(&mut sh, &sys, "count 0"), "Counting to 0 is too long! (try 1-100)\n");
    assert_eq!(run(&mut sh, &sys, "count x"), "Error: enter a number.\n");
    assert_eq!(
        run(&mut sh, &sys, "nothing"),
        "Unknown command: 'nothing'. Type 'help' for a list of commands.\n"
    );
    assert_eq!(run(&mut sh, &sys, "whoami"), "root\n");
    assert_eq!(run(&mut sh, &sys, "pwd"), "/\n");
    assert!(run(&mut sh, &sys, "help").contains("mkfs"));
    assert!(run(&mut sh, &sys, "status").contains("  Uptime        : 65 seconds\n"));
    assert!(run(&mut sh, &sys, "status").contains("  Command count : 29\n"));
    assert!(run(&mut sh, &sys, "solarfetch").contains("Test CPU"));
    let (out, _) = execute(&mut sh, &sys, &chars("clear"));
    assert!(matches!(out[0], Out::Clear));
}

#[test]
fn keyboard_layout_is_chosen() {
    let (mut sh, sys) = shell();
    assert!(sh.settings.layout == KbdLayout::TurkishQ);
    run(&mut sh, &sys, "loadkeys QWERTY");
    assert!(sh.settings.layout == KbdLayout::Us);
    run(&mut sh, &sys, "loadkeys nope");
    assert!(sh.settings.layout == KbdLayout::Us);
}

#[test]
fn file_commands() {
    let (mut sh, sys) = shell();
    assert!(run(&mut sh, &sys, "ls").starts_with("ls: "));
    assert_eq!(run(&mut sh, &sys, "mkfs"), "mkfs: data disk formatted as FAT32\n");
    assert!(run(&mut sh, &sys, "ls").contains("etc <DIR>"));
    assert_eq!(run(&mut sh, &sys, "cd home"), "");
    assert_eq!(run(&mut sh, &sys, "pwd"), "/home\n");
    assert_eq!(run(&mut sh, &sys, "mkdir docs"), "");
    assert_eq!(run(&mut sh, &sys, "touch docs/a"), "");
    assert_eq!(run(&mut sh, &sys, "mv docs/a b"), "");
    assert!(run(&mut sh, &sys, "ls").contains("b file          0"));
    assert_eq!(run(&mut sh, &sys, "rm b"), "");
    assert_eq!(run(&mut sh, &sys, "rmdir docs"), "");
    assert!(run(&mut sh, &sys, "cat nothere").starts_with("cat: "));
    assert!(run(&mut sh, &sys, "rm").contains("Usage"));
}

#[test]
fn pattern_test_verifies() {
    let (mut sh, sys) = shell();
    run(&mut sh, &sys, "mkfs");
    assert_eq!(run(&mut sh, &sys, "wtest /tmp/p 5000"), "wtest: wrote 5000 bytes to /tmp/p\n");
    assert_eq!(run(&mut sh, &sys, "wtest /tmp/p verify"), "wtest: verify OK (5000 bytes)\n");
    assert_eq!(run(&mut sh, &sys, "wtest /tmp/p 0"), "wtest: size must be > 0\n");
    assert_eq!(run(&mut sh, &sys, "wtest /tmp/p 12x"), "wtest: invalid size\n");
    assert_eq!(
        run(&mut sh, &sys, "wtest /tmp/p 4194305"),
        "wtest: size must be <= 4194304\n"
    );
    run(&mut sh, &sys, "touch /tmp/q");
    assert_eq!(run(&mut sh, &sys, "wtest /tmp/q verify"), "wtest: verify OK (0 bytes)\n");
}

// ---------- accounts ----------

fn typed(s: &str) -> Option<(Vec<char>, usize)> {
    let mut line = vec!['\0'; 64];
    let c = chars(s);
    line[..c.len()].copy_from_slice(&c);
    Some((line, c.len()))
}

#[test]
fn accounts_and_passwords() {
    let (mut sh, sys) = shell();
    run(&mut sh, &sys, "mkfs");
    assert_eq!(run(&mut sh, &sys, "adduser ada"), "user 'ada' added with uid 1000\n");
    assert_eq!(run(&mut sh, &sys, "adduser ada"), "adduser: user already exists\n");
    assert!(run(&mut sh, &sys, "users").contains("ada uid=1000"));
    let (out, p) = execute(&mut sh, &sys, &chars("passwd ada"));
    assert_eq!(shown(&out), "New password: ");
    let (out, p) = answer(&mut sh.users, &mut sh.fs, p.unwrap(), typed("secret"));
    assert_eq!(shown(&out), "Repeat password: ");
    let (out, p) = answer(&mut sh.users, &mut sh.fs, p.unwrap(), typed("secret"));
    assert_eq!(shown(&out), "passwd: password updated\n");
    assert!(p.is_none());
    let (out, p) = execute(&mut sh, &sys, &chars("login ada"));
    assert_eq!(shown(&out), "Password: ");
    let (out, _) = answer(&mut sh.users, &mut sh.fs, p.unwrap(), typed("wrong"));
    assert_eq!(shown(&out), "login: authentication failure\n");
    let (out, _) = answer(&mut sh.users, &mut sh.fs, Prompt::LoginPassword(1), typed("secret"));
    assert_eq!(shown(&out), "logged in as ada\n");
    assert_eq!(run(&mut sh, &sys, "whoami"), "ada\n");
    // the accounts survive a restart
    let mut again = Users::new();
    users::init(&mut again);
    users::load_from_fs(&mut again, &mut sh.fs);
    let i = users::find(&again, &chars("ada")).unwrap();
    assert_eq!(users::user_uid(&again, i), 1000);
    assert!(users::has_password(&again, i));
    assert!(users::check_password(&again, i, &chars("secret")));
    assert!(!users::check_password(&again, i, &chars("secre")));
    assert_eq!(run(&mut sh, &sys, "login root"), "logged in as root\n");
}

#[test]
fn account_errors() {
    let (mut sh, _) = shell();
    let bad = users::add_user(&mut sh.users, &mut sh.fs, &chars("a:b"));
    assert_eq!(bad, Err(UserErr::BadName));
    for k in 0..15 {
        let name = format!("u{}", k);
        assert!(users::add_user(&mut sh.users, &mut sh.fs, &chars(&name)).is_ok());
    }
    assert_eq!(users::count(&sh.users), 16);
    let full = users::add_user(&mut sh.users, &mut sh.fs, &chars("more"));
    assert_eq!(full, Err(UserErr::Full));
    let long = "p".repeat(33);
    assert_eq!(
        users::set_password(&mut sh.users, &mut sh.fs, 1, &chars(&long)),
        Err(UserErr::PassTooLong)
    );
    assert_eq!(users::err_str(UserErr::Full), "user table is full");
    let (out, p) = answer(&mut sh.users, &mut sh.fs, Prompt::NewPassword(0), None);
    assert_eq!(shown(&out), "passwd: cancelled\n");
    assert!(p.is_none());
}

// ---------- the console ----------

fn info(w: usize, h: usize) -> FrameBufferInfo {
    FrameBufferInfo {
        width: w,
        height: h,
        bytes_per_pixel: 4,
        stride: w,
        pixel_format: PixelFormat::Bgr,
    }
}

fn console(w: usize, h: usize) -> Console {
    let mut table = vec![0u8; 16 * 128];
    for c in 33..127 {
        table[16 * c + 3] = c as u8;
    }
    let mut con = Console::empty(Font { table });
    framebuffer::init(&mut con, vec![0u8; w * h * 4], info(w, h));
    con
}

fn pixel(con: &Console, w: usize, x: usize, y: usize) -> [u8; 3] {
    let o = 4 * (y * w + x);
    [con.buffer[o], con.buffer[o + 1], con.buffer[o + 2]]
}

#[test]
fn nothing_is_drawn_in_grey() {
    let grey = FrameBufferInfo { bytes_per_pixel: 1, pixel_format: PixelFormat::U8, ..info(80, 64) };
    let mut con = Console::empty(Font { table: vec![255u8; 16 * 128] });
    framebuffer::init(&mut con, vec![9u8; 80 * 64], grey);
    con.write_char('A');
    assert!(con.buffer.iter().all(|b| *b == 9));
}

#[test]
fn glyphs_are_drawn() {
    let mut con = console(80, 64);
    con.write_char('A');
    // 'A' is 0x41: the second and the last column of row 3 are lit
    assert_eq!(pixel(&con, 80, 1, 3), [255, 232, 226]);
    assert_eq!(pixel(&con, 80, 7, 3), [255, 232, 226]);
    assert_eq!(pixel(&con, 80, 0, 3), [28, 12, 10]);
    framebuffer::set_fg(&mut con, Rgb(1, 2, 3));
    con.write_char('A');
    assert_eq!(pixel(&con, 80, 9, 3), [3, 2, 1]);
    framebuffer::backspace(&mut con);
    assert_eq!(pixel(&con, 80, 9, 3), [28, 12, 10]);
    framebuffer::reset_colors(&mut con);
    con.write_str(&chars("\u{11f}"));
    assert_eq!(pixel(&con, 80, 8, 5), [255, 232, 226]);
    framebuffer::clear(&mut con);
    assert_eq!(pixel(&con, 80, 1, 3), [28, 12, 10]);
    assert_eq!(framebuffer::info(&con), Some(info(80, 64)));
}

#[test]
fn scrollback_pages() {
    let mut con = console(80, 64);
    for k in 0..20 {
        con.write_str(&chars(&format!("{}\n", k)));
    }
    let end = con.buffer.clone();
    framebuffer::tty_page_up(&mut con);
    let up = con.buffer.clone();
    assert!(up != end);
    framebuffer::tty_page_down(&mut con);
    assert!(con.buffer == end);
    framebuffer::tty_home(&mut con);
    // the first row shows '0' again
    assert_eq!(pixel(&con, 80, 2, 3), [255, 232, 226]);
    framebuffer::tty_end(&mut con);
    assert!(con.buffer == end);
}

#[test]
fn terminal_prints_to_both() {
    let mut t = Tty { con: console(80, 64), serial: vec![] };
    t.print(&chars("hi\n"));
    t.show(&vec![Out::Text(chars("there"))]);
    assert_eq!(text(&t.serial), "hi\nthere");
}

// ---------- boot ----------

#[test]
fn boot_lines() {
    let r = vec![
        MemoryRegion { start: 0, end: 0x10_0000, kind: RegionKind::Usable },
        MemoryRegion { start: 0x10_0000, end: 0x20_0000, kind: RegionKind::Bootloader },
        MemoryRegion { start: 0x20_0000, end: 0x80_0000, kind: RegionKind::Usable },
    ];
    assert_eq!(boot::usable_mem_mb(&r), 7);
    assert!(text(&boot::memory_line(7, &r)).contains("7 MB"));
    assert!(text(&boot::region_line(1, &r[1])).contains("Bootloader"));
    assert!(boot::ps2_line(&Ps2InitReport { controller_ok: true, device_ok: true }).good);
    assert!(!boot::ps2_line(&Ps2InitReport { controller_ok: false, device_ok: false }).good);
    assert!(!boot::framebuffer_line(None).good);
    assert!(boot::framebuffer_line(Some(info(80, 64))).good);
    assert!(boot::fs_line(Ok(()), "ext4", 2).good);
    assert!(!boot::fs_line(Err(FsErr::NoDevice), "", 0).good);
    assert_eq!(text(&boot::show_vendor(b"Genuine")), "Genuine");
    assert_eq!(boot::disk_lines(&devices()).iter().filter(|e| e.good).count(), 2);
    assert!(shown(&boot::ok(chars("ready"))).contains("OK"));
    assert!(shown(&boot::fail(chars("lost"))).contains("FAIL"));
    assert!(shown(&boot::info(chars("note"))).contains("note"));
}

#[test]
fn processor_names() {
    let id = |eax: u32, ebx: u32, ecx: u32, edx: u32| CpuIdResult { eax, ebx, ecx, edx };
    let le = |s: &[u8]| u32::from_le_bytes([s[0], s[1], s[2], s[3]]);
    let v = cpu_vendor(&id(0, le(b"Genu"), le(b"ntel"), le(b"ineI")));
    assert_eq!(&v[..12], b"GenuineIntel");
    let part = id(le(b"ABCD"), le(b"EFGH"), le(b"IJKL"), le(b"MNOP"));
    let b = cpu_brand(0x8000_0004, &part, &part, &part);
    assert_eq!(&b[..16], b"ABCDEFGHIJKLMNOP");
    assert_ne!(cpu_model(&id(0x0006_06A1, 0, 0, 0)), 0);
}
