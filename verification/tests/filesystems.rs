use solaros::ata::{set_device, AtaDevice, Devices};
use solaros::disk::Disk;
use solaros::fs::{
    cat, cd, err_str, fs_name, ls, mkdir, mkfs, mkfs_ext4, mount, mounted, mv, pwd, read_file, rm,
    rmdir, touch, write_file, Fs, FsErr,
};
use solaros::users;
use solaros::users::Users;

fn chars(s: &str) -> Vec<char> {
    s.chars().collect()
}

fn text(v: &[char]) -> String {
    v.iter().collect()
}

fn volume(sectors: usize) -> Fs {
    let mut devices = Devices::new();
    let mut d = AtaDevice::absent();
    d.present = true;
    d.sectors = sectors as u64;
    set_device(&mut devices, 1, d);
    Fs::new(Disk::blank(sectors), &devices)
}

fn fat_volume() -> Fs {
    let mut f = volume(70000);
    assert_eq!(mkfs(&mut f), Ok(()));
    f
}

fn ext4_volume() -> Fs {
    let mut f = volume(65536);
    assert_eq!(mkfs_ext4(&mut f), Ok(()));
    f
}

fn pattern(n: usize) -> Vec<u8> {
    (0..n).map(|k| (k * 7 + k / 251) as u8).collect()
}

fn read_all(f: &Fs, path: &str, room: usize) -> Result<Vec<u8>, FsErr> {
    let mut out = vec![0u8; room];
    let n = read_file(f, &chars(path), &mut out)?;
    out.truncate(n);
    Ok(out)
}

fn names(f: &Fs, path: &str) -> Vec<(String, bool, Option<u64>)> {
    let (list, r) = ls(f, &chars(path));
    assert_eq!(r, Ok(()));
    list.iter().map(|l| (text(&l.name), l.is_dir, l.size)).collect()
}

// ---------- FAT32 ----------

#[test]
fn fresh_fat_volume_has_the_seed_directories() {
    let f = fat_volume();
    assert!(mounted(&f));
    assert_eq!(fs_name(&f), "FAT32");
    let list: Vec<String> = names(&f, "/").into_iter().map(|(n, _, _)| n).collect();
    assert_eq!(list, ["etc", "root", "home", "usr", "boot", "tmp"]);
    assert_eq!(text(&pwd(&f)), "/");
}

#[test]
fn fat_file_reads_back() {
    let mut f = fat_volume();
    for n in [0usize, 1, 511, 512, 513, 4096, 65536] {
        let data = pattern(n);
        assert_eq!(write_file(&mut f, &chars("/tmp/data.bin"), &data), Ok(()));
        assert_eq!(read_all(&f, "/tmp/data.bin", 70000), Ok(data));
    }
    assert_eq!(read_all(&f, "/tmp/data.bin", 10), Ok(pattern(65536)[..10].to_vec()));
    assert_eq!(names(&f, "/tmp"), [("data.bin".to_string(), false, Some(65536))]);
}

#[test]
fn fat_files_do_not_disturb_each_other() {
    let mut f = fat_volume();
    assert_eq!(write_file(&mut f, &chars("/a.txt"), b"first"), Ok(()));
    assert_eq!(write_file(&mut f, &chars("/b.txt"), &pattern(3000)), Ok(()));
    assert_eq!(write_file(&mut f, &chars("/a.txt"), &pattern(2000)), Ok(()));
    assert_eq!(read_all(&f, "/b.txt", 4096), Ok(pattern(3000)));
    assert_eq!(read_all(&f, "/A.TXT", 4096), Ok(pattern(2000)));
    assert_eq!(rm(&mut f, &chars("/b.txt")), Ok(()));
    assert_eq!(read_all(&f, "/a.txt", 4096), Ok(pattern(2000)));
    assert_eq!(read_all(&f, "/b.txt", 4096), Err(FsErr::NotFound));
}

#[test]
fn fat_directory_grows_past_its_cluster() {
    let mut f = fat_volume();
    assert_eq!(mkdir(&mut f, &chars("/many")), Ok(()));
    for k in 0..40 {
        let path = format!("/many/f{}.d", k);
        assert_eq!(write_file(&mut f, &chars(&path), &pattern(k)), Ok(()));
    }
    assert_eq!(names(&f, "/many").len(), 40);
    for k in 0..40 {
        let path = format!("/many/../many/./f{}.d", k);
        assert_eq!(read_all(&f, &path, 100), Ok(pattern(k)));
    }
    assert_eq!(rmdir(&mut f, &chars("/many")), Err(FsErr::NotEmpty));
}

#[test]
fn fat_errors() {
    let mut f = fat_volume();
    assert_eq!(write_file(&mut f, &chars("/toolongname.txt"), b"x"), Err(FsErr::BadName));
    assert_eq!(write_file(&mut f, &chars("/x.long"), b"x"), Err(FsErr::BadName));
    assert_eq!(write_file(&mut f, &chars("/big"), &vec![0; 65537]), Err(FsErr::TooBig));
    assert_eq!(mkdir(&mut f, &chars("/etc")), Err(FsErr::Exists));
    assert_eq!(rm(&mut f, &chars("/etc")), Err(FsErr::IsDir));
    assert_eq!(rmdir(&mut f, &chars("/none")), Err(FsErr::NotFound));
    assert_eq!(touch(&mut f, &chars("/note")), Ok(()));
    assert_eq!(touch(&mut f, &chars("/note")), Ok(()));
    assert_eq!(rmdir(&mut f, &chars("/note")), Err(FsErr::NotDir));
    assert_eq!(mkdir(&mut f, &chars("/note/sub")), Err(FsErr::NotDir));
    assert_eq!(read_all(&f, "/etc", 10), Err(FsErr::IsDir));
    assert_eq!(read_all(&f, "/note", 10), Ok(vec![]));
}

#[test]
fn fat_rename_and_current_directory() {
    let mut f = fat_volume();
    assert_eq!(cd(&mut f, &chars("home")), Ok(()));
    assert_eq!(text(&pwd(&f)), "/home");
    assert_eq!(mkdir(&mut f, &chars("docs")), Ok(()));
    assert_eq!(cd(&mut f, &chars("docs")), Ok(()));
    assert_eq!(text(&pwd(&f)), "/home/docs");
    assert_eq!(write_file(&mut f, &chars("one"), b"hello\n"), Ok(()));
    assert_eq!(mv(&mut f, &chars("one"), &chars("/home/two")), Ok(()));
    assert_eq!(read_all(&f, "one", 10), Err(FsErr::NotFound));
    assert_eq!(read_all(&f, "../two", 10), Ok(b"hello\n".to_vec()));
    assert_eq!(write_file(&mut f, &chars("one"), b"1"), Ok(()));
    assert_eq!(mv(&mut f, &chars("one"), &chars("../two")), Err(FsErr::Exists));
    assert_eq!(cd(&mut f, &chars("../..")), Ok(()));
    assert_eq!(text(&pwd(&f)), "/");
    assert_eq!(cd(&mut f, &chars("..")), Ok(()));
    assert_eq!(text(&pwd(&f)), "/");
    assert_eq!(cd(&mut f, &chars("nowhere")), Err(FsErr::NotFound));
    assert_eq!(cd(&mut f, &chars("/home/two")), Err(FsErr::NotDir));
}

#[test]
fn fat_clusters_are_given_back() {
    let mut f = fat_volume();
    let data = pattern(3000);
    let mut places: Vec<Vec<u64>> = Vec::new();
    for _ in 0..2 {
        f.disk.forget_writes();
        assert_eq!(write_file(&mut f, &chars("/f"), &data), Ok(()));
        places.push((0..f.disk.write_count()).map(|k| f.disk.issued(k).0).collect());
        assert_eq!(rm(&mut f, &chars("/f")), Ok(()));
    }
    assert_eq!(places[0], places[1]);
    assert_eq!(read_all(&f, "/f", 10), Err(FsErr::NotFound));
}

#[test]
fn fat_cat_shows_question_marks_for_control_bytes() {
    let mut f = fat_volume();
    assert_eq!(write_file(&mut f, &chars("/t"), b"ok\x01\xFF!"), Ok(()));
    let (shown, r) = cat(&f, &chars("/t"));
    assert_eq!(r, Ok(()));
    assert_eq!(text(&shown), "ok??!");
}

#[test]
fn fat_mount_finds_the_volume_again() {
    let mut f = fat_volume();
    assert_eq!(write_file(&mut f, &chars("/root/keep"), b"kept"), Ok(()));
    assert_eq!(mount(&mut f), Ok(()));
    assert_eq!(read_all(&f, "/root/keep", 10), Ok(b"kept".to_vec()));
}

#[test]
fn small_disks_are_refused() {
    let mut f = volume(69999);
    assert_eq!(mkfs(&mut f), Err(FsErr::NoSpace));
    let mut none = Fs::new(Disk::blank(100), &Devices::new());
    assert_eq!(mkfs(&mut none), Err(FsErr::NoDevice));
    assert_eq!(mount(&mut none), Err(FsErr::NoDevice));
    let mut empty = volume(70000);
    assert_eq!(mount(&mut empty), Err(FsErr::NotFormatted));
    assert_eq!(touch(&mut empty, &chars("/x")), Err(FsErr::NotFormatted));
    assert_eq!(cd(&mut empty, &chars("/")), Err(FsErr::NotFormatted));
}

#[test]
fn unreadable_sectors_are_reported() {
    let mut devices = Devices::new();
    let mut d = AtaDevice::absent();
    d.present = true;
    d.sectors = 70000;
    set_device(&mut devices, 0, d);
    let mut f = Fs::new(Disk::absent(70000), &devices);
    assert_eq!(mount(&mut f), Err(FsErr::Io));
    assert_eq!(mkfs(&mut f), Err(FsErr::Io));
}

#[test]
fn error_words() {
    let all = [
        FsErr::NoDevice,
        FsErr::NotFormatted,
        FsErr::Unsupported,
        FsErr::Io,
        FsErr::NotFound,
        FsErr::NotDir,
        FsErr::IsDir,
        FsErr::Exists,
        FsErr::BadName,
        FsErr::TooBig,
        FsErr::NoSpace,
        FsErr::NotEmpty,
    ];
    for (k, a) in all.iter().enumerate() {
        assert!(!err_str(*a).is_empty());
        for b in &all[k + 1..] {
            assert_ne!(err_str(*a), err_str(*b));
        }
    }
}

// ---------- ext4 ----------

#[test]
fn ext4_file_reads_back() {
    let mut f = ext4_volume();
    assert_eq!(fs_name(&f), "ext4");
    for n in [0usize, 1, 4095, 4096, 4097, 40000] {
        let data = pattern(n);
        assert_eq!(write_file(&mut f, &chars("/data.bin"), &data), Ok(()));
        assert_eq!(read_all(&f, "/data.bin", 70000), Ok(data));
    }
    assert_eq!(read_all(&f, "/data.bin", 10), Ok(pattern(40000)[..10].to_vec()));
}

#[test]
fn ext4_directories() {
    let mut f = ext4_volume();
    assert_eq!(mkdir(&mut f, &chars("/box")), Ok(()));
    assert_eq!(mkdir(&mut f, &chars("/box")), Err(FsErr::Exists));
    for k in 0..60 {
        let path = format!("/box/a file with a long name {}", k);
        assert_eq!(write_file(&mut f, &chars(&path), &pattern(k)), Ok(()));
    }
    for k in 0..60 {
        let path = format!("/box/../box/./a file with a long name {}", k);
        assert_eq!(read_all(&f, &path, 100), Ok(pattern(k)));
    }
    assert_eq!(rmdir(&mut f, &chars("/box")), Err(FsErr::NotEmpty));
    for k in 0..60 {
        let path = format!("/box/a file with a long name {}", k);
        assert_eq!(rm(&mut f, &chars(&path)), Ok(()));
    }
    assert_eq!(rmdir(&mut f, &chars("/box")), Ok(()));
    assert_eq!(cd(&mut f, &chars("/box")), Err(FsErr::NotFound));
}

#[test]
fn ext4_errors() {
    let mut f = ext4_volume();
    assert_eq!(touch(&mut f, &chars("/note")), Ok(()));
    assert_eq!(mkdir(&mut f, &chars("/note/sub")), Err(FsErr::NotDir));
    assert_eq!(rm(&mut f, &chars("/none")), Err(FsErr::NotFound));
    assert_eq!(mkdir(&mut f, &chars("/dir")), Ok(()));
    assert_eq!(rm(&mut f, &chars("/dir")), Err(FsErr::IsDir));
    assert_eq!(rmdir(&mut f, &chars("/note")), Err(FsErr::NotDir));
    assert_eq!(write_file(&mut f, &chars("/dir"), b"x"), Err(FsErr::IsDir));
    assert_eq!(touch(&mut f, &chars("/\u{11f}")), Err(FsErr::BadName));
    let mut small = volume(64);
    assert!(mkfs_ext4(&mut small).is_err());
}

#[test]
fn ext4_rename_keeps_the_data() {
    let mut f = ext4_volume();
    assert_eq!(write_file(&mut f, &chars("/one"), &pattern(5000)), Ok(()));
    assert_eq!(mkdir(&mut f, &chars("/sub")), Ok(()));
    assert_eq!(mv(&mut f, &chars("/one"), &chars("/sub/two")), Ok(()));
    assert_eq!(read_all(&f, "/one", 10), Err(FsErr::NotFound));
    assert_eq!(read_all(&f, "/sub/two", 6000), Ok(pattern(5000)));
}

#[test]
fn ext4_space_comes_back() {
    let mut f = ext4_volume();
    let data = pattern(60000);
    for _ in 0..40 {
        assert_eq!(write_file(&mut f, &chars("/again"), &data), Ok(()));
        assert_eq!(rm(&mut f, &chars("/again")), Ok(()));
    }
    assert_eq!(write_file(&mut f, &chars("/again"), &data), Ok(()));
    assert_eq!(read_all(&f, "/again", 70000), Ok(data));
}

#[test]
fn ext4_mount_finds_the_volume_again() {
    let mut f = ext4_volume();
    assert_eq!(write_file(&mut f, &chars("/keep"), &pattern(9000)), Ok(()));
    assert_eq!(mount(&mut f), Ok(()));
    assert_eq!(fs_name(&f), "ext4");
    assert_eq!(read_all(&f, "/keep", 9000), Ok(pattern(9000)));
}

/// The disk that results if only the first `p` of the last writes arrived.
fn restart(before: &[Vec<u8>], f: &Fs, from: usize, p: usize) -> Fs {
    let n = before.len();
    let mut disk = Disk::absent(n);
    for (l, s) in before.iter().enumerate() {
        disk.provide(l, s);
    }
    for k in from..from + p {
        let (lba, data) = f.disk.issued(k);
        assert!(disk.write(lba, &data));
    }
    let mut devices = Devices::new();
    let mut d = AtaDevice::absent();
    d.present = true;
    d.sectors = n as u64;
    set_device(&mut devices, 1, d);
    Fs::new(disk, &devices)
}

#[test]
fn ext4_command_is_atomic_wherever_the_disk_stops() {
    let mut f = ext4_volume();
    assert_eq!(write_file(&mut f, &chars("/file"), b"before"), Ok(()));
    let before: Vec<Vec<u8>> = (0..65536).map(|l| f.disk.read(l as u64).unwrap()).collect();
    let from = f.disk.write_count();
    assert_eq!(write_file(&mut f, &chars("/file"), b"the text after"), Ok(()));
    let n = f.disk.write_count() - from;
    let mut olds = 0;
    let mut news = 0;
    let step = 1 + n / 40;
    let mut p = 0;
    while p <= n {
        let mut g = restart(&before, &f, from, p);
        assert_eq!(mount(&mut g), Ok(()));
        let got = read_all(&g, "/file", 100).unwrap();
        if got == b"before" {
            assert_eq!(news, 0);
            olds += 1;
        } else {
            assert_eq!(got, b"the text after".to_vec());
            news += 1;
        }
        p += step;
    }
    let mut g = restart(&before, &f, from, n);
    assert_eq!(mount(&mut g), Ok(()));
    assert_eq!(read_all(&g, "/file", 100), Ok(b"the text after".to_vec()));
    assert!(olds > 0 && news > 0);
}

#[test]
fn ext4_torn_transaction_is_not_replayed() {
    let mut f = ext4_volume();
    assert_eq!(write_file(&mut f, &chars("/file"), b"before"), Ok(()));
    let before: Vec<Vec<u8>> = (0..65536).map(|l| f.disk.read(l as u64).unwrap()).collect();
    let from = f.disk.write_count();
    assert_eq!(write_file(&mut f, &chars("/file"), b"after"), Ok(()));
    // the place of the first logged block of the transaction
    let (torn, _) = f.disk.issued(from);
    // everything arrived up to the first block that went home
    let mut last = None;
    for k in from..f.disk.write_count() {
        let (lba, data) = f.disk.issued(k);
        let magic = data[0..4] == [0x98, 0x39, 0x3B, 0xC0];
        if magic && data[4] == 3 {
            last = Some((k, lba));
        }
    }
    let (seal, _) = last.unwrap();
    let mut g = restart(&before, &f, from, seal + 8 - from);
    let mut copy = g.disk.read(torn).unwrap();
    copy[100] ^= 1;
    assert!(g.disk.write(torn, &copy));
    assert_eq!(mount(&mut g), Ok(()));
    assert_eq!(read_all(&g, "/file", 100), Ok(b"before".to_vec()));
}

// ---------- what the commands keep ----------

#[test]
fn fresh_ext4_volume_has_the_seed_directories() {
    let mut f = ext4_volume();
    let list: Vec<String> = names(&f, "/").into_iter().map(|(n, _, _)| n).collect();
    assert_eq!(list, ["etc", "root", "home", "usr", "boot", "tmp"]);
    for d in ["/etc", "/root", "/home", "/usr", "/boot", "/tmp"] {
        let inside: Vec<String> = names(&f, d).into_iter().map(|(n, _, _)| n).collect();
        assert_eq!(inside, [".", ".."]);
        assert_eq!(cd(&mut f, &chars(d)), Ok(()));
        assert_eq!(write_file(&mut f, &chars("here"), &pattern(300)), Ok(()));
        assert_eq!(read_all(&f, "here", 300), Ok(pattern(300)));
        assert_eq!(cd(&mut f, &chars("/")), Ok(()));
        assert_eq!(read_all(&f, &format!("{}/here", d), 300), Ok(pattern(300)));
    }
}

#[test]
fn ext4_files_do_not_disturb_each_other() {
    let mut f = ext4_volume();
    for k in 0..8 {
        assert_eq!(write_file(&mut f, &chars(&format!("/f{}", k)), &pattern(3000 * k)), Ok(()));
    }
    assert_eq!(write_file(&mut f, &chars("/f3"), &pattern(50000)), Ok(()));
    assert_eq!(rm(&mut f, &chars("/f5")), Ok(()));
    for k in 0..8 {
        let want = match k {
            3 => Ok(pattern(50000)),
            5 => Err(FsErr::NotFound),
            _ => Ok(pattern(3000 * k)),
        };
        assert_eq!(read_all(&f, &format!("/f{}", k), 60000), want);
    }
}

#[test]
fn ext4_touch_makes_an_empty_file_once() {
    let mut f = ext4_volume();
    assert_eq!(touch(&mut f, &chars("/note")), Ok(()));
    assert_eq!(read_all(&f, "/note", 10), Ok(vec![]));
    assert_eq!(write_file(&mut f, &chars("/note"), b"text"), Ok(()));
    assert_eq!(touch(&mut f, &chars("/note")), Ok(()));
    assert_eq!(read_all(&f, "/note", 10), Ok(b"text".to_vec()));
}

#[test]
fn ext4_writes_survive_a_full_journal() {
    let mut f = ext4_volume();
    for k in 0..120 {
        let path = chars(&format!("/n{}", k % 7));
        assert_eq!(write_file(&mut f, &path, &pattern(40000 + k)), Ok(()));
        assert_eq!(read_all(&f, &format!("/n{}", k % 7), 41000), Ok(pattern(40000 + k)));
    }
    assert_eq!(mount(&mut f), Ok(()));
    for k in 113..120 {
        assert_eq!(read_all(&f, &format!("/n{}", k % 7), 41000), Ok(pattern(40000 + k)));
    }
}

#[test]
fn going_down_and_up_leads_back() {
    let mut f = ext4_volume();
    assert_eq!(mkdir(&mut f, &chars("/home/user")), Ok(()));
    assert_eq!(cd(&mut f, &chars("/home")), Ok(()));
    assert_eq!(cd(&mut f, &chars("user/..")), Ok(()));
    assert_eq!(text(&pwd(&f)), "/home");
    assert_eq!(cd(&mut f, &chars("user")), Ok(()));
    assert_eq!(text(&pwd(&f)), "/home/user");
    assert_eq!(cd(&mut f, &chars("..")), Ok(()));
    assert_eq!(text(&pwd(&f)), "/home");
}

#[test]
fn fat_files_stay_while_another_is_replaced() {
    let mut f = fat_volume();
    assert_eq!(write_file(&mut f, &chars("/a.txt"), &pattern(3000)), Ok(()));
    assert_eq!(write_file(&mut f, &chars("/b.txt"), &pattern(5000)), Ok(()));
    assert_eq!(write_file(&mut f, &chars("/a.txt"), &pattern(9000)), Ok(()));
    assert_eq!(read_all(&f, "/b.txt", 6000), Ok(pattern(5000)));
    assert_eq!(write_file(&mut f, &chars("/b.txt"), &pattern(10)), Ok(()));
    assert_eq!(read_all(&f, "/a.txt", 10000), Ok(pattern(9000)));
    assert_eq!(read_all(&f, "/b.txt", 100), Ok(pattern(10)));
}

// ---------- what a restart, a new volume and the device do ----------

#[test]
fn ext4_journal_goes_on_behind_its_last_slot() {
    let mut f = ext4_volume();
    let mut k = 0;
    // until the next transaction has no room before the end of the ring
    while f.jbd.as_ref().unwrap().start < 1022 {
        assert!(k < 3000);
        let n = (k * k * 7 + k / 3) % 9;
        assert_eq!(write_file(&mut f, &chars("/file"), &pattern(1 + 4096 * n)), Ok(()));
        k += 1;
    }
    let before: Vec<Vec<u8>> = (0..65536).map(|l| f.disk.read(l as u64).unwrap()).collect();
    let from = f.disk.write_count();
    assert_eq!(write_file(&mut f, &chars("/file"), b"behind the end"), Ok(()));
    let n = f.disk.write_count() - from;
    // the commit block is the last but for the blocks that go home
    let mut sealed = 0;
    for q in from..from + n {
        let data = f.disk.issued(q).1;
        if data[0..4] == [0x98, 0x39, 0x3B, 0xC0] && data[4] == 3 {
            sealed = q - from + 8;
        }
    }
    assert!(sealed > 0 && sealed + 8 < n);
    for p in [sealed, sealed + 3, sealed + 8, n] {
        let mut g = restart(&before, &f, from, p);
        assert_eq!(mount(&mut g), Ok(()));
        assert_eq!(read_all(&g, "/file", 100), Ok(b"behind the end".to_vec()));
    }
    let mut g = restart(&before, &f, from, sealed - 8);
    assert_eq!(mount(&mut g), Ok(()));
    assert_eq!(read_all(&g, "/file", 40000), read_all(&restart_old(&before, &f), "/file", 40000));
}

fn restart_old(before: &[Vec<u8>], f: &Fs) -> Fs {
    let mut g = restart(before, f, 0, 0);
    assert_eq!(mount(&mut g), Ok(()));
    g
}

#[test]
fn ext4_made_again_replays_an_old_record() {
    let mut f = ext4_volume();
    for k in 0..5 {
        assert_eq!(write_file(&mut f, &chars(&format!("/old{}", k)), &pattern(5000)), Ok(()));
    }
    assert_eq!(mkfs_ext4(&mut f), Ok(()));
    // the slots of the journal are as they were
    let list: Vec<String> = names(&f, "/").into_iter().map(|(n, _, _)| n).collect();
    assert_eq!(list[..7], ["etc", "root", "home", "usr", "boot", "tmp", "old0"]);
}

/// The number at a byte of the volume.
fn number(f: &Fs, byte: u64, width: u64) -> u64 {
    let s = f.disk.read(f.base as u64 + byte / 512).unwrap();
    (0..width).map(|k| (s[(byte % 512 + k) as usize] as u64) << (8 * k)).sum()
}

fn clear_bits(f: &Fs, block: u64, bits: u64) -> u64 {
    (0..bits).filter(|b| number(f, 4096 * block + b / 8, 1) >> (b % 8) & 1 == 0).count() as u64
}

fn counts_match(f: &Fs) {
    let blocks = clear_bits(f, 2, number(f, 1024 + 4, 4));
    let inodes = clear_bits(f, 3, 8192);
    assert_eq!((number(f, 1024 + 12, 4), number(f, 4096 + 12, 2)), (blocks, blocks));
    assert_eq!((number(f, 1024 + 16, 4), number(f, 4096 + 14, 2)), (inodes, inodes));
}

#[test]
fn ext4_free_counts_are_the_clear_bits() {
    let mut f = ext4_volume();
    counts_match(&f);
    assert_eq!(mkdir(&mut f, &chars("/d")), Ok(()));
    assert_eq!(write_file(&mut f, &chars("/d/f"), &pattern(50000)), Ok(()));
    counts_match(&f);
    assert_eq!(mv(&mut f, &chars("/d/f"), &chars("/g")), Ok(()));
    assert_eq!(write_file(&mut f, &chars("/g"), &pattern(9000)), Ok(()));
    counts_match(&f);
    assert_eq!(rm(&mut f, &chars("/g")), Ok(()));
    assert_eq!(rmdir(&mut f, &chars("/d")), Ok(()));
    counts_match(&f);
}

#[test]
fn ext4_write_without_space_leaves_an_empty_file() {
    let mut f = ext4_volume();
    let much = vec![7u8; 30 << 20];
    assert_eq!(write_file(&mut f, &chars("/big"), &much), Err(FsErr::NoSpace));
    assert_eq!(read_all(&f, "/big", 10), Ok(Vec::new()));
    counts_match(&f);
    assert_eq!(write_file(&mut f, &chars("/big"), &pattern(100)), Ok(()));
    assert_eq!(read_all(&f, "/big", 100), Ok(pattern(100)));
}

#[test]
fn fat_tables_are_sized_for_the_volume() {
    for (sectors, size) in [(70000usize, 539u32), (1_000_000, 7691)] {
        let mut f = volume(sectors);
        assert_eq!(mkfs(&mut f), Ok(()));
        let i = f.fat.unwrap();
        assert_eq!(i.fat_size, size);
        assert_eq!(i.data_start as usize + i.cluster_count as usize, sectors);
        assert_eq!(i.data_start, 32 + 2 * i.fat_size);
    }
}

#[test]
fn short_buffers_get_the_start_of_a_file() {
    for mut f in [fat_volume(), ext4_volume()] {
        assert_eq!(write_file(&mut f, &chars("/d"), &pattern(9000)), Ok(()));
        for room in [0usize, 1, 511, 512, 4095, 4097, 8999, 9000, 9001] {
            let want = pattern(9000)[..room.min(9000)].to_vec();
            assert_eq!(read_all(&f, "/d", room), Ok(want));
        }
    }
}

#[test]
fn touch_makes_an_empty_file_or_changes_nothing() {
    for mut f in [fat_volume(), ext4_volume()] {
        assert_eq!(touch(&mut f, &chars("/tmp/t")), Ok(()));
        assert_eq!(read_all(&f, "/tmp/t", 10), Ok(vec![]));
        let once = names(&f, "/tmp");
        let writes = f.disk.write_count();
        assert_eq!(touch(&mut f, &chars("/tmp/t")), Ok(()));
        assert_eq!(f.disk.write_count(), writes);
        assert_eq!(names(&f, "/tmp"), once);
        assert_eq!(write_file(&mut f, &chars("/tmp/t"), b"text"), Ok(()));
        assert_eq!(touch(&mut f, &chars("/tmp/t")), Ok(()));
        assert_eq!(read_all(&f, "/tmp/t", 10), Ok(b"text".to_vec()));
    }
}

#[test]
fn volumes_stay_sound_over_many_commands() {
    for mut f in [fat_volume(), ext4_volume()] {
        for k in 0..24 {
            let dir = format!("/d{}", k);
            assert_eq!(mkdir(&mut f, &chars(&dir)), Ok(()));
            assert_eq!(write_file(&mut f, &chars(&format!("{}/a", dir)), &pattern(700 + k)), Ok(()));
            let (a, b) = (format!("{}/a", dir), format!("{}/b", dir));
            assert_eq!(mv(&mut f, &chars(&a), &chars(&b)), Ok(()));
            assert_eq!(touch(&mut f, &chars(&a)), Ok(()));
        }
        for k in (0..24).step_by(2) {
            let dir = format!("/d{}", k);
            assert_eq!(rm(&mut f, &chars(&format!("{}/a", dir))), Ok(()));
            assert_eq!(rm(&mut f, &chars(&format!("{}/b", dir))), Ok(()));
            assert_eq!(rmdir(&mut f, &chars(&dir)), Ok(()));
        }
        for k in (1..24).step_by(2) {
            assert_eq!(read_all(&f, &format!("/d{}/b", k), 1000), Ok(pattern(700 + k)));
            assert_eq!(read_all(&f, &format!("/d{}/a", k), 1000), Ok(vec![]));
        }
        assert_eq!(mount(&mut f), Ok(()));
        assert_eq!(read_all(&f, "/d23/b", 1000), Ok(pattern(723)));
    }
}

#[test]
fn sectors_that_cannot_be_written_are_reported() {
    let mut f = fat_volume();
    assert_eq!(write_file(&mut f, &chars("/file"), b"text"), Ok(()));
    // the root directory can be read and not changed
    let at = f.fat.unwrap().data_start as usize;
    let root = f.disk.read(at as u64).unwrap();
    f.disk.provide_fixed(at, &root);
    let writes = f.disk.write_count();
    assert!(!f.disk.write(at as u64, &root));
    assert_eq!(f.disk.write_count(), writes);
    assert_eq!(read_all(&f, "/file", 10), Ok(b"text".to_vec()));
    assert_eq!(touch(&mut f, &chars("/other")), Err(FsErr::Io));
    assert_eq!(write_file(&mut f, &chars("/file"), b"more"), Err(FsErr::Io));
    assert_eq!(f.disk.read(at as u64), Some(root.clone()));
    f.disk.provide(at, &root);
    assert_eq!(touch(&mut f, &chars("/other")), Ok(()));
    let mut f = ext4_volume();
    let at = f.base as usize;
    let start = f.disk.read(at as u64).unwrap();
    f.disk.provide_fixed(at, &start);
    assert_eq!(mkfs_ext4(&mut f), Err(FsErr::Io));
}

#[test]
fn saved_accounts_come_back() {
    for mut f in [fat_volume(), ext4_volume()] {
        let mut u = Users::new();
        users::init(&mut u);
        for name in ["ada", "ben", "cleo"] {
            assert!(users::add_user(&mut u, &mut f, &chars(name)).is_ok());
        }
        assert_eq!(users::set_password(&mut u, &mut f, 2, &chars("p w\u{e9}")), Ok(()));
        users::save_to_fs(&u, &mut f);
        let mut v = Users::new();
        users::init(&mut v);
        users::load_from_fs(&mut v, &mut f);
        assert_eq!(users::count(&v), users::count(&u));
        for i in 0..users::count(&u) {
            assert_eq!(users::user_name(&v, i), users::user_name(&u, i));
            assert_eq!(users::user_uid(&v, i), users::user_uid(&u, i));
            assert_eq!(users::user_gid(&v, i), users::user_gid(&u, i));
            assert_eq!(users::has_password(&v, i), users::has_password(&u, i));
        }
        assert!(users::check_password(&v, 2, &chars("p w\u{e9}")));
    }
}

#[test]
fn directories_are_removed_once_they_are_empty() {
    for mut f in [fat_volume(), ext4_volume()] {
        assert_eq!(mkdir(&mut f, &chars("/d")), Ok(()));
        assert_eq!(mkdir(&mut f, &chars("/d/e")), Ok(()));
        assert_eq!(mv(&mut f, &chars("/d/e"), &chars("/d/g")), Ok(()));
        assert_eq!(rmdir(&mut f, &chars("/d")), Err(FsErr::NotEmpty));
        assert_eq!(rmdir(&mut f, &chars("/d/g")), Ok(()));
        assert_eq!(rmdir(&mut f, &chars("/d")), Ok(()));
        assert_eq!(rmdir(&mut f, &chars("/d")), Err(FsErr::NotFound));
        assert_eq!(names(&f, "/").len(), 6);
    }
}
