use solaros::acpi;
use solaros::acpi::PMO;
use solaros::ahci;
use solaros::ahci::{Access, Ahci, Bring, Dma, Issue, Outcome, Port};
use solaros::apic;
use solaros::ata;
use solaros::ata::{AtaDevice, Devices, PioAction};
use solaros::elf::load_user_elf;
use solaros::heap::HeapAllocator;
use solaros::mem::{is_user_range, mark_user_pages, MemoryRegion, RegionKind};
use solaros::pci;
use solaros::pci::{ConfigSpace, Function};
use solaros::ps2;
use solaros::syscall::{finish_read, syscall_dispatch, Action, ConsoleOp, SyscallFrame};

fn text(v: &[char]) -> String {
    v.iter().collect()
}

fn put32(m: &mut [u8], o: usize, v: u32) {
    m[o..o + 4].copy_from_slice(&v.to_le_bytes());
}

fn put64(m: &mut [u8], o: usize, v: u64) {
    m[o..o + 8].copy_from_slice(&v.to_le_bytes());
}

// ---------- disks ----------

#[test]
fn ata_read_command() {
    let (w, mut t) = ata::read_sector(0x1F0, true, 0x0123_4567, 0).unwrap();
    let got: Vec<(u16, u8)> = w.iter().map(|p| (p.port, p.value)).collect();
    assert_eq!(
        got,
        [(0x1F6, 0xE1), (0x1F5, 0x23), (0x1F4, 0x45), (0x1F3, 0x67), (0x1F2, 1), (0x1F7, 0x20)]
    );
    assert_eq!(t.action(), PioAction::Poll);
    t.observe(0x80, 1);
    assert_eq!(t.action(), PioAction::Poll);
    t.observe(0x50, 2);
    t.observe(0x50, 2);
    t.observe(0x58, 3);
    assert_eq!(t.action(), PioAction::Move);
    t.moved(4);
    let mut n = 0;
    while t.action() == PioAction::Poll {
        t.observe(0x50, 5);
        n += 1;
        assert!(n < 5);
    }
    assert_eq!(t.action(), PioAction::Finish(true));
    assert!(ata::read_sector(0x1F0, true, 0x1000_0000, 0).is_none());
}

#[test]
fn ata_commands_give_up() {
    let (w, mut t) = ata::write_sector(0x170, false, 1, 0).unwrap();
    assert_eq!((w[0].port, w[0].value), (0x176, 0xF0));
    assert_eq!((w[5].port, w[5].value), (0x177, 0x30));
    t.observe(0x80, 2999);
    assert_eq!(t.action(), PioAction::Poll);
    t.observe(0x80, 3000);
    assert_eq!(t.action(), PioAction::Finish(false));
    let (w, mut t) = ata::identify(0x1F0, true, 0);
    assert_eq!((w[6].port, w[6].value), (0x1F7, 0xEC));
    t.observe(0x00, 1);
    t.observe(0x01, 1);
    assert_eq!(t.action(), PioAction::Finish(false));
}

#[test]
fn sector_words_read_back() {
    let b: Vec<u8> = (0..512).map(|k| (k * 3) as u8).collect();
    let w = ata::words_from_sector(&b);
    assert_eq!(w[1], u16::from_le_bytes([b[2], b[3]]));
    assert_eq!(ata::sector_from_words(&w), b);
}

fn identity(model: &str, sectors: u32) -> Vec<u16> {
    let mut w = vec![0u16; 256];
    let mut bytes = vec![b' '; 40];
    bytes[..model.len()].copy_from_slice(model.as_bytes());
    for k in 0..20 {
        w[27 + k] = u16::from_be_bytes([bytes[2 * k], bytes[2 * k + 1]]);
    }
    w[49] = 0x200;
    w[60] = sectors as u16;
    w[61] = (sectors >> 16) as u16;
    w
}

#[test]
fn ata_disks_are_described() {
    let mut t = Devices::new();
    let found = vec![Some(identity("QEMU HARDDISK", 204800)), None, None, Some(identity("B", 2048))];
    ata::init(&mut t, &found);
    assert_eq!(ata::device_count(&t), 2);
    let d = ata::device(&t, 0);
    assert!(d.present && !d.is_secondary && !d.master && d.lba_supported);
    assert_eq!(d.model_str(), "QEMU HARDDISK");
    assert_eq!((d.sectors, d.capacity_mb), (204800, 100));
    assert!(!ata::device(&t, 1).present);
    let d = ata::device(&t, 3);
    assert!(d.present && d.is_secondary && d.master);
    assert_eq!(ata::slot_base(0), 0x1F0);
    assert_eq!(ata::slot_base(3), 0x170);
}

#[test]
fn ahci_structures() {
    let t = ahci::build_table(0x25, 0x0605_0403_0201, 0x0102, 0xAABB_CCDD_1122, 511);
    assert_eq!(t.len(), 144);
    assert_eq!(t[0..14], [0x27, 0x80, 0x25, 0, 1, 2, 3, 0x40, 4, 5, 6, 0, 2, 1]);
    assert_eq!(t[128..132], [0x22, 0x11, 0xDD, 0xCC]);
    assert_eq!(t[132..136], [0xBB, 0xAA, 0, 0]);
    assert_eq!(t[136..140], 511u32.to_le_bytes());
    let h = ahci::build_header(true, 0x1_0000_2000);
    assert_eq!(h[0..4], 0x1_0045u32.to_le_bytes());
    assert_eq!(h[8..16], [0, 0x20, 0, 0, 1, 0, 0, 0]);
    assert_eq!(ahci::build_header(false, 0)[0..4], 0x1_0005u32.to_le_bytes());
    assert_eq!(ahci::abar(0xFEBF_1004, 1), Some(0x1_FEBF_1000));
}

#[test]
fn ahci_comes_up() {
    let d = Dma { clb: 0x1000, fb: 0x2000, ct: 0x3000, data: 0x4000 };
    let mut b = Bring::init();
    let mut writes = Vec::new();
    let mut identified = Vec::new();
    let mut now = 0;
    loop {
        let a = b.next();
        let o = match a {
            Access::Write(at, v) => {
                writes.push((at, v));
                Outcome::Written
            }
            Access::Read(at) => Outcome::Value(match at {
                ahci::HBA_PI => 0b101,
                ahci::HBA_CAP => 3,
                _ => match (at - 0x100) % 0x80 {
                    ahci::PX_SSTS => 0x113,
                    ahci::PX_SIG => ahci::SIG_ATA,
                    _ => 0,
                },
            }),
            Access::Alloc => Outcome::Blocks(Some(d)),
            Access::Identify(p) => {
                identified.push(p.number);
                Outcome::Disk(true)
            }
            Access::Finish(ok) => {
                assert!(ok);
                break;
            }
        };
        b.observe(o, now);
        now += 1;
        assert!(now < 1000);
    }
    assert_eq!(identified, [0, 2]);
    assert_eq!(writes[0], (ahci::HBA_GHC, 1));
    assert!(writes.contains(&(0x100, 0x1000)));
    assert!(writes.contains(&(0x208, 0x2000)));
}

#[test]
fn ahci_reset_gives_up() {
    let mut b = Bring::init();
    b.observe(Outcome::Written, 0);
    for now in 1..40 {
        b.observe(Outcome::Value(1), now);
        assert_eq!(b.next(), Access::Read(ahci::HBA_GHC));
    }
    b.observe(Outcome::Value(1), 40);
    assert_eq!(b.next(), Access::Finish(false));
}

#[test]
fn ahci_commands() {
    let run = |is: u32, tfd: u32| {
        let mut c = Issue::start(1, 0);
        let mut steps = 0;
        loop {
            let o = match c.next() {
                Access::Write(_, _) => Outcome::Written,
                Access::Read(at) if at == 0x180 + ahci::PX_IS => Outcome::Value(is),
                Access::Read(at) if at == 0x180 + ahci::PX_TFD => Outcome::Value(tfd),
                Access::Read(_) => Outcome::Value(0),
                Access::Finish(ok) => return ok,
                _ => panic!(),
            };
            c.observe(o, steps);
            steps += 1;
            assert!(steps < 100);
        }
    };
    assert!(run(0, 0x50));
    assert!(!run(0x4000_0000, 0x50));
    assert!(!run(0, 0x51));
    assert!(!run(0, 0x80));
    assert_eq!(ahci::probe(0).unwrap().command, 0xEC);
    assert!(!ahci::probe(1).unwrap().write);
    let w = ahci::probe(2).unwrap();
    assert_eq!((w.write, w.command, w.lba, w.count, w.fill), (true, 0x35, 42, 1, Some(0xAA)));
    let r = ahci::probe(3).unwrap();
    assert_eq!((r.write, r.command, r.lba, r.count, r.fill), (false, 0x25, 42, 1, Some(0)));
    assert_eq!(ahci::probe(4), None);
}

#[test]
fn ahci_disks_take_the_upper_slots() {
    let mut a = Ahci::new();
    let mut t = Devices::new();
    let d = Dma { clb: 0x1000, fb: 0x2000, ct: 0x3000, data: 0x4000 };
    let port = Port { number: 2, dma: d };
    let buffer = ata::sector_from_words(&identity("SATA", 4096));
    let disk = ahci::identify(true, &buffer);
    assert_eq!(disk.model_str(), "SATA");
    a.register(&mut t, port, disk);
    assert!(ata::device(&t, 4).present && ata::device(&t, 4).via_ahci);
    assert_eq!(a.port_mut(4), Some(port));
    assert_eq!(a.port_mut(5), None);
    let (p, _, table) = ahci::read_sector(&a, 4, 77).unwrap();
    assert_eq!(p, port);
    let has = |v: &Vec<u8>| v.len() == 144 && v[2] == 0x25 && v[4] == 77;
    let (_, header, _) = ahci::read_sector(&a, 4, 77).unwrap();
    assert!(has(&table) || has(&header));
    assert!(ahci::write_sector(&a, 5, 77).is_none());
    assert!(!ahci::identify(false, &buffer).present);
}

// ---------- PCI ----------

fn function(bus: u8, dev: u8, func: u8, id: u32, class: u32, header: u32) -> Function {
    let mut regs = vec![0u32; 64];
    regs[0] = id;
    regs[2] = class;
    regs[3] = header;
    Function { bus, dev, func, regs }
}

#[test]
fn pci_devices_are_found() {
    let mut bridge = function(0, 2, 0, 0x0001_1B36, 0x0604_0000, 0x0001_0000);
    bridge.regs[6] = 0x0001_0100;
    let cfg = ConfigSpace {
        functions: vec![
            function(0, 0, 0, 0x1237_8086, 0x0600_0000, 0),
            function(0, 1, 0, 0x7000_8086, 0x0601_0000, 0x0080_0000),
            function(0, 1, 1, 0x7010_8086, 0x0101_8000, 0),
            bridge,
            function(1, 3, 0, 0x2922_8086, 0x0106_0100, 0),
        ],
    };
    let list = pci::enumerate(&cfg);
    assert_eq!(pci::device_count(&list), 5);
    let sata = ahci::find_sata_controller(&list).unwrap();
    assert_eq!((sata.bus, sata.dev, sata.vendor, sata.device), (1, 3, 0x8086, 0x2922));
    assert_eq!(pci::class_name(&sata), "storage/SATA");
    assert_eq!(pci::class_name(&pci::device(&list, 0).unwrap()), "bridge/Host");
    assert!(pci::device(&list, 5).is_none());
    assert_eq!(pci::config_address(1, 2, 3, 0x13), 0x8001_1310);
    assert_eq!(pci::config_read_u16(&cfg, 0, 0, 0, 2), 0x1237);
    assert_eq!(pci::config_read_u8(&cfg, 0, 2, 0, 0x19), 1);
    assert_eq!(pci::config_read_u32(&cfg, 9, 0, 0, 0), 0xFFFF_FFFF);
    assert_eq!(pci::config_write_u16(0, 0, 0, 6, 0xABCD), (0x8000_0004, 0xABCD));
    assert_eq!(pci::print_devices(&list).len() >= 5, true);
}

// ---------- tables of the firmware ----------

fn seal(m: &mut [u8], at: usize, len: usize, sum: usize) {
    m[at + sum] = 0;
    let s: u8 = m[at..at + len].iter().fold(0, |a, b| a.wrapping_add(*b));
    m[at + sum] = 0u8.wrapping_sub(s);
}

fn table(m: &mut [u8], at: usize, sig: &[u8], len: usize) {
    m[at..at + 4].copy_from_slice(sig);
    put32(m, at + 4, len as u32);
    m[at + 8] = 1;
    seal(m, at, len, 9);
}

#[test]
fn acpi_tables_are_found() {
    let mut m = vec![0u8; 0x4_0000];
    table(&mut m, 0x2000, b"APIC", 100);
    table(&mut m, 0x3000, b"FACP", 80);
    put32(&mut m, 0x1000 + 36, 0x2000);
    put32(&mut m, 0x1000 + 40, 0x3000);
    table(&mut m, 0x1000, b"RSDT", 44);
    m[0x500..0x508].copy_from_slice(b"RSD PTR ");
    put32(&mut m, 0x510, 0x1000);
    seal(&mut m, 0x500, 20, 8);
    let a = acpi::init(&m, Some(0x500), &vec![]).unwrap();
    assert!(!a.xsdt);
    assert_eq!(a.root_addr, 0x1000);
    assert_eq!(acpi::find(&a, b"APIC"), Some(0x2000));
    assert_eq!(acpi::find(&a, b"FACP"), Some(0x3000));
    assert_eq!(acpi::find(&a, b"HPET"), None);
    // without a pointer the last 64 KiB of the usable memory are searched
    let r = vec![MemoryRegion { start: 0, end: 0x1_0000, kind: RegionKind::Usable }];
    assert_eq!(acpi::init(&m, None, &r).unwrap().root_addr, 0x1000);
    let r = vec![MemoryRegion { start: 0, end: 0x4_0000, kind: RegionKind::Usable }];
    assert!(acpi::init(&m, None, &r).is_none());
    let r = vec![MemoryRegion { start: 0, end: 0x1_0000, kind: RegionKind::Bootloader }];
    assert!(acpi::init(&m, None, &r).is_none());
    m[0x1000 + 9] ^= 1;
    assert!(acpi::init(&m, Some(0x500), &vec![]).is_none());
    assert_eq!(acpi::ptr(0x1000), Some(PMO + 0x1000));
    assert_eq!(acpi::ptr(u64::MAX), None);
}

/// The table with its length in the header, and what stands behind it.
fn measured(mut t: Vec<u8>) -> Vec<u8> {
    let n = t.len() as u32;
    put32(&mut t, 4, n);
    t.extend([0u8; apic::BEHIND]);
    t
}

#[test]
fn apic_routes_the_timer_and_the_keyboard() {
    let mut t = vec![0u8; 0x2C];
    put32(&mut t, 36, 0xFEE0_0000);
    t.extend([1, 12, 3, 0]);
    t.extend(0xFEC0_1000u32.to_le_bytes());
    t.extend(0u32.to_le_bytes());
    t.extend([2, 10, 0, 0]);
    t.extend(2u32.to_le_bytes());
    t.extend(0u16.to_le_bytes());
    let m = apic::parse_madt(&measured(t));
    assert_eq!((m.lapic, m.ioapic, m.ioapic_id), (0xFEE0_0000, 0xFEC0_1000, 3));
    assert_eq!(m.iso[0], Some((2, 0)));
    let entries = vec![0u64; 24];
    let w = apic::init(&m, 0x0017_0011, &entries);
    // 22 spare pins are masked, then two pins are set
    assert_eq!(w.len(), 48);
    assert_eq!(w[44..], [(0x14, 32), (0x15, 0), (0x12, 33), (0x13, 0)]);
    for pin in [0u32, 3, 23] {
        let (_, low) = w.iter().find(|(r, _)| *r == 0x10 + 2 * pin).unwrap();
        assert_eq!(low & 0x1_0000, 0x1_0000);
    }
    assert_eq!(apic::eoi().1, 0);
}

#[test]
fn overrides_leave_the_vectors() {
    let mut t = vec![0u8; 0x2C];
    t.extend([2, 10, 0, 0]);
    t.extend(2u32.to_le_bytes());
    t.extend(5u16.to_le_bytes());
    t.extend([2, 10, 0, 1]);
    t.extend(1u32.to_le_bytes());
    t.extend(0xFu16.to_le_bytes());
    let m = apic::parse_madt(&measured(t));
    let w = apic::init(&m, 0x0017_0011, &vec![0u64; 24]);
    let low = |pin: u32| w.iter().rev().find(|(r, _)| *r == 0x10 + 2 * pin).unwrap().1;
    assert_eq!(low(2), 32);
    assert_eq!(low(1), 33);
}

#[test]
fn short_records_are_read_too() {
    let mut t = vec![0u8; 0x2C];
    t.extend([1, 8, 7, 0]);
    t.extend(0xFEC0_2000u32.to_le_bytes());
    t.extend([2, 8, 0, 0]);
    t.extend(2u32.to_le_bytes());
    t.extend([0, 6, 0, 0, 1, 0]);
    let m = apic::parse_madt(&measured(t));
    assert_eq!((m.ioapic, m.ioapic_id), (0xFEC0_2000, 7));
    assert_eq!(m.iso[0], Some((2, 0x600)));
}

#[test]
fn record_at_the_end_is_read_beyond_the_table() {
    let mut t = vec![0u8; 0x2C];
    t.extend([2, 4, 0, 0]);
    put32(&mut t, 4, 0x30);
    t.extend(2u32.to_le_bytes());
    t.extend(5u16.to_le_bytes());
    t.extend([0; 4]);
    assert_eq!(apic::parse_madt(&t).iso[0], Some((2, 5)));
}

#[test]
fn override_of_all_ones_is_none() {
    let mut t = vec![0u8; 0x2C];
    t.extend([2, 10, 0, 0, 255, 255, 255, 255, 255, 255]);
    let m = apic::parse_madt(&measured(t));
    let w = apic::init(&m, 0x0017_0011, &vec![0u64; 24]);
    let low = |pin: u32| w.iter().rev().find(|(r, _)| *r == 0x10 + 2 * pin).unwrap().1;
    assert_eq!((low(0), low(1)), (32, 33));
}

#[test]
fn disks_have_a_driver() {
    let mut d = AtaDevice::absent();
    assert_eq!(ata::driver_of(&d), ata::Driver::Pio(0x1F0, false));
    d.is_secondary = true;
    d.master = true;
    assert_eq!(ata::driver_of(&d), ata::Driver::Pio(0x170, true));
    d.via_ahci = true;
    d.index = 3;
    assert_eq!(ata::driver_of(&d), ata::Driver::Ahci(3));
}

#[test]
fn empty_slots_have_no_model() {
    let mut t = Devices::new();
    ata::init(&mut t, &vec![None, None, None, None]);
    assert!(t.slots.iter().all(|d| !d.present && d.model.iter().all(|b| *b == 0)));
}

#[test]
fn pages_up_to_the_last_one_can_be_asked_for() {
    let mut m = paged(0x60_0000);
    assert!(!mark_user_pages(&mut m, 0x1000, 0xFFFF_FFFF_FFFF_E000, 0x1000));
}

#[test]
fn device_blocks_are_pages_of_zeros() {
    let mut h = HeapAllocator::new();
    h.init(0x10_0000, 0x1_0000);
    let mut m = vec![0xAAu8; 0x20_0000];
    assert!(h.alloc_locked(100, 8).is_some());
    let v = ahci::alloc_dma(&mut h, &mut m, 4096).unwrap();
    let w = ahci::alloc_dma(&mut h, &mut m, 4096).unwrap();
    for p in [v, w] {
        assert_eq!(p % 4096, 0);
        let at = (p - PMO) as usize;
        assert!(m[at..at + 4096].iter().all(|b| *b == 0));
    }
    assert!(v + 4096 <= w || w + 4096 <= v);
    assert_eq!(ahci::alloc_dma(&mut h, &mut m, 0x2_0000), None);
}

#[test]
fn ps2_controller_comes_up() {
    let mut i = ps2::init();
    let mut reply: Vec<u8> = Vec::new();
    let mut sent = Vec::new();
    let mut n = 0;
    loop {
        let v = match i.next() {
            ps2::Access::ReadStatus => {
                if reply.is_empty() {
                    0
                } else {
                    1
                }
            }
            ps2::Access::ReadData => reply.remove(0),
            ps2::Access::WriteCommand(c) => {
                sent.push(c);
                match c {
                    0xAA => reply.push(0x55),
                    0xAB => reply.push(0),
                    0x20 => reply.push(0x47),
                    _ => {}
                }
                0
            }
            ps2::Access::WriteData(d) => {
                sent.push(d);
                match d {
                    0xFF => reply.extend([0xFA, 0xAA]),
                    0xF4 => reply.push(0xFA),
                    _ => {}
                }
                0
            }
            ps2::Access::Finished => break,
        };
        i.observe(v);
        n += 1;
        assert!(n < 1000);
    }
    let r = i.report();
    assert!(r.controller_ok && r.device_ok);
    assert_eq!(
        sent,
        [0xAD, 0xAA, 0xAB, 0x20, 0x60, 0x48, 0xFF, 0xF4, 0x60, 0x55, 0xAE]
    );
}

#[test]
fn silent_ps2_controller_is_given_up() {
    let mut i = ps2::init();
    let mut n: u64 = 0;
    while i.next() != ps2::Access::Finished {
        i.observe(0);
        n += 1;
        assert!(n < 10_000_000);
    }
    assert!(!i.report().controller_ok);
}

// ---------- memory and programs ----------

/// Page tables that map the window of physical memory: huge pages but for the
/// third two megabytes, which have a table of their own.
fn paged(size: usize) -> Vec<u8> {
    let mut m = vec![0u8; size];
    put64(&mut m, 0x1000 + 8 * 256, 0x2003);
    put64(&mut m, 0x2000, 0x3003);
    for k in 0..512u64 {
        put64(&mut m, 0x3000 + 8 * k as usize, (k << 21) | 0x83);
        put64(&mut m, 0x4000 + 8 * k as usize, 0x40_0003 + (k << 12) + (1 << 63));
    }
    put64(&mut m, 0x3010, 0x4003);
    m
}

#[test]
fn marked_pages_are_open_to_user_mode() {
    let mut m = paged(0x60_0000);
    let at = PMO + 0x40_1800;
    assert!(!is_user_range(&m, 0x1000, at, 0x1000));
    assert!(mark_user_pages(&mut m, 0x1000, at, 0x1000));
    assert!(is_user_range(&m, 0x1000, at, 0x1000));
    assert!(is_user_range(&m, 0x1000, PMO + 0x40_1000, 0x2000));
    assert!(!is_user_range(&m, 0x1000, PMO + 0x40_3000, 1));
    assert!(!is_user_range(&m, 0x1000, PMO, 1));
    let e = u64::from_le_bytes(m[0x4008..0x4010].try_into().unwrap());
    assert_eq!(e, 0x40_1007);
    assert!(!mark_user_pages(&mut m, 0x1000, 0x1000, 1));
}

fn program() -> Vec<u8> {
    let mut b = vec![0u8; 0x400];
    b[0..4].copy_from_slice(&[0x7F, 69, 76, 70]);
    b[0x10] = 3;
    put64(&mut b, 0x18, 0x104);
    put64(&mut b, 0x20, 64);
    b[0x36] = 56;
    b[0x38] = 2;
    // the segment: file bytes 0x100 .. 0x300 at address 0x100, 0x1000 long
    put32(&mut b, 64, 1);
    put64(&mut b, 64 + 8, 0x100);
    put64(&mut b, 64 + 0x10, 0x100);
    put64(&mut b, 64 + 0x20, 0x200);
    put64(&mut b, 64 + 0x28, 0x1000);
    // the dynamic section at address 0x200: one relocation at 0x280
    put32(&mut b, 120, 2);
    put64(&mut b, 120 + 8, 0x200);
    put64(&mut b, 120 + 0x10, 0x200);
    put64(&mut b, 120 + 0x20, 0x40);
    put64(&mut b, 120 + 0x28, 0x40);
    for (k, v) in [7u64, 0x280, 8, 24, 9, 24, 0, 0].iter().enumerate() {
        put64(&mut b, 0x200 + 8 * k, *v);
    }
    put64(&mut b, 0x280, 0x2C0);
    put64(&mut b, 0x288, 8);
    put64(&mut b, 0x290, 0x123);
    b[0x100] = 0xC3;
    b
}

#[test]
fn user_program_is_loaded_and_relocated() {
    let mut m = paged(0x60_0000);
    let mut h = HeapAllocator::new();
    h.init(0x40_0000, 0x10_0000);
    let p = load_user_elf(&mut h, &mut m, 0x1000, &program()).unwrap();
    let base = p.entry - 0x104;
    assert_eq!(base % 0x10, 0);
    let at = (base - PMO) as usize;
    assert_eq!(m[at + 0x100], 0xC3);
    assert_eq!(m[at + 0x2C0..at + 0x2C8], (base + 0x123).to_le_bytes());
    assert_eq!(m[at + 0x400], 0);
    assert!(is_user_range(&m, 0x1000, base, 0x1100));
    assert!(p.stack_top > PMO);
    let mut bad = program();
    bad[0x10] = 2;
    assert!(load_user_elf(&mut h, &mut m, 0x1000, &bad).is_none());
    let mut bad = program();
    put64(&mut bad, 64 + 8, 0x10_0000);
    assert!(load_user_elf(&mut h, &mut m, 0x1000, &bad).is_none());
    assert!(load_user_elf(&mut h, &mut m, 0x1000, &[0x7F, 69]).is_none());
}

#[test]
fn relocation_beside_the_image_is_made() {
    let mut m = paged(0x60_0000);
    let mut h = HeapAllocator::new();
    h.init(0x40_0000, 0x10_0000);
    let mut b = program();
    put64(&mut b, 0x280, 0u64.wrapping_sub(0x10_0000));
    let p = load_user_elf(&mut h, &mut m, 0x1000, &b).unwrap();
    let base = p.entry - 0x104;
    let at = (base - PMO) as usize - 0x10_0000;
    assert_eq!(m[at..at + 8], (base + 0x123).to_le_bytes());
    put64(&mut b, 0x280, 0u64.wrapping_sub(PMO));
    assert!(load_user_elf(&mut h, &mut m, 0x1000, &b).is_none());
}

fn frame(rax: u64, rdi: u64, rsi: u64, rdx: u64) -> SyscallFrame {
    SyscallFrame {
        r9: 0,
        r8: 0,
        r10: 0,
        rdx,
        rsi,
        rdi,
        rcx: 0,
        rax,
        rbx: 0,
        rbp: 0,
        r11: 0,
        r12: 0,
        r13: 0,
        r14: 0,
        r15: 0,
    }
}

#[test]
fn calls_of_user_programs() {
    let mut m = paged(0x60_0000);
    let at = PMO + 0x40_0000;
    m[0x40_0000..0x40_0006].copy_from_slice("h\u{11f}llo".as_bytes());
    let mut pings = 0;
    let mut f = frame(1, 0, 0, 0);
    assert!(matches!(syscall_dispatch(&mut f, &mut pings, &m, 0x1000), Action::Log(t) if text(&t) == "[user] ping 1\n"));
    assert_eq!((f.rax, pings), (1, 1));
    let mut f = frame(2, 0, 0, 0);
    assert!(matches!(syscall_dispatch(&mut f, &mut pings, &m, 0x1000), Action::Terminate(_)));
    // memory that is not the program's
    let mut f = frame(3, 1, at, 6);
    assert!(matches!(syscall_dispatch(&mut f, &mut pings, &m, 0x1000), Action::Nothing));
    assert_eq!(f.rax, u64::MAX);
    assert!(mark_user_pages(&mut m, 0x1000, at, 0x1000));
    let mut f = frame(3, 1, at, 6);
    assert!(matches!(syscall_dispatch(&mut f, &mut pings, &m, 0x1000), Action::Print(t) if text(&t) == "h\u{11f}llo"));
    assert_eq!(f.rax, 6);
    // half of a character
    let mut f = frame(3, 1, at, 2);
    assert!(matches!(syscall_dispatch(&mut f, &mut pings, &m, 0x1000), Action::Print(t) if text(&t) == "h"));
    let mut f = frame(4, 0, at, 4);
    assert!(matches!(syscall_dispatch(&mut f, &mut pings, &m, 0x1000), Action::ReadChar(a) if a == at));
    assert_eq!(finish_read(&mut m, at, '\u{11f}'), 2);
    assert_eq!(m[0x40_0000..0x40_0002], [0xC4, 0x9F]);
    let mut f = frame(7, 3, 0, 0);
    assert!(matches!(
        syscall_dispatch(&mut f, &mut pings, &m, 0x1000),
        Action::Console(ConsoleOp::Backspace)
    ));
    let mut f = frame(7, 9, 0, 0);
    syscall_dispatch(&mut f, &mut pings, &m, 0x1000);
    assert_eq!(f.rax, u64::MAX);
    m[0x40_0000..0x40_0002].copy_from_slice(b"ls");
    let mut f = frame(8, at, 2, 0);
    assert!(matches!(syscall_dispatch(&mut f, &mut pings, &m, 0x1000), Action::Execute(t) if text(&t) == "ls"));
    let mut f = frame(8, at, 513, 0);
    assert!(matches!(syscall_dispatch(&mut f, &mut pings, &m, 0x1000), Action::Nothing));
    let mut f = frame(99, 0, 0, 0);
    assert!(matches!(syscall_dispatch(&mut f, &mut pings, &m, 0x1000), Action::Log(t) if text(&t) == "[user] unknown syscall 99\n"));
}

#[test]
fn absent_disk_has_no_model() {
    assert_eq!(AtaDevice::absent().model_str(), "");
}
