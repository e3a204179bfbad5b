//! PCI: configuration space, enumeration, and the names of devices.
//!
//! Configuration space is a snapshot of what the legacy port mechanism
//! (0xCF8/0xCFC) returns for every function that answers.

use vstd::prelude::*;
use crate::text::{chars_of, hex, push_hex, push_left, push_str};
use crate::text;

verus! {

pub const MAX_DEVICES: usize = 64;

#[derive(Clone, Copy, PartialEq, Eq, Debug, Structural)]
pub struct PciDevice {
    pub bus: u8,
    pub dev: u8,
    pub func: u8,
    pub vendor: u16,
    pub device: u16,
    pub class: u8,
    pub subclass: u8,
    pub progif: u8,
    pub header_type: u8,
    pub secondary_bus: u8,
    pub irq_line: u8,
}

/// The configuration registers of one function.
pub struct Function {
    pub bus: u8,
    pub dev: u8,
    pub func: u8,
    /// The 64 registers of 32 bits.
    pub regs: Vec<u32>,
}

/// A snapshot of configuration space.
pub struct ConfigSpace {
    pub functions: Vec<Function>,
}

/// The register that a function list holds; all ones where no function
/// answers.
pub open spec fn reg_in(fs: Seq<Function>, bus: u8, dev: u8, func: u8, r: int) -> u32
    decreases fs.len(),
{
    if fs.len() == 0 {
        0xFFFF_FFFF
    } else if fs[0].bus == bus && fs[0].dev == dev && fs[0].func == func {
        if r < fs[0].regs@.len() {
            fs[0].regs@[r]
        } else {
            0xFFFF_FFFF
        }
    } else {
        reg_in(fs.skip(1), bus, dev, func, r)
    }
}

impl ConfigSpace {
    /// The 32-bit register that holds the byte at `offset`.
    pub open spec fn r32(&self, bus: u8, dev: u8, func: u8, offset: u16) -> u32 {
        reg_in(self.functions@, bus, dev, func, offset as int % 256 / 4)
    }

    pub open spec fn r16(&self, bus: u8, dev: u8, func: u8, offset: u16) -> u16 {
        let v = self.r32(bus, dev, func, offset);
        if offset as int / 2 % 2 == 0 {
            (v % 0x1_0000) as u16
        } else {
            (v / 0x1_0000) as u16
        }
    }

    pub open spec fn r8(&self, bus: u8, dev: u8, func: u8, offset: u16) -> u8 {
        let v = self.r32(bus, dev, func, offset);
        if offset as int % 4 == 0 {
            (v % 0x100) as u8
        } else if offset as int % 4 == 1 {
            (v / 0x100 % 0x100) as u8
        } else if offset as int % 4 == 2 {
            (v / 0x1_0000 % 0x100) as u8
        } else {
            (v / 0x100_0000) as u8
        }
    }
}

/// The address that selects a register through port 0xCF8.
pub open spec fn address(bus: u8, dev: u8, func: u8, offset: u16) -> u32 {
    0x8000_0000u32 | ((bus as u32) << 16) | ((dev as u32) << 11) | ((func as u32) << 8) | ((
    offset as u32) & 0xFC)
}

pub fn config_address(bus: u8, dev: u8, func: u8, offset: u16) -> (a: u32)
    ensures
        a == address(bus, dev, func, offset),
{
    0x8000_0000u32 | ((bus as u32) << 16) | ((dev as u32) << 11) | ((func as u32) << 8) | ((
    offset as u32) & 0xFC)
}

/// No two registers of existing functions share an address.
pub proof fn addresses_differ(
    b1: u8,
    d1: u8,
    f1: u8,
    o1: u16,
    b2: u8,
    d2: u8,
    f2: u8,
    o2: u16,
)
    requires
        d1 < 32,
        f1 < 8,
        o1 < 256,
        d2 < 32,
        f2 < 8,
        o2 < 256,
        address(b1, d1, f1, o1) == address(b2, d2, f2, o2),
    ensures
        b1 == b2 && d1 == d2 && f1 == f2 && o1 / 4 == o2 / 4,
{
    assert(b1 == b2 && d1 == d2 && f1 == f2 && o1 / 4 == o2 / 4) by (bit_vector)
        requires
            d1 < 32,
            f1 < 8,
            o1 < 256,
            d2 < 32,
            f2 < 8,
            o2 < 256,
            (0x8000_0000u32 | ((b1 as u32) << 16) | ((d1 as u32) << 11) | ((f1 as u32) << 8) | ((
            o1 as u32) & 0xFC)) == (0x8000_0000u32 | ((b2 as u32) << 16) | ((d2 as u32) << 11) | ((
            f2 as u32) << 8) | ((o2 as u32) & 0xFC)),
    ;
}

pub fn config_read_u32(cfg: &ConfigSpace, bus: u8, dev: u8, func: u8, offset: u16) -> (v: u32)
    ensures
        v == cfg.r32(bus, dev, func, offset),
{
    let r: usize = (offset % 256 / 4) as usize;
    let mut k: usize = 0;
    assert(cfg.functions@.skip(0) =~= cfg.functions@);
    while k < cfg.functions.len()
        invariant
            k <= cfg.functions@.len(),
            r == offset as int % 256 / 4,
            cfg.r32(bus, dev, func, offset) == reg_in(
                cfg.functions@.skip(k as int),
                bus,
                dev,
                func,
                r as int,
            ),
        decreases cfg.functions@.len() - k,
    {
        let f = &cfg.functions[k];
        assert(cfg.functions@.skip(k as int).skip(1) =~= cfg.functions@.skip(k + 1));
        if f.bus == bus && f.dev == dev && f.func == func {
            if r < f.regs.len() {
                return f.regs[r];
            }
            return 0xFFFF_FFFF;
        }
        k += 1;
    }
    0xFFFF_FFFF
}

pub fn config_read_u16(cfg: &ConfigSpace, bus: u8, dev: u8, func: u8, offset: u16) -> (v: u16)
    ensures
        v == cfg.r16(bus, dev, func, offset),
{
    let v: u32 = config_read_u32(cfg, bus, dev, func, offset);
    if offset / 2 % 2 == 0 {
        (v % 0x1_0000) as u16
    } else {
        (v / 0x1_0000) as u16
    }
}

pub fn config_read_u8(cfg: &ConfigSpace, bus: u8, dev: u8, func: u8, offset: u16) -> (v: u8)
    ensures
        v == cfg.r8(bus, dev, func, offset),
{
    let v: u32 = config_read_u32(cfg, bus, dev, func, offset);
    if offset % 4 == 0 {
        (v % 0x100) as u8
    } else if offset % 4 == 1 {
        (v / 0x100 % 0x100) as u8
    } else if offset % 4 == 2 {
        (v / 0x1_0000 % 0x100) as u8
    } else {
        (v / 0x100_0000) as u8
    }
}

/// What goes to ports 0xCF8 and 0xCFC to write a 16-bit value.
pub fn config_write_u16(bus: u8, dev: u8, func: u8, offset: u16, value: u16) -> (w: (u32, u32))
    ensures
        w == (address(bus, dev, func, offset), value as u32),
{
    (config_address(bus, dev, func, offset), value as u32)
}

// ---------- enumeration ----------

/// What an enumeration has found so far: the devices, the buses to be
/// scanned, and whether the list is full.
#[verifier::ext_equal]
pub struct Found {
    pub list: Seq<PciDevice>,
    pub buses: Seq<u8>,
    pub full: bool,
}

/// The device that a function's registers describe.
pub open spec fn device_at(cfg: ConfigSpace, bus: u8, dev: u8, func: u8) -> PciDevice {
    let htype = (cfg.r8(bus, dev, func, 0x0E) % 0x80) as u8;
    PciDevice {
        bus,
        dev,
        func,
        vendor: cfg.r16(bus, dev, func, 0x00),
        device: cfg.r16(bus, dev, func, 0x02),
        class: cfg.r8(bus, dev, func, 0x0B),
        subclass: cfg.r8(bus, dev, func, 0x0A),
        progif: cfg.r8(bus, dev, func, 0x09),
        header_type: htype,
        secondary_bus: if htype == 1 {
            cfg.r8(bus, dev, func, 0x19)
        } else {
            0
        },
        irq_line: cfg.r8(bus, dev, func, 0x3C),
    }
}

/// The bus behind a bridge joins the list, if it is not there yet.
pub open spec fn with_bus(buses: Seq<u8>, d: PciDevice) -> Seq<u8> {
    if d.header_type == 1 && !buses.contains(d.secondary_bus) {
        buses.push(d.secondary_bus)
    } else {
        buses
    }
}

/// Scans the functions of a device from `func` on: the first function that
/// does not answer ends the scan, and so does the second function of a device
/// that is not multifunction.
pub open spec fn scan_funcs(
    cfg: ConfigSpace,
    bus: u8,
    dev: u8,
    func: int,
    multi: bool,
    f: Found,
) -> Found
    decreases 8 - func,
{
    if func >= 8 {
        f
    } else {
        let m = if func == 0 {
            cfg.r8(bus, dev, 0, 0x0E) >= 0x80
        } else {
            multi
        };
        if func > 0 && !m {
            f
        } else if cfg.r16(bus, dev, func as u8, 0) == 0xFFFF {
            f
        } else if f.list.len() >= 64 {
            Found { full: true, ..f }
        } else {
            let d = device_at(cfg, bus, dev, func as u8);
            scan_funcs(
                cfg,
                bus,
                dev,
                func + 1,
                m,
                Found { list: f.list.push(d), buses: with_bus(f.buses, d), full: false },
            )
        }
    }
}

/// Scans the devices of a bus from `dev` on.
pub open spec fn scan_devs(cfg: ConfigSpace, bus: u8, dev: int, f: Found) -> Found
    decreases 32 - dev,
{
    if dev >= 32 || f.full {
        f
    } else {
        scan_devs(cfg, bus, dev + 1, scan_funcs(cfg, bus, dev as u8, 0, false, f))
    }
}

/// Scans the buses of the list from the `k`-th on; there are at most 256.
pub open spec fn scan_buses(cfg: ConfigSpace, k: int, f: Found) -> Found
    decreases 256 - k,
{
    if k >= f.buses.len() || k >= 256 || f.full {
        f
    } else {
        scan_buses(cfg, k + 1, scan_devs(cfg, f.buses[k], 0, f))
    }
}

/// The devices on bus 0 and on the buses behind bridges, at most 64 of them.
pub open spec fn enumeration(cfg: ConfigSpace) -> Seq<PciDevice> {
    scan_buses(cfg, 0, Found { list: Seq::empty(), buses: seq![0u8], full: false }).list
}

/// An enumeration under way.
struct Scan {
    list: Vec<PciDevice>,
    buses: Vec<u8>,
    full: bool,
}

impl Scan {
    spec fn found(&self) -> Found {
        Found { list: self.list@, buses: self.buses@, full: self.full }
    }

    spec fn sound(&self) -> bool {
        &&& self.list@.len() <= 64
        &&& self.buses@.len() <= 65
        &&& self.buses@.len() <= 1 + self.list@.len()
        &&& forall|i: int| 0 <= i < self.list@.len() ==> (#[trigger] self.list@[i]).vendor != 0xFFFF
    }
}

fn read_device(cfg: &ConfigSpace, bus: u8, dev: u8, func: u8) -> (d: PciDevice)
    ensures
        d == device_at(*cfg, bus, dev, func),
{
    let htype: u8 = config_read_u8(cfg, bus, dev, func, 0x0E) % 0x80;
    PciDevice {
        bus,
        dev,
        func,
        vendor: config_read_u16(cfg, bus, dev, func, 0x00),
        device: config_read_u16(cfg, bus, dev, func, 0x02),
        class: config_read_u8(cfg, bus, dev, func, 0x0B),
        subclass: config_read_u8(cfg, bus, dev, func, 0x0A),
        progif: config_read_u8(cfg, bus, dev, func, 0x09),
        header_type: htype,
        secondary_bus: if htype == 1 {
            config_read_u8(cfg, bus, dev, func, 0x19)
        } else {
            0
        },
        irq_line: config_read_u8(cfg, bus, dev, func, 0x3C),
    }
}

fn add_bus(buses: &mut Vec<u8>, d: &PciDevice)
    requires
        old(buses)@.len() <= 65,
    ensures
        final(buses)@ == with_bus(old(buses)@, *d),
{
    if d.header_type != 1 {
        return;
    }
    let mut k: usize = 0;
    while k < buses.len()
        invariant
            buses@ == old(buses)@,
            k <= buses@.len(),
            forall|j: int| 0 <= j < k ==> buses@[j] != d.secondary_bus,
        decreases buses@.len() - k,
    {
        if buses[k] == d.secondary_bus {
            assert(buses@.contains(d.secondary_bus));
            return;
        }
        k += 1;
    }
    assert(!buses@.contains(d.secondary_bus));
    buses.push(d.secondary_bus);
}

fn scan_device(cfg: &ConfigSpace, bus: u8, dev: u8, s: &mut Scan)
    requires
        old(s).sound(),
        !old(s).full,
    ensures
        final(s).sound(),
        final(s).found() == scan_funcs(*cfg, bus, dev, 0, false, old(s).found()),
{
    let mut multi: bool = false;
    let mut func: u8 = 0;
    while func < 8
        invariant
            func <= 8,
            s.sound(),
            !s.full,
            scan_funcs(*cfg, bus, dev, func as int, multi, s.found()) == scan_funcs(
                *cfg,
                bus,
                dev,
                0,
                false,
                old(s).found(),
            ),
        decreases 8 - func,
    {
        if func == 0 {
            multi = config_read_u8(cfg, bus, dev, 0, 0x0E) >= 0x80;
        } else if !multi {
            return;
        }
        if config_read_u16(cfg, bus, dev, func, 0) == 0xFFFF {
            return;
        }
        if s.list.len() >= MAX_DEVICES {
            let ghost before = s.found();
            s.full = true;
            assert(s.found() =~= Found { full: true, ..before });
            return;
        }
        let ghost before = s.found();
        let d = read_device(cfg, bus, dev, func);
        add_bus(&mut s.buses, &d);
        s.list.push(d);
        assert(s.found() =~= Found {
            list: before.list.push(d),
            buses: with_bus(before.buses, d),
            full: false,
        });
        func += 1;
    }
}

/// Scans bus 0, then any buses behind PCI-PCI bridges.
pub fn enumerate(cfg: &ConfigSpace) -> (list: Vec<PciDevice>)
    ensures
        list@ == enumeration(*cfg),
        list@.len() <= MAX_DEVICES,
        forall|i: int| 0 <= i < list@.len() ==> (#[trigger] list@[i]).vendor != 0xFFFF,
{
    let mut s = Scan { list: Vec::new(), buses: vec![0u8], full: false };
    let ghost start = Found { list: Seq::empty(), buses: seq![0u8], full: false };
    assert(s.found() =~= start);
    let mut k: usize = 0;
    while k < s.buses.len() && k < 256 && !s.full
        invariant
            s.sound(),
            k <= 256,
            scan_buses(*cfg, k as int, s.found()) == scan_buses(*cfg, 0, start),
        decreases 256 - k,
    {
        let bus: u8 = s.buses[k];
        let ghost f0 = s.found();
        let mut dev: u8 = 0;
        while dev < 32 && !s.full
            invariant
                dev <= 32,
                s.sound(),
                scan_devs(*cfg, bus, dev as int, s.found()) == scan_devs(*cfg, bus, 0, f0),
            decreases 32 - dev,
        {
            scan_device(cfg, bus, dev, &mut s);
            dev += 1;
        }
        k += 1;
    }
    s.list
}

pub fn device_count(list: &Vec<PciDevice>) -> (n: usize)
    ensures
        n == list@.len(),
{
    list.len()
}

pub fn device(list: &Vec<PciDevice>, i: usize) -> (d: Option<PciDevice>)
    ensures
        d == (if i < list@.len() {
            Some(list@[i as int])
        } else {
            None
        }),
{
    if i < list.len() {
        Some(list[i])
    } else {
        None
    }
}

// ---------- names ----------

/// The name of a device class.
pub open spec fn class_text(d: PciDevice) -> Seq<char> {
    match d.class {
        0x00 => "legacy"@,
        0x01 => match d.subclass {
            0x00 => "storage/SCSI"@,
            0x01 => "storage/IDE"@,
            0x02 => "storage/Floppy"@,
            0x03 => "storage/IPI"@,
            0x04 => "storage/RAID"@,
            0x05 => "storage/ATA"@,
            0x06 => "storage/SATA"@,
            0x07 => "storage/SAS"@,
            0x08 => "storage/NVMe"@,
            _ => "storage"@,
        },
        0x02 => "network"@,
        0x03 => match d.subclass {
            0x00 => "display/VGA"@,
            0x01 => "display/XGA"@,
            0x02 => "display/3D"@,
            _ => "display"@,
        },
        0x04 => match d.subclass {
            0x00 => "multimedia/Video"@,
            0x01 => "multimedia/Audio"@,
            0x03 => "multimedia/HDA"@,
            _ => "multimedia"@,
        },
        0x05 => "memory"@,
        0x06 => match d.subclass {
            0x00 => "bridge/Host"@,
            0x01 => "bridge/ISA"@,
            0x02 => "bridge/EISA"@,
            0x03 => "bridge/MCA"@,
            0x04 => "bridge/PCI-PCI"@,
            0x05 => "bridge/CardBus"@,
            0x06 => "bridge/RACEWAY"@,
            0x0A => "bridge/PCI-PCI sub"@,
            _ => "bridge"@,
        },
        0x07 => "comm"@,
        0x08 => match d.subclass {
            0x00 => "system/PIC"@,
            0x01 => "system/DMA"@,
            0x03 => "system/Timer"@,
            0x04 => "system/RTC"@,
            _ => "system"@,
        },
        0x09 => match d.subclass {
            0x00 => "input/Keyboard"@,
            0x01 => "input/Pen"@,
            0x02 => "input/Mouse"@,
            _ => "input"@,
        },
        0x0A => "docking"@,
        0x0B => "processor"@,
        0x0C => match d.subclass {
            0x00 => "serialbus/FireWire"@,
            0x03 => "serialbus/USB"@,
            0x05 => "serialbus/SMBus"@,
            0x06 => "serialbus/InfiniBand"@,
            _ => "serialbus"@,
        },
        0x0D => "wireless"@,
        0x0E => "intelligent-io"@,
        0x0F => "satellite"@,
        0x10 => "encryption"@,
        0x11 => "signal-proc"@,
        0x12 => "accel"@,
        0x13 => "nonessential"@,
        _ => "unknown"@,
    }
}

pub fn class_name(d: &PciDevice) -> (r: &'static str)
    ensures
        r@ == class_text(*d),
{
    match d.class {
        0x00 => "legacy",
        0x01 => match d.subclass {
            0x00 => "storage/SCSI",
            0x01 => "storage/IDE",
            0x02 => "storage/Floppy",
            0x03 => "storage/IPI",
            0x04 => "storage/RAID",
            0x05 => "storage/ATA",
            0x06 => "storage/SATA",
            0x07 => "storage/SAS",
            0x08 => "storage/NVMe",
            _ => "storage",
        },
        0x02 => "network",
        0x03 => match d.subclass {
            0x00 => "display/VGA",
            0x01 => "display/XGA",
            0x02 => "display/3D",
            _ => "display",
        },
        0x04 => match d.subclass {
            0x00 => "multimedia/Video",
            0x01 => "multimedia/Audio",
            0x03 => "multimedia/HDA",
            _ => "multimedia",
        },
        0x05 => "memory",
        0x06 => match d.subclass {
            0x00 => "bridge/Host",
            0x01 => "bridge/ISA",
            0x02 => "bridge/EISA",
            0x03 => "bridge/MCA",
            0x04 => "bridge/PCI-PCI",
            0x05 => "bridge/CardBus",
            0x06 => "bridge/RACEWAY",
            0x0A => "bridge/PCI-PCI sub",
            _ => "bridge",
        },
        0x07 => "comm",
        0x08 => match d.subclass {
            0x00 => "system/PIC",
            0x01 => "system/DMA",
            0x03 => "system/Timer",
            0x04 => "system/RTC",
            _ => "system",
        },
        0x09 => match d.subclass {
            0x00 => "input/Keyboard",
            0x01 => "input/Pen",
            0x02 => "input/Mouse",
            _ => "input",
        },
        0x0A => "docking",
        0x0B => "processor",
        0x0C => match d.subclass {
            0x00 => "serialbus/FireWire",
            0x03 => "serialbus/USB",
            0x05 => "serialbus/SMBus",
            0x06 => "serialbus/InfiniBand",
            _ => "serialbus",
        },
        0x0D => "wireless",
        0x0E => "intelligent-io",
        0x0F => "satellite",
        0x10 => "encryption",
        0x11 => "signal-proc",
        0x12 => "accel",
        0x13 => "nonessential",
        _ => "unknown",
    }
}

/// The name of a known device; empty where it is not known.
pub open spec fn name_text(d: PciDevice) -> Seq<char> {
    match (d.vendor, d.device) {
        (0x8086, 0x1237) => "Intel 82371AB/PIIX3 host bridge"@,
        (0x8086, 0x7000) => "Intel 82371SB PIIX3 ISA bridge"@,
        (0x8086, 0x7010) => "Intel 82371SB PIIX3 IDE"@,
        (0x8086, 0x7111) => "Intel PIIX4 IDE"@,
        (0x8086, 0x7113) => "Intel PIIX4 ACPI"@,
        (0x8086, 0x2415) => "Intel 82801AA AC97 audio"@,
        (0x8086, 0x7020) => "Intel UHCI USB controller"@,
        (0x8086, 0x100E) => "Intel PRO/1000 (e1000)"@,
        (0x8086, 0x10D3) => "Intel 82574L (e1000e)"@,
        (0x1234, 0x1111) => "QEMU standard VGA"@,
        (0x1AF4, _) => "VirtIO device"@,
        (0x10EC, 0x8029) => "Realtek RTL8029 (ne2k)"@,
        (0x1013, 0x00B8) => "Cirrus CLGD5446 VGA"@,
        (0x1022, _) => "AMD device"@,
        _ => ""@,
    }
}

pub fn device_name(d: &PciDevice) -> (r: &'static str)
    ensures
        r@ == name_text(*d),
{
    match (d.vendor, d.device) {
        (0x8086, 0x1237) => "Intel 82371AB/PIIX3 host bridge",
        (0x8086, 0x7000) => "Intel 82371SB PIIX3 ISA bridge",
        (0x8086, 0x7010) => "Intel 82371SB PIIX3 IDE",
        (0x8086, 0x7111) => "Intel PIIX4 IDE",
        (0x8086, 0x7113) => "Intel PIIX4 ACPI",
        (0x8086, 0x2415) => "Intel 82801AA AC97 audio",
        (0x8086, 0x7020) => "Intel UHCI USB controller",
        (0x8086, 0x100E) => "Intel PRO/1000 (e1000)",
        (0x8086, 0x10D3) => "Intel 82574L (e1000e)",
        (0x1234, 0x1111) => "QEMU standard VGA",
        (0x1AF4, _) => "VirtIO device",
        (0x10EC, 0x8029) => "Realtek RTL8029 (ne2k)",
        (0x1013, 0x00B8) => "Cirrus CLGD5446 VGA",
        (0x1022, _) => "AMD device",
        _ => "",
    }
}

/// The line that shows a device.
pub open spec fn device_line(d: PciDevice) -> Seq<char> {
    let head = "  "@ + hex(d.bus as nat, 2) + ":"@ + hex(d.dev as nat, 2) + "."@ + text::dec(
        d.func as nat,
    ) + "  "@ + hex(d.vendor as nat, 4) + ":"@ + hex(d.device as nat, 4) + "  "@;
    if name_text(d).len() == 0 {
        head + class_text(d)
    } else {
        head + text::left(class_text(d), 16) + "  "@ + name_text(d)
    }
}

/// The lines that show the list of devices.
pub open spec fn listing(list: Seq<PciDevice>) -> Seq<Seq<char>> {
    if list.len() == 0 {
        seq!["PCI: no devices found."@]
    } else {
        seq!["PCI devices ("@ + text::dec(list.len()) + "):"@] + Seq::new(
            list.len(),
            |i: int| device_line(list[i]),
        )
    }
}

/// The line that shows a device.
pub fn show_device(d: &PciDevice) -> (v: Vec<char>)
    ensures
        v@ == device_line(*d),
{
    let mut v: Vec<char> = Vec::new();
    push_str(&mut v, "  ");
    push_hex(&mut v, d.bus as u64, 2);
    push_str(&mut v, ":");
    push_hex(&mut v, d.dev as u64, 2);
    push_str(&mut v, ".");
    text::push_dec(&mut v, d.func as u64);
    push_str(&mut v, "  ");
    push_hex(&mut v, d.vendor as u64, 4);
    push_str(&mut v, ":");
    push_hex(&mut v, d.device as u64, 4);
    push_str(&mut v, "  ");
    let class = chars_of(class_name(d));
    let name = chars_of(device_name(d));
    let ghost head = v@;
    assert(head =~= "  "@ + hex(d.bus as nat, 2) + ":"@ + hex(d.dev as nat, 2) + "."@ + text::dec(
        d.func as nat,
    ) + "  "@ + hex(d.vendor as nat, 4) + ":"@ + hex(d.device as nat, 4) + "  "@);
    if name.len() == 0 {
        text::push_all(&mut v, &class);
    } else {
        push_left(&mut v, &class, 16);
        push_str(&mut v, "  ");
        text::push_all(&mut v, &name);
    }
    v
}

/// The texts of a list of lines.
pub open spec fn lines_view(v: Seq<Vec<char>>) -> Seq<Seq<char>> {
    Seq::new(v.len(), |i: int| v[i]@)
}

/// The lines that show the list of devices.
pub fn print_devices(list: &Vec<PciDevice>) -> (out: Vec<Vec<char>>)
    ensures
        lines_view(out@) == listing(list@),
{
    let mut out: Vec<Vec<char>> = Vec::new();
    if list.len() == 0 {
        out.push(chars_of("PCI: no devices found."));
        assert(lines_view(out@) =~= listing(list@));
        return out;
    }
    let mut head = chars_of("PCI devices (");
    text::push_dec(&mut head, list.len() as u64);
    push_str(&mut head, "):");
    out.push(head);
    let mut k: usize = 0;
    while k < list.len()
        invariant
            k <= list@.len(),
            list@.len() > 0,
            out@.len() == k + 1,
            forall|i: int| 0 <= i <= k ==> #[trigger] out@[i]@ == listing(list@)[i],
        decreases list@.len() - k,
    {
        out.push(show_device(&list[k]));
        k += 1;
    }
    assert(lines_view(out@) =~= listing(list@));
    out
}

// ---------- what an enumeration finds ----------

pub open spec fn answers(cfg: ConfigSpace, bus: u8, dev: int, func: int) -> bool {
    cfg.r16(bus, dev as u8, func as u8, 0) != 0xFFFF
}

/// The device has more than one function.
pub open spec fn multi(cfg: ConfigSpace, bus: u8, dev: int) -> bool {
    cfg.r8(bus, dev as u8, 0, 0x0E) >= 0x80
}

/// A function that can be found: it and those before it answer, and it is the
/// first one or one of a device with several.
pub open spec fn reaches(cfg: ConfigSpace, bus: u8, dev: int, func: int) -> bool {
    &&& 0 <= dev < 32
    &&& 0 <= func < 8
    &&& forall|g: int| 0 <= g <= func ==> #[trigger] answers(cfg, bus, dev, g)
    &&& func > 0 ==> multi(cfg, bus, dev)
}

/// The entry is a bridge to the bus.
pub open spec fn leads_to(d: PciDevice, bus: u8) -> bool {
    d.header_type == 1 && d.secondary_bus == bus
}

/// The bus is the first one, or one behind a bridge of the list.
pub open spec fn known_bus(list: Seq<PciDevice>, bus: u8) -> bool {
    bus == 0 || exists|j: int| 0 <= j < list.len() && leads_to(#[trigger] list[j], bus)
}

/// The scan comes to function `g` of device `e` on the `i`-th bus before it
/// comes to function `func` of device `dev` on the `k`-th.
pub open spec fn before(i: int, e: int, g: int, k: int, dev: int, func: int) -> bool {
    i < k || (i == k && (e < dev || (e == dev && g < func)))
}

/// The entry was found before.
pub open spec fn found_before(buses: Seq<u8>, d: PciDevice, k: int, dev: int, func: int) -> bool {
    exists|i: int|
        0 <= i < buses.len() && #[trigger] buses[i] == d.bus && before(
            i,
            d.dev as int,
            d.func as int,
            k,
            dev,
            func,
        )
}

/// What a scan has found when it comes to a function.
spec fn scanned(cfg: ConfigSpace, f: Found, k: int, dev: int, func: int) -> bool {
    &&& f.buses.len() >= 1 && f.buses[0] == 0
    &&& forall|a: int, b: int|
        0 <= a < b < f.buses.len() ==> #[trigger] f.buses[a] != #[trigger] f.buses[b]
    &&& forall|b: int| 0 <= b < f.buses.len() ==> known_bus(f.list, #[trigger] f.buses[b])
    &&& forall|j: int|
        0 <= j < f.list.len() && (#[trigger] f.list[j]).header_type == 1 ==> f.buses.contains(
            f.list[j].secondary_bus,
        )
    &&& forall|j: int|
        0 <= j < f.list.len() ==> {
            let d = #[trigger] f.list[j];
            &&& d == device_at(cfg, d.bus, d.dev, d.func)
            &&& reaches(cfg, d.bus, d.dev as int, d.func as int)
            &&& found_before(f.buses, d, k, dev, func)
        }
    &&& forall|a: int, b: int|
        0 <= a < b < f.list.len() ==> !same_place(#[trigger] f.list[a], #[trigger] f.list[b])
    &&& f.full ==> f.list.len() >= 64
    &&& !f.full ==> forall|i: int, e: int, g: int|
        0 <= i < f.buses.len() && before(i, e, g, k, dev, func) && #[trigger] reaches(
            cfg,
            f.buses[i],
            e,
            g,
        ) ==> f.list.contains(device_at(cfg, f.buses[i], e as u8, g as u8))
}

/// The two entries are of the same function.
pub open spec fn same_place(a: PciDevice, b: PciDevice) -> bool {
    a.bus == b.bus && a.dev == b.dev && a.func == b.func
}

proof fn later(cfg: ConfigSpace, f: Found, k: int, dev: int, func: int, dev2: int, func2: int)
    requires
        scanned(cfg, f, k, dev, func),
        0 <= k < f.buses.len(),
        dev < dev2 || (dev == dev2 && func <= func2),
        !f.full ==> forall|e: int, g: int|
            !before(k, e, g, k, dev, func) && before(k, e, g, k, dev2, func2) ==> !#[trigger] reaches(
                cfg,
                f.buses[k],
                e,
                g,
            ),
    ensures
        scanned(cfg, f, k, dev2, func2),
{
    assert forall|j: int| 0 <= j < f.list.len() implies found_before(
        f.buses,
        #[trigger] f.list[j],
        k,
        dev2,
        func2,
    ) by {
        let d = f.list[j];
        assert(found_before(f.buses, d, k, dev, func));
        let i = choose|i: int|
            0 <= i < f.buses.len() && #[trigger] f.buses[i] == d.bus && before(
                i,
                d.dev as int,
                d.func as int,
                k,
                dev,
                func,
            );
        assert(f.buses[i] == d.bus && before(i, d.dev as int, d.func as int, k, dev2, func2));
    }
    if !f.full {
        assert forall|i: int, e: int, g: int|
            0 <= i < f.buses.len() && before(i, e, g, k, dev2, func2) && #[trigger] reaches(
                cfg,
                f.buses[i],
                e,
                g,
            ) implies f.list.contains(device_at(cfg, f.buses[i], e as u8, g as u8)) by {
            if i == k {
                assert(before(k, e, g, k, dev, func));
            }
        }
    }
}

/// An entry is added.
proof fn one_found(cfg: ConfigSpace, f: Found, k: int, dev: int, func: int)
    requires
        scanned(cfg, f, k, dev, func),
        !f.full,
        0 <= k < f.buses.len(),
        reaches(cfg, f.buses[k], dev, func),
    ensures
        ({
            let d = device_at(cfg, f.buses[k], dev as u8, func as u8);
            let t = Found { list: f.list.push(d), buses: with_bus(f.buses, d), full: false };
            scanned(cfg, t, k, dev, func + 1) && t.buses[k] == f.buses[k] && k < t.buses.len()
        }),
{
    let d = device_at(cfg, f.buses[k], dev as u8, func as u8);
    let t = Found { list: f.list.push(d), buses: with_bus(f.buses, d), full: false };
    let n = f.list.len() as int;
    assert(t.list[n] == d);
    assert forall|i: int| 0 <= i < f.buses.len() implies #[trigger] t.buses[i] == f.buses[i] by {}
    assert forall|j: int| 0 <= j < n implies #[trigger] t.list[j] == f.list[j] by {}
    assert forall|a: int, b: int| 0 <= a < b < t.buses.len() implies #[trigger] t.buses[a]
        != #[trigger] t.buses[b] by {
        if b == f.buses.len() {
            assert(f.buses.contains(f.buses[a]));
        }
    }
    assert forall|b: int| 0 <= b < t.buses.len() implies known_bus(t.list, #[trigger] t.buses[b]) by {
        if b < f.buses.len() {
            let c = f.buses[b];
            assert(known_bus(f.list, f.buses[b]));
            if c != 0 {
                let j = choose|j: int| 0 <= j < n && leads_to(#[trigger] f.list[j], c);
                assert(leads_to(t.list[j], c));
            }
        } else {
            assert(leads_to(t.list[n], t.buses[b]));
        }
    }
    assert forall|j: int| 0 <= j < t.list.len() && (#[trigger] t.list[j]).header_type == 1 implies t.buses.contains(
        t.list[j].secondary_bus,
    ) by {
        if j < n {
            assert(f.list[j].header_type == 1);
            let i = choose|i: int| 0 <= i < f.buses.len() && f.buses[i] == f.list[j].secondary_bus;
            assert(t.buses[i] == f.buses[i]);
        } else if f.buses.contains(d.secondary_bus) {
            let i = choose|i: int| 0 <= i < f.buses.len() && f.buses[i] == d.secondary_bus;
            assert(t.buses[i] == f.buses[i]);
        } else {
            assert(t.buses[f.buses.len() as int] == d.secondary_bus);
        }
    }
    assert forall|j: int| 0 <= j < t.list.len() implies found_before(
        t.buses,
        #[trigger] t.list[j],
        k,
        dev,
        func + 1,
    ) by {
        let x = t.list[j];
        if j < n {
            assert(found_before(f.buses, f.list[j], k, dev, func));
            let i = choose|i: int|
                0 <= i < f.buses.len() && #[trigger] f.buses[i] == x.bus && before(
                    i,
                    x.dev as int,
                    x.func as int,
                    k,
                    dev,
                    func,
                );
            assert(t.buses[i] == x.bus && before(i, x.dev as int, x.func as int, k, dev, func + 1));
        } else {
            assert(t.buses[k] == x.bus && before(k, x.dev as int, x.func as int, k, dev, func + 1));
        }
    }
    assert forall|a: int, b: int| 0 <= a < b < t.list.len() implies !same_place(
        #[trigger] t.list[a],
        #[trigger] t.list[b],
    ) by {
        if b == n {
            let x = f.list[a];
            assert(found_before(f.buses, f.list[a], k, dev, func));
            let i = choose|i: int|
                0 <= i < f.buses.len() && #[trigger] f.buses[i] == x.bus && before(
                    i,
                    x.dev as int,
                    x.func as int,
                    k,
                    dev,
                    func,
                );
            if x.bus == d.bus && i != k {
                assert(f.buses[i] != f.buses[k]);
            }
        }
    }
    assert forall|i: int, e: int, g: int|
        0 <= i < t.buses.len() && before(i, e, g, k, dev, func + 1) && #[trigger] reaches(
            cfg,
            t.buses[i],
            e,
            g,
        ) implies t.list.contains(device_at(cfg, t.buses[i], e as u8, g as u8)) by {
        let x = device_at(cfg, t.buses[i], e as u8, g as u8);
        if i == k && e == dev && g == func {
            assert(t.list[n] == x);
        } else {
            assert(reaches(cfg, f.buses[i], e, g));
            let j = choose|j: int| 0 <= j < n && f.list[j] == x;
            assert(t.list[j] == x);
        }
    }
}

proof fn funcs_scanned(cfg: ConfigSpace, f: Found, k: int, dev: int, func: int, m: bool)
    requires
        scanned(cfg, f, k, dev, func),
        !f.full,
        0 <= k < f.buses.len(),
        0 <= dev < 32,
        0 <= func <= 8,
        func > 0 ==> m == multi(cfg, f.buses[k], dev),
        forall|g: int| 0 <= g < func ==> #[trigger] answers(cfg, f.buses[k], dev, g),
    ensures
        ({
            let t = scan_funcs(cfg, f.buses[k], dev as u8, func, m, f);
            &&& scanned(cfg, t, k, dev + 1, 0)
            &&& k < t.buses.len() && t.buses[k] == f.buses[k]
        }),
    decreases 8 - func,
{
    let bus = f.buses[k];
    let mm = if func == 0 {
        multi(cfg, bus, dev)
    } else {
        m
    };
    if func >= 8 || (func > 0 && !mm) || !answers(cfg, bus, dev, func) {
        assert forall|e: int, g: int|
            !before(k, e, g, k, dev, func) && before(k, e, g, k, dev + 1, 0) implies !#[trigger] reaches(
            cfg,
            bus,
            e,
            g,
        ) by {
            if reaches(cfg, bus, e, g) {
                assert(e == dev && g >= func);
                assert(answers(cfg, bus, dev, func));
            }
        }
        later(cfg, f, k, dev, func, dev + 1, 0);
    } else if f.list.len() >= 64 {
        let t = Found { full: true, ..f };
        assert(scanned(cfg, t, k, dev, func));
        later(cfg, t, k, dev, func, dev + 1, 0);
    } else {
        assert(reaches(cfg, bus, dev, func));
        one_found(cfg, f, k, dev, func);
        let d = device_at(cfg, bus, dev as u8, func as u8);
        let t = Found { list: f.list.push(d), buses: with_bus(f.buses, d), full: false };
        funcs_scanned(cfg, t, k, dev, func + 1, mm);
    }
}

proof fn devs_scanned(cfg: ConfigSpace, f: Found, k: int, dev: int)
    requires
        scanned(cfg, f, k, dev, 0),
        0 <= k < f.buses.len(),
        0 <= dev <= 32,
    ensures
        ({
            let t = scan_devs(cfg, f.buses[k], dev, f);
            &&& scanned(cfg, t, k + 1, 0, 0)
            &&& k < t.buses.len()
        }),
    decreases 32 - dev,
{
    if dev < 32 && !f.full {
        funcs_scanned(cfg, f, k, dev, 0, false);
        devs_scanned(cfg, scan_funcs(cfg, f.buses[k], dev as u8, 0, false, f), k, dev + 1);
    } else {
        assert forall|j: int| 0 <= j < f.list.len() implies found_before(
            f.buses,
            #[trigger] f.list[j],
            k + 1,
            0,
            0,
        ) by {
            let x = f.list[j];
            assert(found_before(f.buses, x, k, dev, 0));
            let i = choose|i: int|
                0 <= i < f.buses.len() && #[trigger] f.buses[i] == x.bus && before(
                    i,
                    x.dev as int,
                    x.func as int,
                    k,
                    dev,
                    0,
                );
            assert(f.buses[i] == x.bus && before(i, x.dev as int, x.func as int, k + 1, 0, 0));
        }
    }
}

proof fn buses_scanned(cfg: ConfigSpace, f: Found, k: int)
    requires
        scanned(cfg, f, k, 0, 0),
        0 <= k <= f.buses.len(),
        k <= 256,
    ensures
        ({
            let t = scan_buses(cfg, k, f);
            scanned(cfg, t, t.buses.len() as int, 0, 0) || t.full && scanned(cfg, t, 256, 0, 0)
        }),
    decreases 256 - k,
{
    if k >= 256 {
        distinct_bytes(f.buses);
    }
    if k < f.buses.len() && k < 256 && !f.full {
        devs_scanned(cfg, f, k, 0);
        buses_scanned(cfg, scan_devs(cfg, f.buses[k], 0, f), k + 1);
    } else if f.full {
        assert forall|j: int| 0 <= j < f.list.len() implies found_before(
            f.buses,
            #[trigger] f.list[j],
            256,
            0,
            0,
        ) by {
            let x = f.list[j];
            assert(found_before(f.buses, x, k, 0, 0));
            let i = choose|i: int|
                0 <= i < f.buses.len() && #[trigger] f.buses[i] == x.bus && before(
                    i,
                    x.dev as int,
                    x.func as int,
                    k,
                    0,
                    0,
                );
            assert(f.buses[i] == x.bus && before(i, x.dev as int, x.func as int, 256, 0, 0));
        }
    }
}

/// There are no more than 256 different buses.
proof fn distinct_bytes(s: Seq<u8>)
    requires
        forall|a: int, b: int| 0 <= a < b < s.len() ==> #[trigger] s[a] != #[trigger] s[b],
    ensures
        s.len() <= 256,
{
    let all = s.to_set();
    assert(s.no_duplicates());
    s.unique_seq_to_set();
    let ints = vstd::set_lib::set_int_range(0, 256);
    vstd::set_lib::lemma_int_range(0, 256);
    let m = all.map(|b: u8| b as int);
    assert(m.subset_of(ints));
    vstd::set_lib::lemma_map_size(all, m, |b: u8| b as int);
    vstd::set_lib::lemma_len_subset(m, ints);
}

/// An enumeration lists functions that answer, on buses that it found a bridge
/// to, none of them twice; below 64 entries it misses none.
pub proof fn enumeration_is_complete(cfg: ConfigSpace)
    ensures
        ({
            let list = enumeration(cfg);
            &&& forall|j: int|
                0 <= j < list.len() ==> {
                    let d = #[trigger] list[j];
                    &&& d == device_at(cfg, d.bus, d.dev, d.func)
                    &&& reaches(cfg, d.bus, d.dev as int, d.func as int)
                    &&& known_bus(list, d.bus)
                }
            &&& forall|a: int, b: int|
                0 <= a < b < list.len() ==> !same_place(#[trigger] list[a], #[trigger] list[b])
            &&& list.len() < 64 ==> forall|bus: u8, dev: int, func: int|
                known_bus(list, bus) && #[trigger] reaches(cfg, bus, dev, func) ==> list.contains(
                    device_at(cfg, bus, dev as u8, func as u8),
                )
        }),
{
    let start = Found { list: Seq::empty(), buses: seq![0u8], full: false };
    assert(scanned(cfg, start, 0, 0, 0));
    buses_scanned(cfg, start, 0);
    let t = scan_buses(cfg, 0, start);
    let list = t.list;
    assert forall|j: int| 0 <= j < list.len() implies known_bus(list, (#[trigger] list[j]).bus) by {
        let x = list[j];
        assert(found_before(t.buses, x, t.buses.len() as int, 0, 0) || found_before(
            t.buses,
            x,
            256,
            0,
            0,
        ));
        let i = choose|i: int| 0 <= i < t.buses.len() && #[trigger] t.buses[i] == x.bus;
        assert(known_bus(list, t.buses[i]));
    }
    if list.len() < 64 {
        assert forall|bus: u8, dev: int, func: int|
            known_bus(list, bus) && #[trigger] reaches(cfg, bus, dev, func) implies list.contains(
            device_at(cfg, bus, dev as u8, func as u8),
        ) by {
            assert(t.buses.contains(bus)) by {
                if bus != 0 {
                    let j = choose|j: int| 0 <= j < list.len() && leads_to(#[trigger] list[j], bus);
                    assert(list[j].header_type == 1);
                } else {
                    assert(t.buses[0] == bus);
                }
            }
            let i = choose|i: int| 0 <= i < t.buses.len() && t.buses[i] == bus;
            assert(reaches(cfg, t.buses[i], dev, func));
        }
    }
}

/// The address of a register holds its bus, device, function and word in bits of
/// their own, and is marked as an access to the configuration space.
pub proof fn address_holds_its_parts(bus: u8, dev: u8, func: u8, offset: u16)
    requires
        dev < 32,
        func < 8,
        offset < 256,
    ensures
        ({
            let a = address(bus, dev, func, offset);
            &&& a >> 31 == 1
            &&& (a >> 16) & 0xFF == bus
            &&& (a >> 11) & 0x1F == dev
            &&& (a >> 8) & 7 == func
            &&& a & 0xFF == offset & 0xFC
        }),
{
    let a = address(bus, dev, func, offset);
    assert(a >> 31 == 1 && (a >> 16) & 0xFF == bus && (a >> 11) & 0x1F == dev && (a >> 8) & 7 == func
        && a & 0xFF == (offset as u32) & 0xFC) by (bit_vector)
        requires
            dev < 32,
            func < 8,
            offset < 256,
            a == 0x8000_0000u32 | ((bus as u32) << 16) | ((dev as u32) << 11) | ((func as u32) << 8)
                | ((offset as u32) & 0xFC),
    ;
    assert((offset as u32) & 0xFC == offset & 0xFC) by (bit_vector);
}

} // verus!
