//! The boot log.

use vstd::prelude::*;
use crate::ata;
use crate::ata::{AtaDevice, Devices};
use crate::cpu::CpuIdResult;
use crate::framebuffer::{bg_color, fg_color, red, FrameBufferInfo, PixelFormat, Rgb};
use crate::fs::FsErr;
use crate::mem::{MemoryRegion, RegionKind};
use crate::pci;
use crate::pci::{lines_view, PciDevice};
use crate::ps2::Ps2InitReport;
use crate::settings;
use crate::settings::Settings;
use crate::text;
use crate::text::{chars_of, push_bool, push_dec, push_hex, push_str};
use crate::tty::{line, nothing, outs, put, put_line, put_str, Out, OutView};

verus! {

/// A line of the boot log: it went well, or not.
pub struct Entry {
    pub good: bool,
    pub text: Vec<char>,
}

pub open spec fn entries(v: Seq<Entry>) -> Seq<(bool, Seq<char>)> {
    Seq::new(v.len(), |i: int| (v[i].good, v[i].text@))
}

/// A line with its marker.
pub open spec fn marked(color: Rgb, marker: Seq<char>, t: Seq<char>) -> Seq<OutView> {
    seq![
        OutView::Colors(color, bg_color()),
        OutView::Text("["@ + text::centered(marker, 6) + "] "@),
        OutView::Fg(fg_color()),
        line(t),
        OutView::Reset,
    ]
}

fn mark(color: Rgb, marker: &str, t: Vec<char>) -> (v: Vec<Out>)
    ensures
        outs(v@) == marked(color, marker@, t@),
{
    let mut head = chars_of("[");
    text::push_centered(&mut head, &chars_of(marker), 6);
    push_str(&mut head, "] ");
    let mut v = nothing();
    put(&mut v, Out::Colors(color, bg_color()));
    put(&mut v, Out::Text(head));
    put(&mut v, Out::Fg(fg_color()));
    put_line(&mut v, t);
    put(&mut v, Out::Reset);
    assert(outs(v@) =~= marked(color, marker@, t@));
    v
}

/// A plain line of the boot log.
pub fn info(t: Vec<char>) -> (v: Vec<Out>)
    ensures
        outs(v@) == seq![
            OutView::Colors(Rgb(150, 170, 215), bg_color()),
            line(t@),
            OutView::Reset,
        ],
{
    let mut v = nothing();
    put(&mut v, Out::Colors(Rgb(150, 170, 215), bg_color()));
    put_line(&mut v, t);
    put(&mut v, Out::Reset);
    assert(outs(v@) =~= seq![
        OutView::Colors(Rgb(150, 170, 215), bg_color()),
        line(t@),
        OutView::Reset,
    ]);
    v
}

/// A line of the boot log for a step that went well.
pub fn ok(t: Vec<char>) -> (v: Vec<Out>)
    ensures
        outs(v@) == marked(Rgb(110, 220, 120), "OK"@, t@),
{
    mark(Rgb(110, 220, 120), "OK", t)
}

/// A line of the boot log for a step that failed.
pub fn fail(t: Vec<char>) -> (v: Vec<Out>)
    ensures
        outs(v@) == marked(red(), "FAIL"@, t@),
{
    mark(red(), "FAIL", t)
}

pub open spec fn shown(e: (bool, Seq<char>)) -> Seq<OutView> {
    if e.0 {
        marked(Rgb(110, 220, 120), "OK"@, e.1)
    } else {
        marked(red(), "FAIL"@, e.1)
    }
}

/// A line of the boot log.
pub fn show(e: Entry) -> (v: Vec<Out>)
    ensures
        outs(v@) == shown((e.good, e.text@)),
{
    if e.good {
        ok(e.text)
    } else {
        fail(e.text)
    }
}

// ---------- memory ----------

/// The bytes of the usable regions among the first `n`.
pub open spec fn usable_bytes(r: Seq<MemoryRegion>, n: int) -> int
    decreases n,
{
    if n <= 0 {
        0
    } else {
        usable_bytes(r, n - 1) + if r[n - 1].kind == RegionKind::Usable && r[n - 1].end > r[n
            - 1].start {
            r[n - 1].end - r[n - 1].start
        } else {
            0
        }
    }
}

/// The usable memory in megabytes; a sum that does not fit counts as the
/// largest number.
pub fn usable_mem_mb(regions: &Vec<MemoryRegion>) -> (mb: u64)
    ensures
        mb == ({
            let all = usable_bytes(regions@, regions@.len() as int);
            if all > u64::MAX {
                u64::MAX / 1024 / 1024
            } else {
                (all / 1024 / 1024) as u64
            }
        }),
{
    let mut sum: u64 = 0;
    let mut k: usize = 0;
    while k < regions.len()
        invariant
            k <= regions@.len(),
            sum == ({
                let all = usable_bytes(regions@, k as int);
                if all > u64::MAX {
                    u64::MAX as int
                } else {
                    all
                }
            }),
            usable_bytes(regions@, k as int) >= 0,
        decreases regions@.len() - k,
    {
        let r = regions[k];
        if r.kind == RegionKind::Usable {
            sum = sum.saturating_add(r.end.saturating_sub(r.start));
        }
        k += 1;
    }
    sum / 1024 / 1024
}

pub open spec fn kind_text(k: RegionKind) -> Seq<char> {
    match k {
        RegionKind::Usable => "Usable"@,
        RegionKind::Bootloader => "Bootloader"@,
        RegionKind::UnknownUefi(n) => "UnknownUefi("@ + text::dec(n as nat) + ")"@,
        RegionKind::UnknownBios(n) => "UnknownBios("@ + text::dec(n as nat) + ")"@,
    }
}

fn show_kind(k: RegionKind) -> (v: Vec<char>)
    ensures
        v@ == kind_text(k),
{
    match k {
        RegionKind::Usable => chars_of("Usable"),
        RegionKind::Bootloader => chars_of("Bootloader"),
        RegionKind::UnknownUefi(n) => {
            let mut v = chars_of("UnknownUefi(");
            push_dec(&mut v, n as u64);
            push_str(&mut v, ")");
            v
        },
        RegionKind::UnknownBios(n) => {
            let mut v = chars_of("UnknownBios(");
            push_dec(&mut v, n as u64);
            push_str(&mut v, ")");
            v
        },
    }
}

pub open spec fn memory_text(mb: u64, n: nat) -> Seq<char> {
    "Memory map: "@ + text::dec(mb as nat) + " MB usable, "@ + text::dec(n) + " regions"@
}

pub fn memory_line(mb: u64, regions: &Vec<MemoryRegion>) -> (v: Vec<char>)
    ensures
        v@ == memory_text(mb, regions@.len()),
{
    let mut v = chars_of("Memory map: ");
    push_dec(&mut v, mb);
    push_str(&mut v, " MB usable, ");
    push_dec(&mut v, regions.len() as u64);
    push_str(&mut v, " regions");
    v
}

pub open spec fn region_text(i: nat, r: MemoryRegion) -> Seq<char> {
    "  Region "@ + text::dec2(i) + ": 0x"@ + text::hex(r.start as nat, 16) + " - 0x"@
        + text::hex(r.end as nat, 16) + " ("@ + kind_text(r.kind) + ", "@ + text::dec(
        if r.end > r.start {
            (r.end - r.start) as nat / 1024
        } else {
            0
        },
    ) + " KB)"@
}

pub fn region_line(i: usize, r: &MemoryRegion) -> (v: Vec<char>)
    ensures
        v@ == region_text(i as nat, *r),
{
    let mut v = chars_of("  Region ");
    text::push_dec2(&mut v, i as u64);
    push_str(&mut v, ": 0x");
    push_hex(&mut v, r.start, 16);
    push_str(&mut v, " - 0x");
    push_hex(&mut v, r.end, 16);
    push_str(&mut v, " (");
    text::push_all(&mut v, &show_kind(r.kind));
    push_str(&mut v, ", ");
    push_dec(&mut v, r.end.saturating_sub(r.start) / 1024);
    push_str(&mut v, " KB)");
    v
}

// ---------- devices ----------

pub open spec fn ps2_entry(r: Ps2InitReport) -> (bool, Seq<char>) {
    if r.controller_ok && r.device_ok {
        (true, "PS/2: controller self-test passed, scancode set 1, IRQ1 armed"@)
    } else {
        (
            false,
            "PS/2: degraded mode (ctrl ok: "@ + text::truth(r.controller_ok) + ", device ok: "@
                + text::truth(r.device_ok) + ")"@,
        )
    }
}

pub fn ps2_line(r: &Ps2InitReport) -> (e: Entry)
    ensures
        (e.good, e.text@) == ps2_entry(*r),
{
    if r.controller_ok && r.device_ok {
        Entry {
            good: true,
            text: chars_of("PS/2: controller self-test passed, scancode set 1, IRQ1 armed"),
        }
    } else {
        let mut v = chars_of("PS/2: degraded mode (ctrl ok: ");
        push_bool(&mut v, r.controller_ok);
        push_str(&mut v, ", device ok: ");
        push_bool(&mut v, r.device_ok);
        push_str(&mut v, ")");
        Entry { good: false, text: v }
    }
}

pub open spec fn format_text(f: PixelFormat) -> Seq<char> {
    match f {
        PixelFormat::Rgb => "Rgb"@,
        PixelFormat::Bgr => "Bgr"@,
        PixelFormat::U8 => "U8"@,
        PixelFormat::Unknown { red_position, green_position, blue_position } =>
        "Unknown { red_position: "@ + text::dec(red_position as nat) + ", green_position: "@
            + text::dec(green_position as nat) + ", blue_position: "@ + text::dec(
            blue_position as nat,
        ) + " }"@,
    }
}

/// The name of a pixel format.
pub fn show_format(f: PixelFormat) -> (v: Vec<char>)
    ensures
        v@ == format_text(f),
{
    match f {
        PixelFormat::Rgb => chars_of("Rgb"),
        PixelFormat::Bgr => chars_of("Bgr"),
        PixelFormat::U8 => chars_of("U8"),
        PixelFormat::Unknown { red_position, green_position, blue_position } => {
            let mut v = chars_of("Unknown { red_position: ");
            push_dec(&mut v, red_position as u64);
            push_str(&mut v, ", green_position: ");
            push_dec(&mut v, green_position as u64);
            push_str(&mut v, ", blue_position: ");
            push_dec(&mut v, blue_position as u64);
            push_str(&mut v, " }");
            v
        },
    }
}

pub open spec fn framebuffer_entry(i: Option<FrameBufferInfo>) -> (bool, Seq<char>) {
    match i {
        None => (false, "No framebuffer available"@),
        Some(i) => (
            true,
            "Framebuffer: "@ + text::dec(i.width as nat) + "x"@ + text::dec(i.height as nat)
                + " px, "@ + text::dec((i.bytes_per_pixel * 8) as nat) + " BPP ("@ + format_text(
                i.pixel_format,
            ) + "), stride "@ + text::dec(i.stride as nat),
        ),
    }
}

pub fn framebuffer_line(i: Option<FrameBufferInfo>) -> (e: Entry)
    requires
        i matches Some(x) ==> x.bytes_per_pixel <= 0x1000_0000,
    ensures
        (e.good, e.text@) == framebuffer_entry(i),
{
    match i {
        None => Entry { good: false, text: chars_of("No framebuffer available") },
        Some(i) => {
            let mut v = chars_of("Framebuffer: ");
            push_dec(&mut v, i.width as u64);
            push_str(&mut v, "x");
            push_dec(&mut v, i.height as u64);
            push_str(&mut v, " px, ");
            push_dec(&mut v, i.bytes_per_pixel as u64 * 8);
            push_str(&mut v, " BPP (");
            text::push_all(&mut v, &show_format(i.pixel_format));
            push_str(&mut v, "), stride ");
            push_dec(&mut v, i.stride as u64);
            Entry { good: true, text: v }
        },
    }
}

/// The vendor as text.
pub open spec fn vendor_text(vendor: Seq<u8>) -> Seq<char> {
    if vstd::utf8::valid_utf8(vendor) {
        vstd::utf8::decode_utf8(vendor)
    } else {
        "Unknown"@
    }
}

/// The vendor as text.
pub fn show_vendor(vendor: &[u8]) -> (v: Vec<char>)
    ensures
        v@ == vendor_text(vendor@),
{
    match text::from_utf8(vendor) {
        Some(s) => chars_of(&s),
        None => chars_of("Unknown"),
    }
}

pub open spec fn bit(v: u32, weight: u32) -> bool {
    v / weight % 2 == 1
}

pub open spec fn cpu_text(f: CpuIdResult, vendor: Seq<u8>) -> Seq<Seq<char>> {
    seq![
        "CPU: 0x"@ + text::hex(f.eax as nat, 0) + " model, vendor "@ + vendor_text(vendor),
        "CPU features: FPU:"@ + text::truth(bit(f.edx, 1)) + " PSE:"@ + text::truth(
            bit(f.edx, 8),
        ) + " TSC:"@ + text::truth(bit(f.edx, 16)) + " PAE:"@ + text::truth(bit(f.edx, 64))
            + " SSE:"@ + text::truth(bit(f.edx, 0x200_0000)) + " SSE2:"@ + text::truth(
            bit(f.edx, 0x400_0000),
        ) + " SSE3:"@ + text::truth(bit(f.ecx, 1)) + " SSSE3:"@ + text::truth(
            bit(f.ecx, 0x200),
        ) + " SSE4.1:"@ + text::truth(bit(f.ecx, 0x8_0000)) + " SSE4.2:"@ + text::truth(
            bit(f.ecx, 0x10_0000),
        ),
    ]
}

/// The lines for the processor: its model and vendor, and its features.
pub fn cpu_lines(f: &CpuIdResult, vendor: &[u8]) -> (out: Vec<Vec<char>>)
    ensures
        lines_view(out@) == cpu_text(*f, vendor@),
{
    let mut a = chars_of("CPU: 0x");
    push_hex(&mut a, f.eax as u64, 0);
    push_str(&mut a, " model, vendor ");
    text::push_all(&mut a, &show_vendor(vendor));
    let mut b = chars_of("CPU features: FPU:");
    push_bool(&mut b, f.edx % 2 == 1);
    push_str(&mut b, " PSE:");
    push_bool(&mut b, f.edx / 8 % 2 == 1);
    push_str(&mut b, " TSC:");
    push_bool(&mut b, f.edx / 16 % 2 == 1);
    push_str(&mut b, " PAE:");
    push_bool(&mut b, f.edx / 64 % 2 == 1);
    push_str(&mut b, " SSE:");
    push_bool(&mut b, f.edx / 0x200_0000 % 2 == 1);
    push_str(&mut b, " SSE2:");
    push_bool(&mut b, f.edx / 0x400_0000 % 2 == 1);
    push_str(&mut b, " SSE3:");
    push_bool(&mut b, f.ecx % 2 == 1);
    push_str(&mut b, " SSSE3:");
    push_bool(&mut b, f.ecx / 0x200 % 2 == 1);
    push_str(&mut b, " SSE4.1:");
    push_bool(&mut b, f.ecx / 0x8_0000 % 2 == 1);
    push_str(&mut b, " SSE4.2:");
    push_bool(&mut b, f.ecx / 0x10_0000 % 2 == 1);
    let mut out: Vec<Vec<char>> = Vec::new();
    out.push(a);
    out.push(b);
    assert(lines_view(out@) =~= cpu_text(*f, vendor@));
    out
}

pub open spec fn channel_text(d: AtaDevice) -> Seq<char> {
    if d.is_secondary {
        "secondary"@
    } else {
        "primary"@
    }
}

pub open spec fn position_text(d: AtaDevice) -> Seq<char> {
    if d.master {
        "master"@
    } else {
        "slave"@
    }
}

pub fn channel_str(d: &AtaDevice) -> (r: &'static str)
    ensures
        r@ == channel_text(*d),
{
    if d.is_secondary {
        "secondary"
    } else {
        "primary"
    }
}

pub fn position_str(d: &AtaDevice) -> (r: &'static str)
    ensures
        r@ == position_text(*d),
{
    if d.master {
        "master"
    } else {
        "slave"
    }
}

pub open spec fn yes_no(b: bool) -> Seq<char> {
    if b {
        "yes"@
    } else {
        "no"@
    }
}

pub fn push_yes_no(v: &mut Vec<char>, b: bool)
    ensures
        final(v)@ == old(v)@ + yes_no(b),
{
    push_str(
        v,
        if b {
            "yes"
        } else {
            "no"
        },
    );
}

/// The line for the device in slot `i`.
pub open spec fn disk_entry(i: nat, d: AtaDevice) -> (bool, Seq<char>) {
    let head = "Disk "@ + text::dec(i) + ": "@ + channel_text(d) + ":"@ + position_text(d)
        + " - "@;
    if d.present {
        (
            true,
            head + text::dec(d.sectors as nat) + " sectors ("@ + text::dec(d.capacity_mb as nat)
                + " MB), LBA "@ + yes_no(d.lba_supported) + ", "@ + ata::model_text(d.model@),
        )
    } else {
        (false, head + "no device"@)
    }
}

fn disk_line(i: usize, d: &AtaDevice) -> (e: Entry)
    ensures
        (e.good, e.text@) == disk_entry(i as nat, *d),
{
    let mut v = chars_of("Disk ");
    push_dec(&mut v, i as u64);
    push_str(&mut v, ": ");
    push_str(&mut v, channel_str(d));
    push_str(&mut v, ":");
    push_str(&mut v, position_str(d));
    push_str(&mut v, " - ");
    if d.present {
        push_dec(&mut v, d.sectors);
        push_str(&mut v, " sectors (");
        push_dec(&mut v, d.capacity_mb);
        push_str(&mut v, " MB), LBA ");
        push_yes_no(&mut v, d.lba_supported);
        push_str(&mut v, ", ");
        push_str(&mut v, &d.model_str());
        Entry { good: true, text: v }
    } else {
        push_str(&mut v, "no device");
        Entry { good: false, text: v }
    }
}

/// The lines for the disks.
pub open spec fn disk_entries(t: Devices) -> Seq<(bool, Seq<char>)> {
    seq![
        (
            true,
            "ATA: scanned 8 devices, "@ + text::dec(t.count as nat) + " present"@,
        ),
    ] + Seq::new(8, |i: int| disk_entry(i as nat, t.slots@[i]))
}

pub fn disk_lines(t: &Devices) -> (out: Vec<Entry>)
    requires
        t.wf(),
    ensures
        entries(out@) == disk_entries(*t),
{
    let mut head = chars_of("ATA: scanned 8 devices, ");
    push_dec(&mut head, t.count as u64);
    push_str(&mut head, " present");
    let mut out: Vec<Entry> = Vec::new();
    out.push(Entry { good: true, text: head });
    let mut i: usize = 0;
    while i < 8
        invariant
            t.wf(),
            i <= 8,
            out@.len() == i + 1,
            forall|k: int|
                0 <= k <= i ==> (#[trigger] out@[k].good, out@[k].text@) == disk_entries(*t)[k],
        decreases 8 - i,
    {
        out.push(disk_line(i, &t.slots[i]));
        i += 1;
    }
    assert(entries(out@) =~= disk_entries(*t));
    out
}

/// The lines for the devices on the bus.
pub open spec fn pci_text(list: Seq<PciDevice>) -> Seq<Seq<char>> {
    seq!["PCI: "@ + text::dec(list.len()) + " devices found"@] + Seq::new(
        list.len(),
        |i: int| pci::device_line(list[i]),
    )
}

pub fn pci_lines(list: &Vec<PciDevice>) -> (out: Vec<Vec<char>>)
    ensures
        lines_view(out@) == pci_text(list@),
{
    let mut head = chars_of("PCI: ");
    push_dec(&mut head, list.len() as u64);
    push_str(&mut head, " devices found");
    let mut out: Vec<Vec<char>> = Vec::new();
    out.push(head);
    let mut k: usize = 0;
    while k < list.len()
        invariant
            k <= list@.len(),
            out@.len() == k + 1,
            forall|i: int| 0 <= i <= k ==> #[trigger] out@[i]@ == pci_text(list@)[i],
        decreases list@.len() - k,
    {
        out.push(pci::show_device(&list[k]));
        k += 1;
    }
    assert(lines_view(out@) =~= pci_text(list@));
    out
}

pub fn keyboard_line(s: &Settings) -> (v: Vec<char>)
    ensures
        v@ == "Keyboard: "@ + settings::code_of(s.layout),
{
    let mut v = chars_of("Keyboard: ");
    push_str(&mut v, settings::layout_code(s));
    v
}

/// The line for the file system: what mounting it returned, its name and the
/// number of its groups.
pub open spec fn fs_entry(r: Result<(), FsErr>, name: Seq<char>, groups: u32) -> (
    bool,
    Seq<char>,
) {
    match r {
        Ok(_) => (
            true,
            "Filesystem: "@ + name + " mounted at / ("@ + text::dec(groups as nat) + if groups
                == 1 {
                " group)"@
            } else {
                " groups)"@
            },
        ),
        Err(FsErr::NoDevice) => (false, "Filesystem: no data disk"@),
        Err(FsErr::NotFormatted) => (
            false,
            "Filesystem: data disk not formatted (run 'mkfs')"@,
        ),
        Err(_) => (false, "Filesystem: I/O error"@),
    }
}

pub fn fs_line(r: Result<(), FsErr>, name: &str, groups: u32) -> (e: Entry)
    ensures
        (e.good, e.text@) == fs_entry(r, name@, groups),
{
    match r {
        Ok(_) => {
            let mut v = chars_of("Filesystem: ");
            push_str(&mut v, name);
            push_str(&mut v, " mounted at / (");
            push_dec(&mut v, groups as u64);
            push_str(
                &mut v,
                if groups == 1 {
                    " group)"
                } else {
                    " groups)"
                },
            );
            Entry { good: true, text: v }
        },
        Err(FsErr::NoDevice) => Entry {
            good: false,
            text: chars_of("Filesystem: no data disk"),
        },
        Err(FsErr::NotFormatted) => Entry {
            good: false,
            text: chars_of("Filesystem: data disk not formatted (run 'mkfs')"),
        },
        Err(_) => Entry { good: false, text: chars_of("Filesystem: I/O error") },
    }
}

/// The banner that the boot ends with.
pub open spec fn banner_text() -> Seq<OutView> {
    seq![
        OutView::Clear,
        line(""@),
        OutView::Colors(crate::framebuffer::accent(), bg_color()),
        line("          S O L A R   O S   26.1"@),
        OutView::Reset,
        line(""@),
    ]
}

pub fn banner() -> (v: Vec<Out>)
    ensures
        outs(v@) == banner_text(),
{
    let mut v = nothing();
    put(&mut v, Out::Clear);
    put_str(&mut v, "");
    put(&mut v, Out::Colors(crate::framebuffer::accent(), bg_color()));
    put_str(&mut v, "          S O L A R   O S   26.1");
    put(&mut v, Out::Reset);
    put_str(&mut v, "");
    assert(outs(v@) =~= banner_text());
    v
}

// ---------- laws ----------

/// Usable memory is counted once for each usable region, by its length, and no
/// other region counts.
pub proof fn each_usable_region_counts(r: Seq<MemoryRegion>, x: MemoryRegion)
    requires
        x.start <= x.end,
    ensures
        usable_bytes(r.push(x), r.len() as int + 1) == usable_bytes(r, r.len() as int) + (if x.kind
            == RegionKind::Usable {
            x.end - x.start
        } else {
            0
        }),
{
    regions_before(r, x, r.len() as int);
}

proof fn regions_before(r: Seq<MemoryRegion>, x: MemoryRegion, n: int)
    requires
        n <= r.len(),
    ensures
        usable_bytes(r.push(x), n) == usable_bytes(r, n),
    decreases n,
{
    if n > 0 {
        regions_before(r, x, n - 1);
        assert(r.push(x)[n - 1] == r[n - 1]);
    }
}

} // verus!
