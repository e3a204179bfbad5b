//! Interrupt routing: the MADT, and the redirection table of the IOAPIC.

use vstd::prelude::*;
use crate::bytes;
use crate::bytes::{r16, r32};
use crate::pci::lines_view;
use crate::text;
use crate::text::{chars_of, push_dec, push_hex, push_str};

verus! {

pub const LAPIC_DEF: u64 = 0xFEE0_0000;

pub const IOAPIC_DEF: u64 = 0xFEC0_0000;

pub const IOAPIC_VER: u32 = 0x01;

pub const IOAPIC_REDIR: u32 = 0x10;

pub const MAX_PINS: u32 = 24;

pub const REDIR_MASK: u64 = 0x1_0000;

/// The vectors of the timer and of the keyboard.
pub const PIT_VECTOR: u8 = 32;

pub const KBD_VECTOR: u8 = 33;

/// The vector of the pins that nothing listens to.
pub const SPARE_VECTOR: u8 = 0xEF;

/// What the MADT says.
pub struct Madt {
    pub lapic: u64,
    pub ioapic: u64,
    pub ioapic_id: u8,
    pub gsi_base: u32,
    /// The line and the flags of each legacy interrupt that is overridden.
    pub iso: Vec<Option<(u32, u16)>>,
}

#[verifier::ext_equal]
pub struct MadtView {
    pub ioapic: u64,
    pub ioapic_id: u8,
    pub gsi_base: u32,
    pub iso: Seq<Option<(u32, u16)>>,
}

impl Madt {
    pub open spec fn seen(&self) -> MadtView {
        MadtView {
            ioapic: self.ioapic,
            ioapic_id: self.ioapic_id,
            gsi_base: self.gsi_base,
            iso: self.iso@,
        }
    }

    pub open spec fn wf(&self) -> bool {
        self.iso@.len() == 16
    }
}

/// Before the first record: the usual address, and no overrides.
pub open spec fn no_records() -> MadtView {
    MadtView {
        ioapic: IOAPIC_DEF,
        ioapic_id: 0,
        gsi_base: 0,
        iso: Seq::new(16, |i: int| None::<(u32, u16)>),
    }
}

/// What the record at `off` adds. `t` is memory from the table on: the fields
/// of a short record are read from what follows it.
pub open spec fn with_record(m: MadtView, t: Seq<u8>, off: int) -> MadtView {
    if t[off] == 1 {
        MadtView {
            ioapic_id: t[off + 2],
            ioapic: bytes::u32_at(t, off + 4) as u64,
            gsi_base: bytes::u32_at(t, off + 8),
            ..m
        }
    } else if t[off] == 2 && t[off + 3] < 16 {
        MadtView {
            iso: m.iso.update(
                t[off + 3] as int,
                Some((bytes::u32_at(t, off + 4), bytes::u16_at(t, off + 8))),
            ),
            ..m
        }
    } else {
        m
    }
}

/// The records from `off` on of a table of `len` bytes. A record that does not
/// fit ends the list.
pub open spec fn records(m: MadtView, t: Seq<u8>, len: int, off: int) -> MadtView
    decreases len - off,
{
    if off < 0 || off + 2 > len || t[off + 1] < 2 || off + t[off + 1] > len {
        m
    } else {
        records(with_record(m, t, off), t, len, off + t[off + 1])
    }
}

/// The length of the table, as its header has it.
pub open spec fn table_len(t: Seq<u8>) -> int {
    bytes::u32_at(t, 4) as int
}

/// Where the records of the table start.
pub const RECORDS_AT: usize = 0x2C;

/// The bytes behind the table that a record at its end is read from.
pub const BEHIND: usize = 10;

/// Reads the MADT, given as memory from the table on.
pub fn parse_madt(t: &[u8]) -> (m: Madt)
    requires
        t@.len() >= RECORDS_AT,
        t@.len() >= table_len(t@) + BEHIND,
    ensures
        m.wf(),
        m.lapic == bytes::u32_at(t@, 36),
        m.seen() == records(no_records(), t@, table_len(t@), RECORDS_AT as int),
{
    let all: usize = t.len();
    let n: usize = r32(t, 4) as usize;
    let mut iso: Vec<Option<(u32, u16)>> = Vec::new();
    let mut k: usize = 0;
    while k < 16
        invariant
            k <= 16,
            iso@ == Seq::new(k as nat, |i: int| None::<(u32, u16)>),
        decreases 16 - k,
    {
        iso.push(None);
        k += 1;
        assert(iso@ =~= Seq::new(k as nat, |i: int| None::<(u32, u16)>));
    }
    let mut m = Madt { lapic: r32(t, 36) as u64, ioapic: IOAPIC_DEF, ioapic_id: 0, gsi_base: 0, iso };
    let mut off: usize = RECORDS_AT;
    assert(m.seen() =~= no_records());
    while off <= n && n - off >= 2
        invariant
            n == table_len(t@),
            all == t@.len(),
            all >= n + BEHIND,
            m.wf(),
            m.lapic == bytes::u32_at(t@, 36),
            records(no_records(), t@, n as int, RECORDS_AT as int) == records(
                m.seen(),
                t@,
                n as int,
                off as int,
            ),
        decreases n + 2 - off,
    {
        let len: usize = t[off + 1] as usize;
        if len < 2 || len > n - off {
            return m;
        }
        let ghost before = m.seen();
        if t[off] == 1 {
            m.ioapic_id = t[off + 2];
            m.ioapic = r32(t, off + 4) as u64;
            m.gsi_base = r32(t, off + 8);
        } else if t[off] == 2 && t[off + 3] < 16 {
            let irq: usize = t[off + 3] as usize;
            m.iso.set(irq, Some((r32(t, off + 4), r16(t, off + 8))));
        }
        assert(m.seen() =~= with_record(before, t@, off as int));
        off += len;
    }
    m
}

/// The line and the flags of a legacy interrupt: what its override says, or
/// the line of the same number. An override whose fields hold nothing but ones
/// counts as none.
pub open spec fn line_of(iso: Seq<Option<(u32, u16)>>, irq: u8) -> (u32, u16) {
    match iso[irq as int % 16] {
        Some(e) => if e == (u32::MAX, u16::MAX) {
            (irq as u32, 0)
        } else {
            e
        },
        None => (irq as u32, 0),
    }
}

fn gsi_of(m: &Madt, irq: u8) -> (r: (u32, u16))
    requires
        m.wf(),
    ensures
        r == line_of(m.iso@, irq),
{
    match m.iso[irq as usize % 16] {
        Some(e) => if e.0 == u32::MAX && e.1 == u16::MAX {
            (irq as u32, 0)
        } else {
            e
        },
        None => (irq as u32, 0),
    }
}

/// The redirection entry of a pin: the vector in the low byte, and the mask in
/// its bit. The polarity and the trigger mode are those of a legacy line.
pub open spec fn redirection(vector: u8, masked: bool) -> u64 {
    (vector + (if masked {
        REDIR_MASK as int
    } else {
        0
    })) as u64
}

/// The register writes that set the entry of a pin, low half first.
pub open spec fn pin_writes(pin: u32, entry: u64) -> Seq<(u32, u32)> {
    seq![
        ((IOAPIC_REDIR + pin * 2) as u32, (entry % 0x1_0000_0000) as u32),
        ((IOAPIC_REDIR + pin * 2 + 1) as u32, (entry / 0x1_0000_0000) as u32),
    ]
}

fn program_pin(out: &mut Vec<(u32, u32)>, pin: u32, vector: u8, masked: bool)
    requires
        pin < 0x1000,
    ensures
        final(out)@ == old(out)@ + pin_writes(pin, redirection(vector, masked)),
{
    let mut entry: u64 = vector as u64;
    if masked {
        entry += REDIR_MASK;
    }
    out.push((IOAPIC_REDIR + pin * 2, (entry % 0x1_0000_0000) as u32));
    out.push((IOAPIC_REDIR + pin * 2 + 1, (entry / 0x1_0000_0000) as u32));
    assert(out@ =~= old(out)@ + pin_writes(pin, redirection(vector, masked)));
}

/// The number of pins, from the version register.
pub open spec fn pin_count(ver: u32) -> u32 {
    (ver / 0x1_0000 % 0x100 + 1) as u32
}

pub open spec fn masked(entry: u64) -> bool {
    entry / 0x1_0000 % 2 == 1
}

/// The writes that mask the pins from `pin` on, below `end`, which are
/// neither the timer's nor the keyboard's and are not masked yet.
pub open spec fn mask_writes(
    entries: Seq<u64>,
    pin: int,
    end: int,
    pit: u32,
    kbd: u32,
) -> Seq<(u32, u32)>
    decreases end - pin,
{
    if pin < 0 || pin >= end {
        Seq::empty()
    } else if pin == pit || pin == kbd || masked(entries[pin]) {
        mask_writes(entries, pin + 1, end, pit, kbd)
    } else {
        pin_writes(pin as u32, redirection(SPARE_VECTOR, true)) + mask_writes(
            entries,
            pin + 1,
            end,
            pit,
            kbd,
        )
    }
}

pub open spec fn lesser(a: u32, b: u32) -> u32 {
    if a < b {
        a
    } else {
        b
    }
}

/// All the writes: the other pins are masked, then the timer's and the
/// keyboard's pin are set to their vectors.
pub open spec fn routing(
    iso: Seq<Option<(u32, u16)>>,
    ver: u32,
    entries: Seq<u64>,
) -> Seq<(u32, u32)> {
    let pins = pin_count(ver);
    let pit = line_of(iso, 0);
    let kbd = line_of(iso, 1);
    mask_writes(entries, 0, lesser(pins, MAX_PINS) as int, pit.0, kbd.0) + pin_writes(
        lesser(pit.0, (pins - 1) as u32),
        redirection(PIT_VECTOR, false),
    ) + pin_writes(lesser(kbd.0, (pins - 1) as u32), redirection(KBD_VECTOR, false))
}

/// The register writes that route the interrupts, given the version register
/// and the redirection entries of the pins below [`MAX_PINS`].
pub fn init(m: &Madt, ver: u32, entries: &Vec<u64>) -> (out: Vec<(u32, u32)>)
    requires
        m.wf(),
        entries@.len() >= lesser(pin_count(ver), MAX_PINS),
    ensures
        out@ == routing(m.iso@, ver, entries@),
{
    let pins: u32 = ver / 0x1_0000 % 0x100 + 1;
    let pit: u32 = gsi_of(m, 0).0;
    let kbd: u32 = gsi_of(m, 1).0;
    let end: u32 = if pins < MAX_PINS {
        pins
    } else {
        MAX_PINS
    };
    let mut out: Vec<(u32, u32)> = Vec::new();
    let mut pin: u32 = 0;
    let ghost all = mask_writes(entries@, 0, end as int, pit, kbd);
    assert(out@ + all =~= all);
    while pin < end
        invariant
            pin <= end <= MAX_PINS,
            entries@.len() >= end,
            all == mask_writes(entries@, 0, end as int, pit, kbd),
            out@ + mask_writes(entries@, pin as int, end as int, pit, kbd) == all,
        decreases end - pin,
    {
        let e: u64 = entries[pin as usize];
        if pin != pit && pin != kbd && e / 0x1_0000 % 2 == 0 {
            let ghost o = out@;
            program_pin(&mut out, pin, SPARE_VECTOR, true);
            let ghost rest = mask_writes(entries@, pin + 1, end as int, pit, kbd);
            assert(out@ + rest =~= o + (pin_writes(pin, redirection(SPARE_VECTOR, true))
                + rest));
        }
        pin += 1;
    }
    assert(out@ =~= all);
    program_pin(
        &mut out,
        if pit < pins - 1 {
            pit
        } else {
            pins - 1
        },
        PIT_VECTOR,
        false,
    );
    program_pin(
        &mut out,
        if kbd < pins - 1 {
            kbd
        } else {
            pins - 1
        },
        KBD_VECTOR,
        false,
    );
    out
}

/// The write that ends an interrupt: a register of the local APIC, and its
/// value.
pub fn eoi() -> (w: (u64, u32))
    ensures
        w == ((LAPIC_DEF + 0xB0) as u64, 0u32),
{
    (LAPIC_DEF + 0xB0, 0)
}

/// The value of the spurious-interrupt register that switches the local APIC
/// on.
pub fn enabled(svr: u32) -> (v: u32)
    ensures
        v == svr | 0x100,
{
    svr | 0x100
}

/// The registers after the writes.
pub open spec fn after_writes(regs: Map<u32, u32>, w: Seq<(u32, u32)>) -> Map<u32, u32>
    decreases w.len(),
{
    if w.len() == 0 {
        regs
    } else {
        after_writes(regs.insert(w[0].0, w[0].1), w.skip(1))
    }
}

proof fn after_writes_concatenation(regs: Map<u32, u32>, a: Seq<(u32, u32)>, b: Seq<(u32, u32)>)
    ensures
        after_writes(regs, a + b) == after_writes(after_writes(regs, a), b),
    decreases a.len(),
{
    if a.len() == 0 {
        assert(a + b =~= b);
    } else {
        assert((a + b).skip(1) =~= a.skip(1) + b);
        after_writes_concatenation(regs.insert(a[0].0, a[0].1), a.skip(1), b);
    }
}

proof fn after_pin_writes(regs: Map<u32, u32>, pin: u32, entry: u64)
    requires
        pin < 0x1000,
    ensures
        after_writes(regs, pin_writes(pin, entry)) == regs.insert(
            (IOAPIC_REDIR + pin * 2) as u32,
            (entry % 0x1_0000_0000) as u32,
        ).insert((IOAPIC_REDIR + pin * 2 + 1) as u32, (entry / 0x1_0000_0000) as u32),
{
    let w = pin_writes(pin, entry);
    assert(w.skip(1).skip(1) =~= Seq::empty());
    reveal_with_fuel(after_writes, 3);
}

pub open spec fn low_register(pin: int) -> u32 {
    (IOAPIC_REDIR + pin * 2) as u32
}

proof fn spare_entry_is_masked()
    ensures
        masked(redirection(SPARE_VECTOR, true)),
        redirection(SPARE_VECTOR, true) < 0x1_0000_0000,
{
}

proof fn masking(
    regs: Map<u32, u32>,
    entries: Seq<u64>,
    pin: int,
    end: int,
    pit: u32,
    kbd: u32,
    p: int,
)
    requires
        0 <= pin,
        end <= MAX_PINS,
        0 <= p < end,
        p != pit,
        p != kbd,
        masked(entries[p]) || p < pin ==> masked(regs[low_register(p)] as u64),
    ensures
        masked(
            after_writes(regs, mask_writes(entries, pin, end, pit, kbd))[low_register(p)] as u64,
        ),
    decreases end - pin,
{
    if pin >= end {
    } else if pin == pit || pin == kbd || masked(entries[pin]) {
        masking(regs, entries, pin + 1, end, pit, kbd, p);
    } else {
        let w = pin_writes(pin as u32, redirection(SPARE_VECTOR, true));
        let rest = mask_writes(entries, pin + 1, end, pit, kbd);
        spare_entry_is_masked();
        after_pin_writes(regs, pin as u32, redirection(SPARE_VECTOR, true));
        after_writes_concatenation(regs, w, rest);
        masking(after_writes(regs, w), entries, pin + 1, end, pit, kbd, p);
    }
}

/// Only the timer's and the keyboard's pins are left unmasked: whatever the
/// registers held, after the writes every other pin is masked.
pub proof fn other_pins_are_masked(
    regs: Map<u32, u32>,
    iso: Seq<Option<(u32, u16)>>,
    ver: u32,
    entries: Seq<u64>,
    p: int,
)
    requires
        0 <= p < lesser(pin_count(ver), MAX_PINS),
        p != lesser(line_of(iso, 0).0, (pin_count(ver) - 1) as u32),
        p != lesser(line_of(iso, 1).0, (pin_count(ver) - 1) as u32),
        masked(entries[p]) ==> masked(regs[low_register(p)] as u64),
    ensures
        masked(after_writes(regs, routing(iso, ver, entries))[low_register(p)] as u64),
{
    let pins = pin_count(ver);
    let pit = line_of(iso, 0);
    let kbd = line_of(iso, 1);
    let end = lesser(pins, MAX_PINS) as int;
    let a = mask_writes(entries, 0, end, pit.0, kbd.0);
    let pit_pin = lesser(pit.0, (pins - 1) as u32);
    let kbd_pin = lesser(kbd.0, (pins - 1) as u32);
    let b = pin_writes(pit_pin, redirection(PIT_VECTOR, false));
    let c = pin_writes(kbd_pin, redirection(KBD_VECTOR, false));
    masking(regs, entries, 0, end, pit.0, kbd.0, p);
    after_writes_concatenation(regs, a + b, c);
    after_writes_concatenation(regs, a, b);
    after_pin_writes(after_writes(regs, a), pit_pin, redirection(PIT_VECTOR, false));
    after_pin_writes(
        after_writes(after_writes(regs, a), b),
        kbd_pin,
        redirection(KBD_VECTOR, false),
    );
}

/// The low byte of an entry is the vector, and the entry is masked where that
/// is asked for.
pub proof fn entry_carries_its_vector(vector: u8, mask: bool)
    ensures
        redirection(vector, mask) % 256 == vector,
        redirection(vector, mask) < 0x1_0000_0000,
        masked(redirection(vector, mask)) == mask,
{
}

/// The timer's and the keyboard's pins carry their vectors and are not masked,
/// whatever the registers held and whatever the overrides' flags are.
pub proof fn timer_and_keyboard_are_routed(
    regs: Map<u32, u32>,
    iso: Seq<Option<(u32, u16)>>,
    ver: u32,
    entries: Seq<u64>,
)
    requires
        line_of(iso, 0).0 < pin_count(ver),
        line_of(iso, 1).0 < pin_count(ver),
        line_of(iso, 0).0 != line_of(iso, 1).0,
    ensures
        ({
            let after = after_writes(regs, routing(iso, ver, entries));
            let pit = after[low_register(line_of(iso, 0).0 as int)] as u64;
            let kbd = after[low_register(line_of(iso, 1).0 as int)] as u64;
            &&& pit % 256 == PIT_VECTOR
            &&& kbd % 256 == KBD_VECTOR
            &&& !masked(pit)
            &&& !masked(kbd)
        }),
{
    let pins = pin_count(ver);
    let pit = line_of(iso, 0);
    let kbd = line_of(iso, 1);
    let end = lesser(pins, MAX_PINS) as int;
    let e0 = redirection(PIT_VECTOR, false);
    let e1 = redirection(KBD_VECTOR, false);
    entry_carries_its_vector(PIT_VECTOR, false);
    entry_carries_its_vector(KBD_VECTOR, false);
    let a = mask_writes(entries, 0, end, pit.0, kbd.0);
    let b = pin_writes(pit.0, e0);
    let c = pin_writes(kbd.0, e1);
    after_writes_concatenation(regs, a + b, c);
    after_writes_concatenation(regs, a, b);
    after_pin_writes(after_writes(regs, a), pit.0, e0);
    after_pin_writes(after_writes(after_writes(regs, a), b), kbd.0, e1);
}

// ---------- messages ----------

/// The lines that the boot log shows for the routing.
pub open spec fn boot_text(m: Madt, ver: u32) -> Seq<Seq<char>> {
    seq![
        "APIC: LAPIC 0x"@ + text::hex(m.lapic as nat, 0) + " IOAPIC 0x"@ + text::hex(
            m.ioapic as nat,
            0,
        ) + " (id "@ + text::dec(m.ioapic_id as nat) + ", "@ + text::dec(pin_count(ver) as nat)
            + " pins, GSI base "@ + text::dec(m.gsi_base as nat) + ")"@,
        "APIC: IRQ0 -> GSI"@ + text::dec(line_of(m.iso@, 0).0 as nat) + " (PIT), IRQ1 -> GSI"@
            + text::dec(line_of(m.iso@, 1).0 as nat) + " (kbd); PIC masked"@,
    ]
}

pub fn boot_lines(m: &Madt, ver: u32) -> (out: Vec<Vec<char>>)
    requires
        m.wf(),
    ensures
        lines_view(out@) == boot_text(*m, ver),
{
    let mut a = chars_of("APIC: LAPIC 0x");
    push_hex(&mut a, m.lapic, 0);
    push_str(&mut a, " IOAPIC 0x");
    push_hex(&mut a, m.ioapic, 0);
    push_str(&mut a, " (id ");
    push_dec(&mut a, m.ioapic_id as u64);
    push_str(&mut a, ", ");
    push_dec(&mut a, (ver / 0x1_0000 % 0x100 + 1) as u64);
    push_str(&mut a, " pins, GSI base ");
    push_dec(&mut a, m.gsi_base as u64);
    push_str(&mut a, ")");
    let mut b = chars_of("APIC: IRQ0 -> GSI");
    push_dec(&mut b, gsi_of(m, 0).0 as u64);
    push_str(&mut b, " (PIT), IRQ1 -> GSI");
    push_dec(&mut b, gsi_of(m, 1).0 as u64);
    push_str(&mut b, " (kbd); PIC masked");
    let mut out: Vec<Vec<char>> = Vec::new();
    out.push(a);
    out.push(b);
    assert(lines_view(out@) =~= boot_text(*m, ver));
    out
}

} // verus!
