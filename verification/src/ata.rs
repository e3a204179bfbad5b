//! ATA disks: the device table, and the PIO command protocol.

use vstd::prelude::*;
use vstd::utf8::{decode_utf8, valid_utf8};
use crate::text;

pub mod laws;

verus! {

pub const SECTOR_SIZE: usize = 512;

/// 4 PIO slots + 4 AHCI slots.
pub const MAX_DEVICES: usize = 8;

#[derive(Clone, Copy)]
pub struct AtaDevice {
    pub present: bool,
    pub is_secondary: bool,
    pub master: bool,
    pub lba_supported: bool,
    pub sectors: u64,
    pub model: [u8; 40],
    pub capacity_mb: u64,
    /// Slot index in the device table (route for AHCI reads/writes).
    pub index: usize,
    /// True when served by the AHCI driver (DMA) instead of PIO ATA.
    pub via_ahci: bool,
}

/// The number of bytes before the spaces and NULs at the end of `s`.
pub open spec fn trimmed_len(s: Seq<u8>) -> nat
    decreases s.len(),
{
    if s.len() > 0 && (s.last() == 32 || s.last() == 0) {
        trimmed_len(s.drop_last())
    } else {
        s.len()
    }
}

/// The model name without the padding at its end; `?` where it is not UTF-8.
pub open spec fn model_text(model: Seq<u8>) -> Seq<char> {
    let b = model.take(trimmed_len(model) as int);
    if valid_utf8(b) {
        decode_utf8(b)
    } else {
        seq!['?']
    }
}

/// No field of the device says anything.
pub open spec fn is_absent(d: AtaDevice) -> bool {
    &&& !d.present && !d.is_secondary && !d.master && !d.lba_supported && !d.via_ahci
    &&& d.sectors == 0 && d.capacity_mb == 0 && d.index == 0
    &&& d.model@ == Seq::new(40, |i: int| 0u8)
}

impl AtaDevice {
    /// A slot without a device.
    pub fn absent() -> (d: AtaDevice)
        ensures
            is_absent(d),
    {
        let d = AtaDevice {
            present: false,
            is_secondary: false,
            master: false,
            lba_supported: false,
            sectors: 0,
            model: [0; 40],
            capacity_mb: 0,
            index: 0,
            via_ahci: false,
        };
        assert(d.model@ =~= Seq::new(40, |i: int| 0u8));
        d
    }

    pub fn model_str(&self) -> (r: String)
        ensures
            r@ == model_text(self.model@),
    {
        let mut end: usize = 40;
        assert(self.model@.take(40) =~= self.model@);
        while end > 0 && (self.model[end - 1] == 32 || self.model[end - 1] == 0)
            invariant
                end <= 40,
                trimmed_len(self.model@) == trimmed_len(self.model@.take(end as int)),
            decreases end,
        {
            assert(self.model@.take(end as int).drop_last() =~= self.model@.take(end - 1));
            end -= 1;
        }
        let b = crate::bytes::copy_range(&self.model, 0, end);
        assert(b@ =~= self.model@.take(end as int));
        match text::from_utf8(&b) {
            Some(s) => s,
            None => {
                proof {
                    reveal_strlit("?");
                }
                assert("?"@ =~= seq!['?']);
                "?".to_owned()
            },
        }
    }
}

/// The device table.
pub struct Devices {
    pub slots: Vec<AtaDevice>,
    /// The number of devices that were registered.
    pub count: usize,
}

impl Devices {
    pub open spec fn wf(&self) -> bool {
        self.slots@.len() == MAX_DEVICES
    }

    /// A table without devices.
    pub fn new() -> (t: Devices)
        ensures
            t.wf(),
            t.count == 0,
            forall|i: int| 0 <= i < MAX_DEVICES ==> is_absent(#[trigger] t.slots@[i]),
    {
        let mut slots: Vec<AtaDevice> = Vec::new();
        while slots.len() < MAX_DEVICES
            invariant
                slots@.len() <= MAX_DEVICES,
                forall|i: int| 0 <= i < slots@.len() ==> is_absent(#[trigger] slots@[i]),
            decreases MAX_DEVICES - slots@.len(),
        {
            slots.push(AtaDevice::absent());
        }
        Devices { slots, count: 0 }
    }
}

pub fn device(t: &Devices, index: usize) -> (d: AtaDevice)
    requires
        t.wf(),
        index < MAX_DEVICES,
    ensures
        d == t.slots@[index as int],
{
    t.slots[index]
}

/// Registers a present device (used by the AHCI driver for slots 4..7).
pub fn set_device(t: &mut Devices, index: usize, dev: AtaDevice)
    requires
        old(t).wf(),
        index < MAX_DEVICES,
    ensures
        final(t).wf(),
        final(t).slots@ == old(t).slots@.update(index as int, dev),
        final(t).count == old(t).count.wrapping_add(1),
{
    t.slots[index] = dev;
    t.count = t.count.wrapping_add(1);
}

pub fn device_count(t: &Devices) -> (n: usize)
    ensures
        n == t.count,
{
    t.count
}

// ---------- the PIO protocol ----------

const BASE_PRIMARY: u16 = 0x1F0;

const BASE_SECONDARY: u16 = 0x170;

/// How long a disk may stay busy, in ticks.
pub const TIMEOUT_TICKS: u64 = 3000;

/// What a PIO command does.
#[derive(Clone, Copy, PartialEq, Eq, Debug, Structural)]
pub enum Command {
    Identify,
    Read,
    Write,
}

/// How far a PIO command has come.
#[derive(Clone, Copy, PartialEq, Eq, Debug, Structural)]
pub enum Phase {
    /// Waiting for the disk to accept the command.
    Busy,
    /// About to look for an error.
    Check,
    /// Waiting for the disk to ask for the data.
    Ready,
    /// The data are to be moved.
    Data,
    /// Waiting for the disk to finish.
    Settle,
    /// About to look at the outcome.
    Outcome,
    /// Finished, well or not.
    Done(bool),
}

/// A PIO command under way.
#[derive(Clone, Copy, PartialEq, Eq, Debug, Structural)]
pub struct Transfer {
    pub command: Command,
    pub phase: Phase,
    /// The tick at which the present wait is given up.
    pub deadline: u64,
}

/// What the driver does next.
#[derive(Clone, Copy, PartialEq, Eq, Debug, Structural)]
pub enum PioAction {
    /// Read the status register and call `observe`.
    Poll,
    /// Move the 256 words and call `moved`.
    Move,
    /// The command is over.
    Finish(bool),
}

/// The status says that the disk is busy.
pub open spec fn is_busy(status: u8) -> bool {
    status >= 0x80
}

/// The status reports an error.
pub open spec fn is_error(status: u8) -> bool {
    status % 2 == 1
}

/// The status asks for data.
pub open spec fn wants_data(status: u8) -> bool {
    status / 8 % 2 == 1
}

/// The tick at which a wait that starts now is given up.
pub open spec fn give_up_at(now: u64) -> u64 {
    if now + TIMEOUT_TICKS > u64::MAX {
        u64::MAX
    } else {
        (now + TIMEOUT_TICKS) as u64
    }
}

impl Transfer {
    /// The same command in another phase; a wait starts anew.
    pub open spec fn to(self, phase: Phase, now: u64) -> Transfer {
        Transfer { phase, deadline: give_up_at(now), ..self }
    }

    /// The command after the driver saw `status` at tick `now`.
    pub open spec fn after(self, status: u8, now: u64) -> Transfer {
        let late = now >= self.deadline;
        match self.phase {
            Phase::Busy => if !is_busy(status) {
                self.to(
                    if self.command == Command::Write {
                        Phase::Ready
                    } else {
                        Phase::Check
                    },
                    now,
                )
            } else if late {
                self.to(Phase::Done(false), now)
            } else {
                self
            },
            Phase::Check => self.to(
                if is_error(status) {
                    Phase::Done(false)
                } else {
                    Phase::Ready
                },
                now,
            ),
            Phase::Ready => if wants_data(status) {
                self.to(Phase::Data, now)
            } else if late {
                self.to(Phase::Done(false), now)
            } else {
                self
            },
            Phase::Settle => if !is_busy(status) {
                self.to(Phase::Outcome, now)
            } else if late {
                self.to(Phase::Done(false), now)
            } else {
                self
            },
            Phase::Outcome => self.to(
                Phase::Done(
                    !is_error(status) && !(self.command == Command::Write && wants_data(status)),
                ),
                now,
            ),
            Phase::Data => self,
            Phase::Done(_) => self,
        }
    }

    /// What the driver does next.
    pub fn action(&self) -> (a: PioAction)
        ensures
            a == (match self.phase {
                Phase::Data => PioAction::Move,
                Phase::Done(ok) => PioAction::Finish(ok),
                _ => PioAction::Poll,
            }),
    {
        match self.phase {
            Phase::Data => PioAction::Move,
            Phase::Done(ok) => PioAction::Finish(ok),
            _ => PioAction::Poll,
        }
    }

    fn go(&mut self, phase: Phase, now: u64)
        ensures
            *final(self) == old(self).to(phase, now),
    {
        self.phase = phase;
        self.deadline = now.saturating_add(TIMEOUT_TICKS);
    }

    /// Takes note of the status register; says whether the driver may halt
    /// until the next tick.
    pub fn observe(&mut self, status: u8, now: u64) -> (wait: bool)
        ensures
            *final(self) == old(self).after(status, now),
            wait == (*final(self) == *old(self)),
    {
        let late: bool = now >= self.deadline;
        let before: Transfer = *self;
        match self.phase {
            Phase::Busy => {
                if status < 0x80 {
                    self.go(
                        if self.command == Command::Write {
                            Phase::Ready
                        } else {
                            Phase::Check
                        },
                        now,
                    );
                } else if late {
                    self.go(Phase::Done(false), now);
                }
            },
            Phase::Check => {
                self.go(
                    if status % 2 == 1 {
                        Phase::Done(false)
                    } else {
                        Phase::Ready
                    },
                    now,
                );
            },
            Phase::Ready => {
                if status / 8 % 2 == 1 {
                    self.go(Phase::Data, now);
                } else if late {
                    self.go(Phase::Done(false), now);
                }
            },
            Phase::Settle => {
                if status < 0x80 {
                    self.go(Phase::Outcome, now);
                } else if late {
                    self.go(Phase::Done(false), now);
                }
            },
            Phase::Outcome => {
                let ok: bool = status % 2 == 0 && !(self.command == Command::Write && status / 8 % 2
                    == 1);
                self.go(Phase::Done(ok), now);
            },
            Phase::Data => {},
            Phase::Done(_) => {},
        }
        *self == before
    }

    /// Takes note that the data were moved.
    pub fn moved(&mut self, now: u64)
        requires
            old(self).phase == Phase::Data,
        ensures
            *final(self) == old(self).to(
                if old(self).command == Command::Identify {
                    Phase::Done(true)
                } else {
                    Phase::Settle
                },
                now,
            ),
    {
        let next: Phase = if self.command == Command::Identify {
            Phase::Done(true)
        } else {
            Phase::Settle
        };
        self.go(next, now);
    }
}

/// A command whose disk stays busy past the deadline is given up.
pub proof fn busy_disk_is_given_up(t: Transfer, status: u8, now: u64)
    requires
        t.phase == Phase::Busy || t.phase == Phase::Settle,
        is_busy(status),
        now >= t.deadline,
    ensures
        t.after(status, now).phase == Phase::Done(false),
{
}

/// No status makes a read or a write end well before its data were moved.
pub proof fn no_success_without_data(t: Transfer, status: u8, now: u64)
    requires
        t.phase == Phase::Busy || t.phase == Phase::Check || t.phase == Phase::Ready || t.phase
            == Phase::Data,
    ensures
        t.after(status, now).phase != Phase::Done(true),
        t.after(status, now).phase != Phase::Settle,
        t.after(status, now).phase != Phase::Outcome,
{
}

/// One byte to be written to a port.
#[derive(Clone, Copy, PartialEq, Eq, Debug, Structural)]
pub struct PortWrite {
    pub port: u16,
    pub value: u8,
}

/// The bits of the drive register: the second disk of a channel.
pub open spec fn unit_bit(master: bool) -> u8 {
    if master {
        0
    } else {
        0x10
    }
}

/// The register writes that start a sector transfer.
pub open spec fn sector_setup(base: u16, master: bool, lba: u32, opcode: u8) -> Seq<PortWrite> {
    seq![
        PortWrite {
            port: (base + 6) as u16,
            value: (0xE0 + unit_bit(master) + lba / 0x100_0000 % 16) as u8,
        },
        PortWrite { port: (base + 5) as u16, value: (lba / 0x1_0000 % 0x100) as u8 },
        PortWrite { port: (base + 4) as u16, value: (lba / 0x100 % 0x100) as u8 },
        PortWrite { port: (base + 3) as u16, value: (lba % 0x100) as u8 },
        PortWrite { port: (base + 2) as u16, value: 1 },
        PortWrite { port: (base + 7) as u16, value: opcode },
    ]
}

/// The register writes that ask a disk to identify itself.
pub open spec fn identify_setup(base: u16, master: bool) -> Seq<PortWrite> {
    seq![
        PortWrite { port: (base + 1) as u16, value: 0 },
        PortWrite { port: (base + 2) as u16, value: 0 },
        PortWrite { port: (base + 3) as u16, value: 0 },
        PortWrite { port: (base + 4) as u16, value: 0 },
        PortWrite { port: (base + 5) as u16, value: 0 },
        PortWrite { port: (base + 6) as u16, value: (0xA0 + unit_bit(master)) as u8 },
        PortWrite { port: (base + 7) as u16, value: 0xEC },
    ]
}

fn sector_writes(base: u16, master: bool, lba: u32, opcode: u8) -> (w: Vec<PortWrite>)
    requires
        base <= 0xFFF8,
    ensures
        w@ == sector_setup(base, master, lba, opcode),
{
    let unit: u32 = if master {
        0
    } else {
        0x10
    };
    let w: Vec<PortWrite> = vec![
        PortWrite { port: base + 6, value: (0xE0 + unit + lba / 0x100_0000 % 16) as u8 },
        PortWrite { port: base + 5, value: (lba / 0x1_0000 % 0x100) as u8 },
        PortWrite { port: base + 4, value: (lba / 0x100 % 0x100) as u8 },
        PortWrite { port: base + 3, value: (lba % 0x100) as u8 },
        PortWrite { port: base + 2, value: 1 },
        PortWrite { port: base + 7, value: opcode },
    ];
    assert(w@ =~= sector_setup(base, master, lba, opcode));
    w
}

/// Starts to read a sector; a sector number past 28 bits is refused. The
/// driver carries out the register writes and then follows the transfer.
pub fn read_sector(base: u16, master: bool, lba: u32, now: u64) -> (r: Option<
    (Vec<PortWrite>, Transfer),
>)
    requires
        base <= 0xFFF8,
    ensures
        r is Some <==> lba < 0x1000_0000,
        r is Some ==> (r->0).0@ == sector_setup(base, master, lba, 0x20) && (r->0).1 == (
        Transfer { command: Command::Read, phase: Phase::Busy, deadline: give_up_at(now) }),
{
    if lba >= 0x1000_0000 {
        return None;
    }
    let w = sector_writes(base, master, lba, 0x20);
    let t = Transfer {
        command: Command::Read,
        phase: Phase::Busy,
        deadline: now.saturating_add(TIMEOUT_TICKS),
    };
    Some((w, t))
}

/// Starts to write a sector; a sector number past 28 bits is refused.
pub fn write_sector(base: u16, master: bool, lba: u32, now: u64) -> (r: Option<
    (Vec<PortWrite>, Transfer),
>)
    requires
        base <= 0xFFF8,
    ensures
        r is Some <==> lba < 0x1000_0000,
        r is Some ==> (r->0).0@ == sector_setup(base, master, lba, 0x30) && (r->0).1 == (
        Transfer { command: Command::Write, phase: Phase::Busy, deadline: give_up_at(now) }),
{
    if lba >= 0x1000_0000 {
        return None;
    }
    let w = sector_writes(base, master, lba, 0x30);
    let t = Transfer {
        command: Command::Write,
        phase: Phase::Busy,
        deadline: now.saturating_add(TIMEOUT_TICKS),
    };
    Some((w, t))
}

/// Starts to identify a disk.
pub fn identify(base: u16, master: bool, now: u64) -> (r: (Vec<PortWrite>, Transfer))
    requires
        base <= 0xFFF8,
    ensures
        r.0@ == identify_setup(base, master),
        r.1 == (Transfer {
            command: Command::Identify,
            phase: Phase::Busy,
            deadline: give_up_at(now),
        }),
{
    let unit: u8 = if master {
        0
    } else {
        0x10
    };
    let w: Vec<PortWrite> = vec![
        PortWrite { port: base + 1, value: 0 },
        PortWrite { port: base + 2, value: 0 },
        PortWrite { port: base + 3, value: 0 },
        PortWrite { port: base + 4, value: 0 },
        PortWrite { port: base + 5, value: 0 },
        PortWrite { port: base + 6, value: 0xA0 + unit },
        PortWrite { port: base + 7, value: 0xEC },
    ];
    assert(w@ =~= identify_setup(base, master));
    let t = Transfer {
        command: Command::Identify,
        phase: Phase::Busy,
        deadline: now.saturating_add(TIMEOUT_TICKS),
    };
    (w, t)
}

// ---------- data words ----------

/// The bytes of a sector that came as words, low byte first.
pub open spec fn bytes_of(words: Seq<u16>) -> Seq<u8> {
    Seq::new(
        2 * words.len(),
        |k: int|
            if k % 2 == 0 {
                (words[k / 2] % 0x100) as u8
            } else {
                (words[k / 2] / 0x100) as u8
            },
    )
}

/// The words that carry the bytes of a sector.
pub open spec fn words_of(bytes: Seq<u8>) -> Seq<u16> {
    Seq::new(
        bytes.len() / 2,
        |k: int| (bytes[2 * k] + 0x100 * bytes[2 * k + 1]) as u16,
    )
}

/// Words that carry bytes give the same bytes back.
pub proof fn words_carry_bytes(b: Seq<u8>)
    requires
        b.len() % 2 == 0,
    ensures
        bytes_of(words_of(b)) == b,
{
    assert forall|k: int| 0 <= k < b.len() implies bytes_of(words_of(b))[k] == b[k] by {
        let m = k / 2;
        assert(words_of(b)[m] == (b[2 * m] + 0x100 * b[2 * m + 1]) as u16);
    }
    assert(bytes_of(words_of(b)) =~= b);
}

pub fn sector_from_words(words: &[u16]) -> (b: Vec<u8>)
    requires
        words@.len() == 256,
    ensures
        b@ == bytes_of(words@),
{
    let mut b: Vec<u8> = Vec::new();
    let mut k: usize = 0;
    while k < 256
        invariant
            words@.len() == 256,
            k <= 256,
            b@.len() == 2 * k,
            forall|j: int| 0 <= j < 2 * k ==> b@[j] == bytes_of(words@)[j],
        decreases 256 - k,
    {
        b.push((words[k] % 0x100) as u8);
        b.push((words[k] / 0x100) as u8);
        k += 1;
    }
    assert(b@ =~= bytes_of(words@));
    b
}

pub fn words_from_sector(b: &[u8]) -> (words: Vec<u16>)
    requires
        b@.len() == 512,
    ensures
        words@ == words_of(b@),
        words@.len() == 256,
{
    let mut words: Vec<u16> = Vec::new();
    let mut k: usize = 0;
    while k < 256
        invariant
            b@.len() == 512,
            k <= 256,
            words@.len() == k,
            forall|j: int| 0 <= j < k ==> words@[j] == words_of(b@)[j],
        decreases 256 - k,
    {
        words.push(b[2 * k] as u16 + 0x100 * (b[2 * k + 1] as u16));
        k += 1;
    }
    assert(words@ =~= words_of(b@));
    words
}

// ---------- identification ----------

/// The model name: twenty words, high byte first.
pub open spec fn model_of(words: Seq<u16>) -> Seq<u8> {
    Seq::new(
        40,
        |k: int|
            if k % 2 == 0 {
                (words[27 + k / 2] / 0x100) as u8
            } else {
                (words[27 + k / 2] % 0x100) as u8
            },
    )
}

/// The number of sectors that 28-bit commands reach.
pub open spec fn sectors28(words: Seq<u16>) -> u64 {
    (words[60] + 0x1_0000 * words[61]) as u64
}

/// The device that the identification words describe.
pub open spec fn described(d: AtaDevice, words: Seq<u16>, sectors: u64) -> bool {
    &&& d.present
    &&& d.lba_supported == (words[49] / 512 % 2 == 1)
    &&& d.sectors == sectors
    &&& d.capacity_mb == sectors / 2048
    &&& d.model@ == model_of(words)
}

/// Fills in what the identification words say.
pub fn describe(d: &mut AtaDevice, words: &[u16], sectors: u64)
    requires
        words@.len() == 256,
    ensures
        described(*final(d), words@, sectors),
        final(d).is_secondary == old(d).is_secondary,
        final(d).master == old(d).master,
        final(d).index == old(d).index,
        final(d).via_ahci == old(d).via_ahci,
{
    d.lba_supported = words[49] / 512 % 2 == 1;
    d.sectors = sectors;
    d.capacity_mb = sectors / 2048;
    let mut model: [u8; 40] = [0; 40];
    let mut k: usize = 0;
    while k < 20
        invariant
            words@.len() == 256,
            k <= 20,
            forall|j: int| 0 <= j < 2 * k ==> model@[j] == model_of(words@)[j],
        decreases 20 - k,
    {
        let w: u16 = words[27 + k];
        model[2 * k] = (w / 0x100) as u8;
        model[2 * k + 1] = (w % 0x100) as u8;
        k += 1;
    }
    assert(model@ =~= model_of(words@));
    d.model = model;
    d.present = true;
}

/// The device in a PIO slot, from what its identification returned.
pub open spec fn pio_device(d: AtaDevice, slot: int, found: Option<Seq<u16>>) -> bool {
    &&& d.is_secondary == (slot >= 2)
    &&& d.master == (slot % 2 == 1)
    &&& d.index == 0 && !d.via_ahci
    &&& match found {
        Some(w) => described(d, w, sectors28(w)),
        None => {
            &&& !d.present && !d.lba_supported && d.sectors == 0 && d.capacity_mb == 0
            &&& d.model@ == Seq::new(40, |i: int| 0u8)
        },
    }
}

/// What the four identifications returned.
pub open spec fn found_words(found: Seq<Option<Vec<u16>>>, slot: int) -> Option<Seq<u16>> {
    match found[slot] {
        Some(w) => Some(w@),
        None => None,
    }
}

/// The number of the first `n` slots that hold a device.
pub open spec fn present_count(found: Seq<Option<Vec<u16>>>, n: int) -> int
    decreases n,
{
    if n <= 0 {
        0
    } else {
        present_count(found, n - 1) + (if found[n - 1] is Some {
            1int
        } else {
            0
        })
    }
}

/// The command register base of a PIO slot: two disks on each channel.
pub fn slot_base(slot: usize) -> (base: u16)
    ensures
        base == (if slot >= 2 {
            0x170u16
        } else {
            0x1F0u16
        }),
{
    if slot >= 2 {
        BASE_SECONDARY
    } else {
        BASE_PRIMARY
    }
}

/// The driver that serves the sectors of a device.
#[derive(Clone, Copy, PartialEq, Eq, Debug, Structural)]
pub enum Driver {
    /// AHCI, by the slot of the device.
    Ahci(usize),
    /// Port I/O, by the command register base of the channel and whether the
    /// disk is its first.
    Pio(u16, bool),
}

/// Which driver serves the sectors of a device.
pub fn driver_of(d: &AtaDevice) -> (r: Driver)
    ensures
        r == (if d.via_ahci {
            Driver::Ahci(d.index)
        } else if d.is_secondary {
            Driver::Pio(0x170, d.master)
        } else {
            Driver::Pio(0x1F0, d.master)
        }),
{
    if d.via_ahci {
        Driver::Ahci(d.index)
    } else if d.is_secondary {
        Driver::Pio(BASE_SECONDARY, d.master)
    } else {
        Driver::Pio(BASE_PRIMARY, d.master)
    }
}

/// Fills the PIO slots of the table from what the identifications returned.
pub fn init(t: &mut Devices, found: &Vec<Option<Vec<u16>>>)
    requires
        old(t).wf(),
        found@.len() == 4,
        forall|i: int| 0 <= i < 4 && (#[trigger] found@[i]) is Some ==> found@[i]->0@.len() == 256,
    ensures
        final(t).wf(),
        final(t).count == present_count(found@, 4),
        forall|i: int|
            0 <= i < 4 ==> pio_device(#[trigger] final(t).slots@[i], i, found_words(found@, i)),
        forall|i: int|
            4 <= i < MAX_DEVICES ==> #[trigger] final(t).slots@[i] == old(t).slots@[i],
{
    t.count = 0;
    let mut k: usize = 0;
    while k < 4
        invariant
            t.wf(),
            k <= 4,
            found@.len() == 4,
            forall|i: int|
                0 <= i < 4 && (#[trigger] found@[i]) is Some ==> found@[i]->0@.len() == 256,
            t.count == present_count(found@, k as int),
            t.count <= k,
            forall|i: int|
                0 <= i < k ==> pio_device(#[trigger] t.slots@[i], i, found_words(found@, i)),
            forall|i: int|
                k <= i < MAX_DEVICES ==> #[trigger] t.slots@[i] == old(t).slots@[i],
        decreases 4 - k,
    {
        let mut d = AtaDevice::absent();
        d.is_secondary = k >= 2;
        d.master = k % 2 == 1;
        match &found[k] {
            Some(w) => {
                let sectors: u64 = w[60] as u64 + 0x1_0000 * (w[61] as u64);
                describe(&mut d, w, sectors);
                t.count = t.count + 1;
            },
            None => {},
        }
        t.slots[k] = d;
        k += 1;
    }
}

} // verus!
