//! AHCI SATA disks: bringing up the controller, and DMA commands.
//!
//! The driver works through the controller's registers. Both machines here,
//! [`Bring`] and [`Issue`], say which register access comes next and take in
//! what it returned.

use vstd::prelude::*;
use crate::acpi::PMO;
use crate::ata;
use crate::ata::{AtaDevice, Devices};
use crate::bytes;
use crate::bytes::{w32, zeros};
use crate::heap;
use crate::heap::HeapAllocator;
use crate::pci::PciDevice;

pub mod laws;

verus! {

pub const HBA_CAP: u64 = 0x00;

pub const HBA_GHC: u64 = 0x04;

pub const HBA_PI: u64 = 0x0C;

pub const PX_CMD: u64 = 0x18;

pub const PX_TFD: u64 = 0x20;

pub const PX_SIG: u64 = 0x24;

pub const PX_SSTS: u64 = 0x28;

pub const PX_IS: u64 = 0x10;

pub const PX_CI: u64 = 0x38;

pub const SIG_ATA: u32 = 0x0000_0101;

pub const SIG_ATAPI: u32 = 0xEB14_0101;

pub const CMD_IDENTIFY: u8 = 0xEC;

pub const CMD_READ_DMA_EXT: u8 = 0x25;

pub const CMD_WRITE_DMA_EXT: u8 = 0x35;

/// ATA device slots reserved for AHCI disks (PIO fills 0..4).
pub const ATA_BASE_SLOT: usize = 4;

pub const MAX_PORTS: usize = 4;

pub const TIMEOUT_TICKS: u64 = 40;

// ---------- the controller ----------

/// The first AHCI SATA controller of the list.
pub open spec fn sata_in(list: Seq<PciDevice>) -> Option<PciDevice>
    decreases list.len(),
{
    if list.len() == 0 {
        None
    } else if list[0].class == 1 && list[0].subclass == 6 {
        Some(list[0])
    } else {
        sata_in(list.skip(1))
    }
}

pub fn find_sata_controller(list: &Vec<PciDevice>) -> (r: Option<PciDevice>)
    ensures
        r == sata_in(list@),
{
    let mut k: usize = 0;
    assert(list@.skip(0) =~= list@);
    while k < list.len()
        invariant
            k <= list@.len(),
            sata_in(list@) == sata_in(list@.skip(k as int)),
        decreases list@.len() - k,
    {
        assert(list@.skip(k as int).skip(1) =~= list@.skip(k + 1));
        if list[k].class == 1 && list[k].subclass == 6 {
            return Some(list[k]);
        }
        k += 1;
    }
    None
}

/// The physical address of the register block, from the two halves of the
/// base address register; none where it is zero.
pub fn abar(low: u32, high: u32) -> (r: Option<u64>)
    ensures
        r == ({
            let a = low as int / 16 * 16 + 0x1_0000_0000 * high;
            if a == 0 {
                None::<u64>
            } else {
                Some(a as u64)
            }
        }),
{
    let a: u64 = (low / 16 * 16) as u64 + 0x1_0000_0000 * (high as u64);
    if a == 0 {
        None
    } else {
        Some(a)
    }
}

/// The physical addresses of the DMA blocks of a port.
#[derive(Clone, Copy, PartialEq, Eq, Debug, Structural)]
pub struct Dma {
    /// Command list.
    pub clb: u64,
    /// Received FIS area.
    pub fb: u64,
    /// Command table.
    pub ct: u64,
    /// Data buffer.
    pub data: u64,
}

/// A port with a disk.
#[derive(Clone, Copy, PartialEq, Eq, Debug, Structural)]
pub struct Port {
    /// The number of the port at the controller.
    pub number: u32,
    pub dma: Dma,
}

/// What the driver does next.
#[derive(Clone, Copy, PartialEq, Eq, Debug, Structural)]
pub enum Access {
    /// Read the register at this offset of the register block.
    Read(u64),
    /// Write the register at this offset.
    Write(u64, u32),
    /// Allocate the zeroed DMA blocks of a port.
    Alloc,
    /// Identify the disk at this port.
    Identify(Port),
    /// The machine is through.
    Finish(bool),
}

/// What an access returned.
#[derive(Clone, Copy, PartialEq, Eq, Debug, Structural)]
pub enum Outcome {
    Written,
    Value(u32),
    Blocks(Option<Dma>),
    /// A disk was there, or not.
    Disk(bool),
}

/// Where the bring-up of the controller stands.
#[derive(Clone, Copy, PartialEq, Eq, Debug, Structural)]
pub enum Step {
    Reset,
    ResetWait,
    ReadGhc,
    Enable(u32),
    ReadPorts,
    ReadCap,
    StopRead,
    Stop(u32),
    StopWait,
    Alloc,
    Program(Dma, u8),
    StartRead(Dma),
    PowerOn(Dma, u32),
    Start(Dma, u32),
    LinkWait(Dma),
    LinkCheck(Dma),
    Signature(Dma),
    Identify(Dma),
    Done,
    Failed,
}

/// The bring-up of the controller.
#[derive(Clone, Copy, PartialEq, Eq, Debug, Structural)]
pub struct Bring {
    pub step: Step,
    /// The ports that the controller implements, a bit for each.
    pub pi: u32,
    /// The number of ports to look at.
    pub count: u32,
    /// The port at hand.
    pub port: u32,
    /// The tick at which the present wait is given up.
    pub deadline: u64,
}

pub open spec fn give_up_at(now: u64) -> u64 {
    if now + TIMEOUT_TICKS > u64::MAX {
        u64::MAX
    } else {
        (now + TIMEOUT_TICKS) as u64
    }
}

/// The port is implemented.
pub open spec fn implemented(pi: u32, p: u32) -> bool {
    if p == 0 {
        pi % 2 == 1
    } else if p == 1 {
        pi / 2 % 2 == 1
    } else if p == 2 {
        pi / 4 % 2 == 1
    } else {
        pi / 8 % 2 == 1
    }
}

/// The register offset of a port.
pub open spec fn port_at(p: u32) -> u64 {
    (0x100 + 0x80 * p) as u64
}

/// The `k`-th of the register writes that give a port its memory and clear
/// its state.
pub open spec fn program_write(p: u32, d: Dma, k: u8) -> (u64, u32) {
    let at = port_at(p);
    if k == 0 {
        (at, (d.clb % 0x1_0000_0000) as u32)
    } else if k == 1 {
        ((at + 4) as u64, (d.clb / 0x1_0000_0000) as u32)
    } else if k == 2 {
        ((at + 8) as u64, (d.fb % 0x1_0000_0000) as u32)
    } else if k == 3 {
        ((at + 0x0C) as u64, (d.fb / 0x1_0000_0000) as u32)
    } else if k == 4 {
        ((at + 0x10) as u64, 0xFFFF_FFFF)
    } else if k == 5 {
        ((at + 0x14) as u64, 0)
    } else {
        ((at + 0x30) as u64, 0xFFFF_FFFF)
    }
}

/// The link is up.
pub open spec fn link_up(ssts: u32) -> bool {
    ssts % 16 == 3
}

impl Bring {
    pub open spec fn wf(self) -> bool {
        self.count <= 4 && self.port <= 4
    }

    pub open spec fn to(self, step: Step, now: u64) -> Bring {
        Bring { step, deadline: give_up_at(now), ..self }
    }

    /// The first implemented port from `p` on, or the end.
    pub open spec fn at_port(self, p: u32, now: u64) -> Bring
        decreases 4 - p,
    {
        if p >= self.count || p >= 4 {
            Bring { port: p, ..self }.to(Step::Done, now)
        } else if implemented(self.pi, p) {
            Bring { port: p, ..self }.to(Step::StopRead, now)
        } else {
            self.at_port((p + 1) as u32, now)
        }
    }

    pub open spec fn next_port(self, now: u64) -> Bring {
        self.at_port((self.port + 1) as u32, now)
    }

    /// What the driver does next.
    pub open spec fn access(self) -> Access {
        let at = port_at(self.port);
        match self.step {
            Step::Reset => Access::Write(HBA_GHC, 1),
            Step::ResetWait => Access::Read(HBA_GHC),
            Step::ReadGhc => Access::Read(HBA_GHC),
            Step::Enable(v) => Access::Write(HBA_GHC, v | 0x8000_0000),
            Step::ReadPorts => Access::Read(HBA_PI),
            Step::ReadCap => Access::Read(HBA_CAP),
            Step::StopRead => Access::Read((at + PX_CMD) as u64),
            Step::Stop(v) => Access::Write((at + PX_CMD) as u64, v & 0xFFFF_FFEE),
            Step::StopWait => Access::Read((at + PX_CMD) as u64),
            Step::Alloc => Access::Alloc,
            Step::Program(d, k) => {
                let (off, v) = program_write(self.port, d, k);
                Access::Write(off, v)
            },
            Step::StartRead(_) => Access::Read((at + PX_CMD) as u64),
            Step::PowerOn(_, v) => Access::Write((at + PX_CMD) as u64, v | 0x16),
            Step::Start(_, v) => Access::Write((at + PX_CMD) as u64, v | 0x17),
            Step::LinkWait(_) => Access::Read((at + PX_SSTS) as u64),
            Step::LinkCheck(_) => Access::Read((at + PX_SSTS) as u64),
            Step::Signature(_) => Access::Read((at + PX_SIG) as u64),
            Step::Identify(d) => Access::Identify(Port { number: self.port, dma: d }),
            Step::Done => Access::Finish(true),
            Step::Failed => Access::Finish(false),
        }
    }

    /// The machine after its access returned `o` at tick `now`.
    pub open spec fn after(self, o: Outcome, now: u64) -> Bring {
        let late = now >= self.deadline;
        match (self.step, o) {
            (Step::Reset, Outcome::Written) => self.to(Step::ResetWait, now),
            (Step::ResetWait, Outcome::Value(v)) => if v % 2 == 0 {
                self.to(Step::ReadGhc, now)
            } else if late {
                self.to(Step::Failed, now)
            } else {
                self
            },
            (Step::ReadGhc, Outcome::Value(v)) => self.to(Step::Enable(v), now),
            (Step::Enable(_), Outcome::Written) => self.to(Step::ReadPorts, now),
            (Step::ReadPorts, Outcome::Value(v)) => Bring { pi: v, ..self }.to(Step::ReadCap, now),
            (Step::ReadCap, Outcome::Value(v)) => {
                let np = v % 32 + 1;
                Bring {
                    count: if np < 4 {
                        np as u32
                    } else {
                        4
                    },
                    ..self
                }.at_port(0, now)
            },
            (Step::StopRead, Outcome::Value(v)) => self.to(Step::Stop(v), now),
            (Step::Stop(_), Outcome::Written) => self.to(Step::StopWait, now),
            (Step::StopWait, Outcome::Value(v)) => if v / 0x8000 % 2 == 0 || late {
                self.to(Step::Alloc, now)
            } else {
                self
            },
            (Step::Alloc, Outcome::Blocks(b)) => match b {
                Some(d) => self.to(Step::Program(d, 0), now),
                None => self.next_port(now),
            },
            (Step::Program(d, k), Outcome::Written) => if k < 6 {
                self.to(Step::Program(d, (k + 1) as u8), now)
            } else {
                self.to(Step::StartRead(d), now)
            },
            (Step::StartRead(d), Outcome::Value(v)) => self.to(Step::PowerOn(d, v), now),
            (Step::PowerOn(d, v), Outcome::Written) => self.to(Step::Start(d, v), now),
            (Step::Start(d, _), Outcome::Written) => self.to(Step::LinkWait(d), now),
            (Step::LinkWait(d), Outcome::Value(v)) => if link_up(v) || late {
                self.to(Step::LinkCheck(d), now)
            } else {
                self
            },
            (Step::LinkCheck(d), Outcome::Value(v)) => if link_up(v) {
                self.to(Step::Signature(d), now)
            } else {
                self.next_port(now)
            },
            (Step::Signature(d), Outcome::Value(v)) => if v == SIG_ATA || v == SIG_ATAPI {
                self.to(Step::Identify(d), now)
            } else {
                self.next_port(now)
            },
            (Step::Identify(_), Outcome::Disk(_)) => self.next_port(now),
            _ => self,
        }
    }

    /// Starts to bring up the controller.
    pub fn init() -> (b: Bring)
        ensures
            b == (Bring { step: Step::Reset, pi: 0, count: 0, port: 0, deadline: 0 }),
            b.wf(),
    {
        Bring { step: Step::Reset, pi: 0, count: 0, port: 0, deadline: 0 }
    }

    fn go(&mut self, step: Step, now: u64)
        requires
            old(self).wf(),
        ensures
            *final(self) == old(self).to(step, now),
            final(self).wf(),
    {
        self.step = step;
        self.deadline = now.saturating_add(TIMEOUT_TICKS);
    }

    fn go_to_port(&mut self, from: u32, now: u64)
        requires
            old(self).wf(),
            from <= 4,
        ensures
            *final(self) == old(self).at_port(from, now),
            final(self).wf(),
            final(self).port < 4 || final(self).step == Step::Done,
    {
        let mut p: u32 = from;
        while p < self.count && p < 4
            invariant
                *self == *old(self),
                self.wf(),
                p <= 4,
                self.at_port(p, now) == self.at_port(from, now),
            decreases 4 - p,
        {
            let there: bool = if p == 0 {
                self.pi % 2 == 1
            } else if p == 1 {
                self.pi / 2 % 2 == 1
            } else if p == 2 {
                self.pi / 4 % 2 == 1
            } else {
                self.pi / 8 % 2 == 1
            };
            if there {
                self.port = p;
                self.step = Step::StopRead;
                self.deadline = now.saturating_add(TIMEOUT_TICKS);
                return;
            }
            p += 1;
        }
        self.port = p;
        self.step = Step::Done;
        self.deadline = now.saturating_add(TIMEOUT_TICKS);
    }

    /// What the driver does next.
    pub fn next(&self) -> (a: Access)
        requires
            self.wf(),
        ensures
            a == self.access(),
    {
        let at: u64 = 0x100 + 0x80 * (self.port as u64);
        match self.step {
            Step::Reset => Access::Write(HBA_GHC, 1),
            Step::ResetWait => Access::Read(HBA_GHC),
            Step::ReadGhc => Access::Read(HBA_GHC),
            Step::Enable(v) => Access::Write(HBA_GHC, v | 0x8000_0000),
            Step::ReadPorts => Access::Read(HBA_PI),
            Step::ReadCap => Access::Read(HBA_CAP),
            Step::StopRead => Access::Read(at + PX_CMD),
            Step::Stop(v) => Access::Write(at + PX_CMD, v & 0xFFFF_FFEE),
            Step::StopWait => Access::Read(at + PX_CMD),
            Step::Alloc => Access::Alloc,
            Step::Program(d, k) => {
                if k == 0 {
                    Access::Write(at, (d.clb % 0x1_0000_0000) as u32)
                } else if k == 1 {
                    Access::Write(at + 4, (d.clb / 0x1_0000_0000) as u32)
                } else if k == 2 {
                    Access::Write(at + 8, (d.fb % 0x1_0000_0000) as u32)
                } else if k == 3 {
                    Access::Write(at + 0x0C, (d.fb / 0x1_0000_0000) as u32)
                } else if k == 4 {
                    Access::Write(at + 0x10, 0xFFFF_FFFF)
                } else if k == 5 {
                    Access::Write(at + 0x14, 0)
                } else {
                    Access::Write(at + 0x30, 0xFFFF_FFFF)
                }
            },
            Step::StartRead(_) => Access::Read(at + PX_CMD),
            Step::PowerOn(_, v) => Access::Write(at + PX_CMD, v | 0x16),
            Step::Start(_, v) => Access::Write(at + PX_CMD, v | 0x17),
            Step::LinkWait(_) => Access::Read(at + PX_SSTS),
            Step::LinkCheck(_) => Access::Read(at + PX_SSTS),
            Step::Signature(_) => Access::Read(at + PX_SIG),
            Step::Identify(d) => Access::Identify(Port { number: self.port, dma: d }),
            Step::Done => Access::Finish(true),
            Step::Failed => Access::Finish(false),
        }
    }

    /// Takes in what the access returned; says whether the driver may halt
    /// until the next tick.
    pub fn observe(&mut self, o: Outcome, now: u64) -> (wait: bool)
        requires
            old(self).wf(),
            old(self).port < 4 || old(self).step == Step::Done,
        ensures
            *final(self) == old(self).after(o, now),
            final(self).wf(),
            final(self).port < 4 || final(self).step == Step::Done,
            wait == (*final(self) == *old(self)),
    {
        let late: bool = now >= self.deadline;
        let before: Bring = *self;
        match (self.step, o) {
            (Step::Reset, Outcome::Written) => self.go(Step::ResetWait, now),
            (Step::ResetWait, Outcome::Value(v)) => {
                if v % 2 == 0 {
                    self.go(Step::ReadGhc, now);
                } else if late {
                    self.go(Step::Failed, now);
                }
            },
            (Step::ReadGhc, Outcome::Value(v)) => self.go(Step::Enable(v), now),
            (Step::Enable(_), Outcome::Written) => self.go(Step::ReadPorts, now),
            (Step::ReadPorts, Outcome::Value(v)) => {
                self.pi = v;
                self.go(Step::ReadCap, now);
            },
            (Step::ReadCap, Outcome::Value(v)) => {
                let np: u32 = v % 32 + 1;
                self.count = if np < 4 {
                    np
                } else {
                    4
                };
                self.go_to_port(0, now);
            },
            (Step::StopRead, Outcome::Value(v)) => self.go(Step::Stop(v), now),
            (Step::Stop(_), Outcome::Written) => self.go(Step::StopWait, now),
            (Step::StopWait, Outcome::Value(v)) => {
                if v / 0x8000 % 2 == 0 || late {
                    self.go(Step::Alloc, now);
                }
            },
            (Step::Alloc, Outcome::Blocks(b)) => match b {
                Some(d) => self.go(Step::Program(d, 0), now),
                None => self.go_to_port(self.port + 1, now),
            },
            (Step::Program(d, k), Outcome::Written) => {
                if k < 6 {
                    self.go(Step::Program(d, k + 1), now);
                } else {
                    self.go(Step::StartRead(d), now);
                }
            },
            (Step::StartRead(d), Outcome::Value(v)) => self.go(Step::PowerOn(d, v), now),
            (Step::PowerOn(d, v), Outcome::Written) => self.go(Step::Start(d, v), now),
            (Step::Start(d, _), Outcome::Written) => self.go(Step::LinkWait(d), now),
            (Step::LinkWait(d), Outcome::Value(v)) => {
                if v % 16 == 3 || late {
                    self.go(Step::LinkCheck(d), now);
                }
            },
            (Step::LinkCheck(d), Outcome::Value(v)) => {
                if v % 16 == 3 {
                    self.go(Step::Signature(d), now);
                } else {
                    self.go_to_port(self.port + 1, now);
                }
            },
            (Step::Signature(d), Outcome::Value(v)) => {
                if v == SIG_ATA || v == SIG_ATAPI {
                    self.go(Step::Identify(d), now);
                } else {
                    self.go_to_port(self.port + 1, now);
                }
            },
            (Step::Identify(_), Outcome::Disk(_)) => self.go_to_port(self.port + 1, now),
            _ => {},
        }
        *self == before
    }
}

// ---------- commands ----------

/// The command FIS: 20 bytes of a 128-byte area.
pub open spec fn fis(command: u8, lba: u64, count: u16) -> Seq<u8> {
    Seq::new(
        128,
        |k: int|
            if k == 0 {
                0x27u8
            } else if k == 1 {
                0x80u8
            } else if k == 2 {
                command
            } else if k == 4 {
                (lba % 0x100) as u8
            } else if k == 5 {
                (lba / 0x100 % 0x100) as u8
            } else if k == 6 {
                (lba / 0x1_0000 % 0x100) as u8
            } else if k == 7 {
                0x40u8
            } else if k == 8 {
                (lba / 0x100_0000 % 0x100) as u8
            } else if k == 9 {
                (lba / 0x1_0000_0000 % 0x100) as u8
            } else if k == 10 {
                (lba / 0x100_0000_0000 % 0x100) as u8
            } else if k == 12 {
                (count % 0x100) as u8
            } else if k == 13 {
                (count / 0x100) as u8
            } else {
                0u8
            },
    )
}

/// The command table: the FIS, and behind it the one region descriptor.
pub open spec fn command_table(command: u8, lba: u64, count: u16, data: u64, dbc: u32) -> Seq<u8> {
    fis(command, lba, count) + bytes::le32((data % 0x1_0000_0000) as u32) + bytes::le32(
        (data / 0x1_0000_0000) as u32,
    ) + bytes::le32(dbc) + bytes::le32(0)
}

/// The command header: one region, the direction, a FIS of five words, and
/// the address of the command table.
pub open spec fn command_header(write: bool, ct: u64) -> Seq<u8> {
    bytes::le32(
        if write {
            0x1_0045
        } else {
            0x1_0005
        },
    ) + bytes::le32(0) + bytes::le32((ct % 0x1_0000_0000) as u32) + bytes::le32(
        (ct / 0x1_0000_0000) as u32,
    ) + bytes::zero_bytes(16)
}

pub fn build_table(command: u8, lba: u64, count: u16, data: u64, dbc: u32) -> (t: Vec<u8>)
    ensures
        t@ == command_table(command, lba, count, data, dbc),
        t@.len() == 144,
{
    let mut t = zeros(144);
    t[0] = 0x27;
    t[1] = 0x80;
    t[2] = command;
    t[4] = (lba % 0x100) as u8;
    t[5] = (lba / 0x100 % 0x100) as u8;
    t[6] = (lba / 0x1_0000 % 0x100) as u8;
    t[7] = 0x40;
    t[8] = (lba / 0x100_0000 % 0x100) as u8;
    t[9] = (lba / 0x1_0000_0000 % 0x100) as u8;
    t[10] = (lba / 0x100_0000_0000 % 0x100) as u8;
    t[12] = (count % 0x100) as u8;
    t[13] = (count / 0x100) as u8;
    w32(&mut t, 128, (data % 0x1_0000_0000) as u32);
    w32(&mut t, 132, (data / 0x1_0000_0000) as u32);
    w32(&mut t, 136, dbc);
    assert(t@ =~= command_table(command, lba, count, data, dbc));
    t
}

pub fn build_header(write: bool, ct: u64) -> (h: Vec<u8>)
    ensures
        h@ == command_header(write, ct),
        h@.len() == 32,
{
    let mut h = zeros(32);
    w32(
        &mut h,
        0,
        if write {
            0x1_0045
        } else {
            0x1_0005
        },
    );
    w32(&mut h, 8, (ct % 0x1_0000_0000) as u32);
    w32(&mut h, 12, (ct / 0x1_0000_0000) as u32);
    assert(h@ =~= command_header(write, ct));
    h
}

/// Where a command stands.
#[derive(Clone, Copy, PartialEq, Eq, Debug, Structural)]
pub enum IssueStep {
    /// Waiting for the port to be idle.
    Idle,
    IdleSlots,
    /// The table and the header stand in memory; about to clear the status.
    Clear,
    /// About to start the command.
    Start,
    /// Waiting for the command to finish.
    Running,
    ReadStatus,
    ReadTask(u32),
    Done(bool),
}

/// A single-sector DMA command on a port.
#[derive(Clone, Copy, PartialEq, Eq, Debug, Structural)]
pub struct Issue {
    pub port: u32,
    pub step: IssueStep,
    pub deadline: u64,
}

/// The interrupt status or the task file report an error.
pub open spec fn failed(is: u32, tfd: u32) -> bool {
    is / 0x4000_0000 % 2 == 1 || tfd % 2 == 1
}

impl Issue {
    pub open spec fn to(self, step: IssueStep, now: u64) -> Issue {
        Issue { step, deadline: give_up_at(now), ..self }
    }

    pub open spec fn access(self) -> Access {
        let at = port_at(self.port);
        match self.step {
            IssueStep::Idle => Access::Read((at + PX_TFD) as u64),
            IssueStep::IdleSlots => Access::Read((at + PX_CI) as u64),
            IssueStep::Clear => Access::Write((at + PX_IS) as u64, 0xFFFF_FFFF),
            IssueStep::Start => Access::Write((at + PX_CI) as u64, 1),
            IssueStep::Running => Access::Read((at + PX_CI) as u64),
            IssueStep::ReadStatus => Access::Read((at + PX_IS) as u64),
            IssueStep::ReadTask(_) => Access::Read((at + PX_TFD) as u64),
            IssueStep::Done(ok) => Access::Finish(ok),
        }
    }

    /// The command after its access returned `o` at tick `now`: it fails when
    /// the port stays busy or the command does not finish in time.
    pub open spec fn after(self, o: Outcome, now: u64) -> Issue {
        let late = now >= self.deadline;
        let again = if late {
            self.to(IssueStep::Done(false), now)
        } else {
            Issue { step: IssueStep::Idle, ..self }
        };
        match (self.step, o) {
            (IssueStep::Idle, Outcome::Value(v)) => if v / 0x80 % 2 == 1 {
                again
            } else {
                Issue { step: IssueStep::IdleSlots, ..self }
            },
            (IssueStep::IdleSlots, Outcome::Value(v)) => if v != 0 {
                again
            } else {
                self.to(IssueStep::Clear, now)
            },
            (IssueStep::Clear, Outcome::Written) => self.to(IssueStep::Start, now),
            (IssueStep::Start, Outcome::Written) => self.to(IssueStep::Running, now),
            (IssueStep::Running, Outcome::Value(v)) => if v % 2 == 0 {
                self.to(IssueStep::ReadStatus, now)
            } else if late {
                self.to(IssueStep::Done(false), now)
            } else {
                self
            },
            (IssueStep::ReadStatus, Outcome::Value(v)) => self.to(IssueStep::ReadTask(v), now),
            (IssueStep::ReadTask(is), Outcome::Value(v)) => self.to(
                IssueStep::Done(!failed(is, v)),
                now,
            ),
            _ => self,
        }
    }

    /// Starts a command on a port.
    pub fn start(port: u32, now: u64) -> (c: Issue)
        ensures
            c == (Issue { port, step: IssueStep::Idle, deadline: give_up_at(now) }),
    {
        Issue { port, step: IssueStep::Idle, deadline: now.saturating_add(TIMEOUT_TICKS) }
    }

    fn go(&mut self, step: IssueStep, now: u64)
        ensures
            *final(self) == old(self).to(step, now),
    {
        self.step = step;
        self.deadline = now.saturating_add(TIMEOUT_TICKS);
    }

    pub fn next(&self) -> (a: Access)
        requires
            self.port < 32,
        ensures
            a == self.access(),
    {
        let at: u64 = 0x100 + 0x80 * (self.port as u64);
        match self.step {
            IssueStep::Idle => Access::Read(at + PX_TFD),
            IssueStep::IdleSlots => Access::Read(at + PX_CI),
            IssueStep::Clear => Access::Write(at + PX_IS, 0xFFFF_FFFF),
            IssueStep::Start => Access::Write(at + PX_CI, 1),
            IssueStep::Running => Access::Read(at + PX_CI),
            IssueStep::ReadStatus => Access::Read(at + PX_IS),
            IssueStep::ReadTask(_) => Access::Read(at + PX_TFD),
            IssueStep::Done(ok) => Access::Finish(ok),
        }
    }

    /// Takes in what the access returned.
    pub fn observe(&mut self, o: Outcome, now: u64)
        ensures
            *final(self) == old(self).after(o, now),
    {
        let late: bool = now >= self.deadline;
        match (self.step, o) {
            (IssueStep::Idle, Outcome::Value(v)) => {
                if v / 0x80 % 2 == 1 {
                    if late {
                        self.go(IssueStep::Done(false), now);
                    }
                } else {
                    self.step = IssueStep::IdleSlots;
                }
            },
            (IssueStep::IdleSlots, Outcome::Value(v)) => {
                if v != 0 {
                    if late {
                        self.go(IssueStep::Done(false), now);
                    } else {
                        self.step = IssueStep::Idle;
                    }
                } else {
                    self.go(IssueStep::Clear, now);
                }
            },
            (IssueStep::Clear, Outcome::Written) => self.go(IssueStep::Start, now),
            (IssueStep::Start, Outcome::Written) => self.go(IssueStep::Running, now),
            (IssueStep::Running, Outcome::Value(v)) => {
                if v % 2 == 0 {
                    self.go(IssueStep::ReadStatus, now);
                } else if late {
                    self.go(IssueStep::Done(false), now);
                }
            },
            (IssueStep::ReadStatus, Outcome::Value(v)) => self.go(IssueStep::ReadTask(v), now),
            (IssueStep::ReadTask(is), Outcome::Value(v)) => {
                let ok: bool = !(is / 0x4000_0000 % 2 == 1 || v % 2 == 1);
                self.go(IssueStep::Done(ok), now);
            },
            _ => {},
        }
    }
}

/// A command ends well only from the step that has read both error
/// registers, and only when neither reports an error.
pub proof fn success_needs_clean_registers(c: Issue, o: Outcome, now: u64)
    requires
        !(c.step is Done),
        c.after(o, now).step == IssueStep::Done(true),
    ensures
        c.step is ReadTask,
        o is Value,
        !failed(c.step->ReadTask_0, o->Value_0),
{
}

// ---------- memory for transfers ----------

/// Takes a block of `size` bytes for a device from the heap, at the start of a
/// page, and clears it. The address lies in the window of physical memory `m`.
pub fn alloc_dma(h: &mut HeapAllocator, m: &mut [u8], size: u64) -> (r: Option<u64>)
    requires
        old(h).wf(),
        old(h).base - PMO + old(h).total <= old(m)@.len(),
    ensures
        final(h).wf(),
        final(h).base == old(h).base,
        final(h).total == old(h).total,
        (final(h).seen(), r) == old(h).seen().granted(size, 4096),
        match r {
            None => final(m)@ == old(m)@,
            Some(v) => {
                &&& v % 4096 == 0
                &&& PMO <= v
                &&& v - PMO + size <= old(m)@.len()
                &&& final(m)@ == bytes::splice(
                    old(m)@,
                    v - PMO,
                    bytes::zero_bytes(size as nat),
                )
            },
        },
{
    proof {
        heap::alloc_keeps_order(h.seen(), size, 4096);
    }
    let total: usize = m.len();
    match h.alloc_locked(size, 4096) {
        None => None,
        Some(v) => {
            assert(total == m@.len());
            assert(h.seen().holds(h.live@.last()));
            bytes::zero_range(m, (v - PMO) as usize, size as usize);
            Some(v)
        },
    }
}

// ---------- identification ----------

/// One step of the identification of a disk: the command, its sector, the
/// number of sectors, and what fills the data buffer first.
#[derive(Clone, Copy, PartialEq, Eq, Debug, Structural)]
pub struct Probe {
    pub write: bool,
    pub command: u8,
    pub lba: u64,
    pub count: u16,
    /// The byte that fills the data buffer before the command, if any.
    pub fill: Option<u8>,
}

/// The commands that identify a disk: IDENTIFY itself, then a test of DMA
/// transfers on sector 42, which is read, filled and read again. Only the first
/// one has to succeed.
pub open spec fn probes() -> Seq<Probe> {
    seq![
        Probe { write: false, command: CMD_IDENTIFY, lba: 0, count: 0, fill: None },
        Probe { write: false, command: CMD_READ_DMA_EXT, lba: 42, count: 1, fill: None },
        Probe { write: true, command: CMD_WRITE_DMA_EXT, lba: 42, count: 1, fill: Some(0xAA) },
        Probe { write: false, command: CMD_READ_DMA_EXT, lba: 42, count: 1, fill: Some(0) },
    ]
}

pub fn probe(k: usize) -> (p: Option<Probe>)
    ensures
        p == (if k < probes().len() {
            Some(probes()[k as int])
        } else {
            None
        }),
{
    if k == 0 {
        Some(Probe { write: false, command: CMD_IDENTIFY, lba: 0, count: 0, fill: None })
    } else if k == 1 {
        Some(Probe { write: false, command: CMD_READ_DMA_EXT, lba: 42, count: 1, fill: None })
    } else if k == 2 {
        Some(
            Probe { write: true, command: CMD_WRITE_DMA_EXT, lba: 42, count: 1, fill: Some(0xAA) },
        )
    } else if k == 3 {
        Some(Probe { write: false, command: CMD_READ_DMA_EXT, lba: 42, count: 1, fill: Some(0) })
    } else {
        None
    }
}

/// The number of sectors: that of 48-bit commands where the disk has them.
pub open spec fn sectors48(words: Seq<u16>) -> u64 {
    if words[49] / 1024 % 2 == 1 {
        (words[100] + 0x1_0000 * words[101] + 0x1_0000_0000 * words[102] + 0x1_0000_0000_0000
            * words[103]) as u64
    } else {
        ata::sectors28(words)
    }
}

/// The disk that the data buffer describes as the last of the probes left it;
/// no disk where the first of them failed.
pub fn identify(identified: bool, buffer: &[u8]) -> (d: AtaDevice)
    requires
        buffer@.len() == 512,
    ensures
        identified ==> !d.is_secondary && !d.master && d.index == 0 && !d.via_ahci,
        identified ==> ata::described(
            d,
            ata::words_of(buffer@),
            sectors48(ata::words_of(buffer@)),
        ),
        !identified ==> ata::is_absent(d),
{
    let mut d = AtaDevice::absent();
    if !identified {
        return d;
    }
    let w = ata::words_from_sector(buffer);
    let sectors: u64 = if w[49] / 1024 % 2 == 1 {
        w[100] as u64 + 0x1_0000 * (w[101] as u64) + 0x1_0000_0000 * (w[102] as u64)
            + 0x1_0000_0000_0000 * (w[103] as u64)
    } else {
        w[60] as u64 + 0x1_0000 * (w[61] as u64)
    };
    ata::describe(&mut d, &w, sectors);
    d
}

// ---------- the disks ----------

/// The ports with disks, in the order in which they were found.
pub struct Ahci {
    pub ports: Vec<Port>,
}

/// The port behind a slot of the device table.
pub open spec fn port_of(ports: Seq<Port>, slot: int) -> Option<Port> {
    if 4 <= slot < 8 && slot - 4 < ports.len() {
        Some(ports[slot - 4])
    } else {
        None
    }
}

impl Ahci {
    pub open spec fn wf(&self) -> bool {
        self.ports@.len() <= MAX_PORTS
    }

    pub fn new() -> (a: Ahci)
        ensures
            a.wf(),
            a.ports@.len() == 0,
    {
        Ahci { ports: Vec::new() }
    }

    pub fn port_mut(&self, slot: usize) -> (r: Option<Port>)
        ensures
            r == port_of(self.ports@, slot as int),
    {
        if slot < ATA_BASE_SLOT || slot >= ATA_BASE_SLOT + MAX_PORTS {
            return None;
        }
        let i: usize = slot - ATA_BASE_SLOT;
        if i < self.ports.len() {
            Some(self.ports[i])
        } else {
            None
        }
    }

    /// Registers a disk: it takes the next AHCI slot of the device table. A
    /// port without a disk changes nothing.
    pub fn register(&mut self, t: &mut Devices, port: Port, d: AtaDevice)
        requires
            old(self).wf(),
            old(self).ports@.len() < MAX_PORTS,
            old(t).wf(),
        ensures
            final(self).wf(),
            final(t).wf(),
            !d.present ==> final(self).ports@ == old(self).ports@ && final(t).slots@
                == old(t).slots@ && final(t).count == old(t).count,
            d.present ==> {
                let slot = 4 + old(self).ports@.len();
                &&& final(self).ports@ == old(self).ports@.push(port)
                &&& final(t).slots@ == old(t).slots@.update(
                    slot as int,
                    (AtaDevice { index: slot as usize, via_ahci: true, ..d }),
                )
                &&& final(t).count == old(t).count.wrapping_add(1)
            },
    {
        if d.present {
            let slot: usize = ATA_BASE_SLOT + self.ports.len();
            let mut stored = d;
            stored.index = slot;
            stored.via_ahci = true;
            ata::set_device(t, slot, stored);
            self.ports.push(port);
        }
    }
}

/// The tables of a command on the disk behind a slot: where it goes, the
/// command table and the header. No answer where the slot has no disk.
fn sector_command(a: &Ahci, slot: usize, lba: u32, write: bool) -> (r: Option<
    (Port, Vec<u8>, Vec<u8>),
>)
    ensures
        r is Some <==> port_of(a.ports@, slot as int) is Some,
        r is Some ==> {
            let p = port_of(a.ports@, slot as int)->0;
            &&& (r->0).0 == p
            &&& (r->0).1@ == command_table(
                if write {
                    CMD_WRITE_DMA_EXT
                } else {
                    CMD_READ_DMA_EXT
                },
                lba as u64,
                1,
                p.dma.data,
                511,
            )
            &&& (r->0).2@ == command_header(write, p.dma.ct)
        },
{
    match a.port_mut(slot) {
        None => None,
        Some(p) => {
            let command: u8 = if write {
                CMD_WRITE_DMA_EXT
            } else {
                CMD_READ_DMA_EXT
            };
            let t = build_table(command, lba as u64, 1, p.dma.data, 511);
            let h = build_header(write, p.dma.ct);
            Some((p, t, h))
        },
    }
}

/// The command that reads a sector into the data buffer of the port.
pub fn read_sector(a: &Ahci, slot: usize, lba: u32) -> (r: Option<(Port, Vec<u8>, Vec<u8>)>)
    ensures
        r is Some <==> port_of(a.ports@, slot as int) is Some,
        r is Some ==> {
            let p = port_of(a.ports@, slot as int)->0;
            &&& (r->0).0 == p
            &&& (r->0).1@ == command_table(CMD_READ_DMA_EXT, lba as u64, 1, p.dma.data, 511)
            &&& (r->0).2@ == command_header(false, p.dma.ct)
        },
{
    sector_command(a, slot, lba, false)
}

/// The command that writes the data buffer of the port to a sector.
pub fn write_sector(a: &Ahci, slot: usize, lba: u32) -> (r: Option<(Port, Vec<u8>, Vec<u8>)>)
    ensures
        r is Some <==> port_of(a.ports@, slot as int) is Some,
        r is Some ==> {
            let p = port_of(a.ports@, slot as int)->0;
            &&& (r->0).0 == p
            &&& (r->0).1@ == command_table(CMD_WRITE_DMA_EXT, lba as u64, 1, p.dma.data, 511)
            &&& (r->0).2@ == command_header(true, p.dma.ct)
        },
{
    sector_command(a, slot, lba, true)
}

} // verus!
