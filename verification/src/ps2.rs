//! The PS/2 controller: bringing up the keyboard port.
//!
//! The machine says which port access comes next and takes in what a read
//! returned. Every wait is a bounded number of polls, so a step that fails
//! degrades gracefully.

use vstd::prelude::*;

verus! {

pub const POLL_LIMIT: u32 = 65536;

/// What the bring-up found.
#[derive(Clone, Copy, PartialEq, Eq, Debug, Structural)]
pub struct Ps2InitReport {
    pub controller_ok: bool,
    pub device_ok: bool,
}

/// The next port access.
#[derive(Clone, Copy, PartialEq, Eq, Debug, Structural)]
pub enum Access {
    ReadStatus,
    ReadData,
    WriteCommand(u8),
    WriteData(u8),
    Finished,
}

/// What is being sent or received.
#[derive(Clone, Copy, PartialEq, Eq, Debug, Structural)]
pub enum Move {
    /// Wait for room, then write a command byte.
    Command(u8),
    /// Wait for room, then write a data byte.
    Data(u8),
    /// Wait for a byte, then read it.
    Receive,
    /// Read bytes until none is left, at most sixteen.
    Flush,
}

/// Where the bring-up stands.
#[derive(Clone, Copy, PartialEq, Eq, Debug, Structural)]
pub enum Phase {
    Disable,
    Flush,
    SelfTest,
    SelfTestReply,
    PortTest,
    PortTestReply,
    ReadConfig,
    ReadConfigReply,
    WriteConfig,
    WriteConfigByte,
    /// The device self-test: the number of the attempt.
    Reset(u8),
    ResetAck(u8),
    ResetReply(u8),
    /// Switching the scanning on: the number of the attempt.
    Scan(u8),
    ScanReply(u8),
    RestoreConfig,
    RestoreConfigByte,
    Enable,
    Done,
}

/// The bring-up of the controller.
#[derive(Clone, Copy, PartialEq, Eq, Debug, Structural)]
pub struct Init {
    pub phase: Phase,
    /// The number of polls of the present move.
    pub polls: u32,
    /// The present move is past its wait.
    pub ready: bool,
    /// The configuration that the controller had.
    pub base: u8,
    pub controller_ok: bool,
    pub port_ok: bool,
    pub device_ok: bool,
    pub scan_ok: bool,
}

/// The configuration while the device is tested: no interrupts, no
/// translation, the keyboard clock on and the mouse clock off.
pub open spec fn quiet_config(base: u8) -> u8 {
    (base & 0xE8) | 0x08
}

/// The final configuration: keyboard interrupt and translation on, the mouse
/// and its interrupt off.
pub open spec fn final_config(base: u8) -> u8 {
    (base & 0xF5) | 0x11
}

impl Init {
    /// What the present phase does.
    pub open spec fn move_of(self) -> Move {
        match self.phase {
            Phase::Disable => Move::Command(0xAD),
            Phase::Flush => Move::Flush,
            Phase::SelfTest => Move::Command(0xAA),
            Phase::PortTest => Move::Command(0xAB),
            Phase::ReadConfig => Move::Command(0x20),
            Phase::WriteConfig => Move::Command(0x60),
            Phase::WriteConfigByte => Move::Data(quiet_config(self.base)),
            Phase::Reset(_) => Move::Data(0xFF),
            Phase::Scan(_) => Move::Data(0xF4),
            Phase::RestoreConfig => Move::Command(0x60),
            Phase::RestoreConfigByte => Move::Data(final_config(self.base)),
            Phase::Enable => Move::Command(0xAE),
            _ => Move::Receive,
        }
    }

    pub open spec fn access(self) -> Access {
        if self.phase == Phase::Done {
            Access::Finished
        } else if !self.ready {
            Access::ReadStatus
        } else {
            match self.move_of() {
                Move::Command(v) => Access::WriteCommand(v),
                Move::Data(v) => Access::WriteData(v),
                Move::Receive => Access::ReadData,
                Move::Flush => Access::ReadData,
            }
        }
    }

    pub open spec fn to(self, phase: Phase) -> Init {
        Init { phase, polls: 0, ready: false, ..self }
    }

    /// The step after the move succeeded; `v` is the byte that was received.
    pub open spec fn succeeded(self, v: u8) -> Init {
        match self.phase {
            Phase::Disable => self.to(Phase::Flush),
            Phase::Flush => self.to(Phase::SelfTest),
            Phase::SelfTest => self.to(Phase::SelfTestReply),
            Phase::SelfTestReply => Init { controller_ok: v == 0x55, ..self.to(Phase::PortTest) },
            Phase::PortTest => self.to(Phase::PortTestReply),
            Phase::PortTestReply => Init { port_ok: v == 0, ..self.to(Phase::ReadConfig) },
            Phase::ReadConfig => self.to(Phase::ReadConfigReply),
            Phase::ReadConfigReply => Init { base: v, ..self.to(Phase::WriteConfig) },
            Phase::WriteConfig => self.to(Phase::WriteConfigByte),
            Phase::WriteConfigByte => self.to(Phase::Reset(0)),
            Phase::Reset(n) => self.to(Phase::ResetAck(n)),
            Phase::ResetAck(n) => if v == 0xFA {
                self.to(Phase::ResetReply(n))
            } else {
                self.reset_again(n)
            },
            Phase::ResetReply(n) => if v == 0xAA {
                Init { device_ok: true, ..self.to(Phase::Scan(0)) }
            } else {
                self.reset_again(n)
            },
            Phase::Scan(n) => self.to(Phase::ScanReply(n)),
            Phase::ScanReply(n) => if v == 0xFA {
                Init { scan_ok: true, ..self.to(Phase::RestoreConfig) }
            } else if v == 0xFE && n < 3 {
                self.to(Phase::Scan((n + 1) as u8))
            } else {
                self.to(Phase::RestoreConfig)
            },
            Phase::RestoreConfig => self.to(Phase::RestoreConfigByte),
            Phase::RestoreConfigByte => self.to(Phase::Enable),
            Phase::Enable => self.to(Phase::Done),
            Phase::Done => self,
        }
    }

    /// Another attempt at the device self-test; three in all.
    pub open spec fn reset_again(self, n: u8) -> Init {
        if n < 2 {
            self.to(Phase::Reset((n + 1) as u8))
        } else {
            self.to(Phase::Scan(0))
        }
    }

    /// The step after the wait of the move ran out.
    pub open spec fn failed(self) -> Init {
        match self.phase {
            Phase::Disable => self.to(Phase::Flush),
            Phase::Flush => self.to(Phase::SelfTest),
            Phase::SelfTest => self.to(Phase::PortTest),
            Phase::SelfTestReply => self.to(Phase::PortTest),
            Phase::PortTest => self.to(Phase::ReadConfig),
            Phase::PortTestReply => self.to(Phase::ReadConfig),
            Phase::ReadConfig => self.to(Phase::WriteConfig),
            Phase::ReadConfigReply => self.to(Phase::WriteConfig),
            Phase::WriteConfig => self.to(Phase::Reset(0)),
            Phase::WriteConfigByte => self.to(Phase::Reset(0)),
            Phase::Reset(_) => self.to(Phase::Scan(0)),
            Phase::ResetAck(n) => self.reset_again(n),
            Phase::ResetReply(n) => self.reset_again(n),
            Phase::Scan(_) => self.to(Phase::RestoreConfig),
            Phase::ScanReply(_) => self.to(Phase::RestoreConfig),
            Phase::RestoreConfig => self.to(Phase::Enable),
            Phase::RestoreConfigByte => self.to(Phase::Enable),
            Phase::Enable => self.to(Phase::Done),
            Phase::Done => self,
        }
    }

    /// The status byte lets the move go on.
    pub open spec fn may_move(self, status: u8) -> bool {
        match self.move_of() {
            Move::Command(_) => status / 2 % 2 == 0,
            Move::Data(_) => status / 2 % 2 == 0,
            Move::Receive => status % 2 == 1,
            Move::Flush => status % 2 == 1,
        }
    }

    /// The machine after its access; `v` is what a read returned.
    pub open spec fn after(self, v: u8) -> Init {
        if self.phase == Phase::Done {
            self
        } else if !self.ready {
            if self.may_move(v) {
                Init { ready: true, ..self }
            } else if self.phase == Phase::Flush {
                self.succeeded(0)
            } else if self.polls + 1 >= POLL_LIMIT {
                self.failed()
            } else {
                Init { polls: (self.polls + 1) as u32, ..self }
            }
        } else if self.phase == Phase::Flush {
            if self.polls + 1 >= 16 {
                self.succeeded(0)
            } else {
                Init { polls: (self.polls + 1) as u32, ready: false, ..self }
            }
        } else {
            self.succeeded(v)
        }
    }

    pub open spec fn wf(self) -> bool {
        self.polls < POLL_LIMIT
    }

    fn exec_move(&self) -> (m: Move)
        ensures
            m == self.move_of(),
    {
        match self.phase {
            Phase::Disable => Move::Command(0xAD),
            Phase::Flush => Move::Flush,
            Phase::SelfTest => Move::Command(0xAA),
            Phase::PortTest => Move::Command(0xAB),
            Phase::ReadConfig => Move::Command(0x20),
            Phase::WriteConfig => Move::Command(0x60),
            Phase::WriteConfigByte => Move::Data((self.base & 0xE8) | 0x08),
            Phase::Reset(_) => Move::Data(0xFF),
            Phase::Scan(_) => Move::Data(0xF4),
            Phase::RestoreConfig => Move::Command(0x60),
            Phase::RestoreConfigByte => Move::Data((self.base & 0xF5) | 0x11),
            Phase::Enable => Move::Command(0xAE),
            _ => Move::Receive,
        }
    }

    /// The next port access.
    pub fn next(&self) -> (a: Access)
        ensures
            a == self.access(),
    {
        if self.phase == Phase::Done {
            return Access::Finished;
        }
        if !self.ready {
            return Access::ReadStatus;
        }
        match self.exec_move() {
            Move::Command(v) => Access::WriteCommand(v),
            Move::Data(v) => Access::WriteData(v),
            Move::Receive => Access::ReadData,
            Move::Flush => Access::ReadData,
        }
    }

    fn go(&mut self, phase: Phase)
        ensures
            *final(self) == old(self).to(phase),
    {
        self.phase = phase;
        self.polls = 0;
        self.ready = false;
    }

    fn retry_reset(&mut self, n: u8)
        ensures
            *final(self) == old(self).reset_again(n),
    {
        if n < 2 {
            self.go(Phase::Reset(n + 1));
        } else {
            self.go(Phase::Scan(0));
        }
    }

    fn succeed(&mut self, v: u8)
        ensures
            *final(self) == old(self).succeeded(v),
    {
        match self.phase {
            Phase::Disable => self.go(Phase::Flush),
            Phase::Flush => self.go(Phase::SelfTest),
            Phase::SelfTest => self.go(Phase::SelfTestReply),
            Phase::SelfTestReply => {
                self.controller_ok = v == 0x55;
                self.go(Phase::PortTest);
            },
            Phase::PortTest => self.go(Phase::PortTestReply),
            Phase::PortTestReply => {
                self.port_ok = v == 0;
                self.go(Phase::ReadConfig);
            },
            Phase::ReadConfig => self.go(Phase::ReadConfigReply),
            Phase::ReadConfigReply => {
                self.base = v;
                self.go(Phase::WriteConfig);
            },
            Phase::WriteConfig => self.go(Phase::WriteConfigByte),
            Phase::WriteConfigByte => self.go(Phase::Reset(0)),
            Phase::Reset(n) => self.go(Phase::ResetAck(n)),
            Phase::ResetAck(n) => {
                if v == 0xFA {
                    self.go(Phase::ResetReply(n));
                } else {
                    self.retry_reset(n);
                }
            },
            Phase::ResetReply(n) => {
                if v == 0xAA {
                    self.device_ok = true;
                    self.go(Phase::Scan(0));
                } else {
                    self.retry_reset(n);
                }
            },
            Phase::Scan(n) => self.go(Phase::ScanReply(n)),
            Phase::ScanReply(n) => {
                if v == 0xFA {
                    self.scan_ok = true;
                    self.go(Phase::RestoreConfig);
                } else if v == 0xFE && n < 3 {
                    self.go(Phase::Scan(n + 1));
                } else {
                    self.go(Phase::RestoreConfig);
                }
            },
            Phase::RestoreConfig => self.go(Phase::RestoreConfigByte),
            Phase::RestoreConfigByte => self.go(Phase::Enable),
            Phase::Enable => self.go(Phase::Done),
            Phase::Done => {},
        }
    }

    fn give_up(&mut self)
        ensures
            *final(self) == old(self).failed(),
    {
        match self.phase {
            Phase::Disable => self.go(Phase::Flush),
            Phase::Flush => self.go(Phase::SelfTest),
            Phase::SelfTest => self.go(Phase::PortTest),
            Phase::SelfTestReply => self.go(Phase::PortTest),
            Phase::PortTest => self.go(Phase::ReadConfig),
            Phase::PortTestReply => self.go(Phase::ReadConfig),
            Phase::ReadConfig => self.go(Phase::WriteConfig),
            Phase::ReadConfigReply => self.go(Phase::WriteConfig),
            Phase::WriteConfig => self.go(Phase::Reset(0)),
            Phase::WriteConfigByte => self.go(Phase::Reset(0)),
            Phase::Reset(_) => self.go(Phase::Scan(0)),
            Phase::ResetAck(n) => self.retry_reset(n),
            Phase::ResetReply(n) => self.retry_reset(n),
            Phase::Scan(_) => self.go(Phase::RestoreConfig),
            Phase::ScanReply(_) => self.go(Phase::RestoreConfig),
            Phase::RestoreConfig => self.go(Phase::Enable),
            Phase::RestoreConfigByte => self.go(Phase::Enable),
            Phase::Enable => self.go(Phase::Done),
            Phase::Done => {},
        }
    }

    /// Takes in the outcome of the access; `v` is what a read returned.
    pub fn observe(&mut self, v: u8)
        requires
            old(self).wf(),
        ensures
            final(self).wf(),
            *final(self) == old(self).after(v),
    {
        if self.phase == Phase::Done {
            return;
        }
        if !self.ready {
            let may: bool = match self.exec_move() {
                Move::Command(_) => v / 2 % 2 == 0,
                Move::Data(_) => v / 2 % 2 == 0,
                Move::Receive => v % 2 == 1,
                Move::Flush => v % 2 == 1,
            };
            if may {
                self.ready = true;
            } else if self.phase == Phase::Flush {
                self.succeed(0);
            } else if self.polls + 1 >= POLL_LIMIT {
                self.give_up();
            } else {
                self.polls = self.polls + 1;
            }
        } else if self.phase == Phase::Flush {
            if self.polls + 1 >= 16 {
                self.succeed(0);
            } else {
                self.polls = self.polls + 1;
                self.ready = false;
            }
        } else {
            self.succeed(v);
        }
    }

    /// What the bring-up found.
    pub fn report(&self) -> (r: Ps2InitReport)
        ensures
            r == (Ps2InitReport {
                controller_ok: self.controller_ok,
                device_ok: self.device_ok,
            }),
    {
        Ps2InitReport { controller_ok: self.controller_ok, device_ok: self.device_ok }
    }
}

/// Starts the bring-up.
pub fn init() -> (i: Init)
    ensures
        i.wf(),
        i == (Init {
            phase: Phase::Disable,
            polls: 0,
            ready: false,
            base: 0,
            controller_ok: false,
            port_ok: false,
            device_ok: false,
            scan_ok: false,
        }),
{
    Init {
        phase: Phase::Disable,
        polls: 0,
        ready: false,
        base: 0,
        controller_ok: false,
        port_ok: false,
        device_ok: false,
        scan_ok: false,
    }
}

/// The place of a phase in the bring-up; later phases have lower numbers.
pub open spec fn steps_left(p: Phase) -> int {
    match p {
        Phase::Disable => 40,
        Phase::Flush => 39,
        Phase::SelfTest => 38,
        Phase::SelfTestReply => 37,
        Phase::PortTest => 36,
        Phase::PortTestReply => 35,
        Phase::ReadConfig => 34,
        Phase::ReadConfigReply => 33,
        Phase::WriteConfig => 32,
        Phase::WriteConfigByte => 31,
        Phase::Reset(n) => 30 - 3 * n,
        Phase::ResetAck(n) => 29 - 3 * n,
        Phase::ResetReply(n) => 28 - 3 * n,
        Phase::Scan(n) => 20 - 2 * n,
        Phase::ScanReply(n) => 19 - 2 * n,
        Phase::RestoreConfig => 3,
        Phase::RestoreConfigByte => 2,
        Phase::Enable => 1,
        Phase::Done => 0,
    }
}

/// The attempts are within their bounds.
pub open spec fn in_bounds(p: Phase) -> bool {
    match p {
        Phase::Reset(n) => n <= 2,
        Phase::ResetAck(n) => n <= 2,
        Phase::ResetReply(n) => n <= 2,
        Phase::Scan(n) => n <= 3,
        Phase::ScanReply(n) => n <= 3,
        _ => true,
    }
}

/// No step hangs: whatever the controller answers, each access either moves
/// the bring-up to a later phase, or brings the present wait nearer to its
/// end, so the bring-up always finishes.
pub proof fn every_access_makes_progress(i: Init, v: u8)
    requires
        i.wf(),
        in_bounds(i.phase),
        i.phase != Phase::Done,
    ensures
        in_bounds(i.after(v).phase),
        steps_left(i.after(v).phase) < steps_left(i.phase) || (i.after(v).phase == i.phase && (
        i.after(v).polls > i.polls || (!i.ready && i.after(v).ready && i.after(v).polls
            == i.polls))),
{
}

/// While the device is tested, its controller raises no interrupts and does not
/// translate; afterwards the keyboard interrupt and the translation are on, and
/// the mouse and its interrupt are off. The other bits stay as they were read.
pub proof fn configurations_set_their_bits(base: u8)
    ensures
        quiet_config(base) & 0x17 == 0,
        quiet_config(base) & 0x08 != 0,
        quiet_config(base) & 0xE0 == base & 0xE0,
        final_config(base) & 0x11 == 0x11,
        final_config(base) & 0x0A == 0,
        final_config(base) & 0xE4 == base & 0xE4,
{
    assert(((base & 0xE8) | 0x08) & 0x17 == 0 && ((base & 0xE8) | 0x08) & 0x08 != 0 && ((base
        & 0xE8) | 0x08) & 0xE0 == base & 0xE0) by (bit_vector);
    assert(((base & 0xF5) | 0x11) & 0x11 == 0x11 && ((base & 0xF5) | 0x11) & 0x0A == 0 && ((base
        & 0xF5) | 0x11) & 0xE4 == base & 0xE4) by (bit_vector);
}

/// A command or a byte is written only where the input buffer is read as free,
/// and a byte is read only where the output buffer is read as full.
pub proof fn moves_wait_for_the_status(i: Init, status: u8)
    requires
        !i.ready,
        i.phase != Phase::Done,
    ensures
        i.after(status).ready ==> i.after(status).phase == i.phase && (
        i.after(status).access() is WriteCommand || i.after(status).access() is WriteData
            ==> status & 2 == 0) && (i.after(status).access() is ReadData ==> status & 1 != 0),
{
    assert(status / 2 % 2 == 0 <==> status & 2 == 0) by (bit_vector);
    assert(status % 2 == 1 <==> status & 1 != 0) by (bit_vector);
}

} // verus!
