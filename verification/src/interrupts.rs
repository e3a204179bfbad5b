//! Interrupts and the clock.

use vstd::prelude::*;
use crate::text;
use crate::text::{chars_of, push_hex, push_str};
use crate::tty::{line, nothing, outs, put_line, put_str, Out, OutView};

verus! {

pub const PIC_1_OFFSET: u8 = 32;

pub const PIC_2_OFFSET: u8 = 40;

/// The interrupts that the kernel handles itself.
#[derive(Clone, Copy, PartialEq, Eq, Debug, Structural)]
pub enum InterruptIndex {
    Timer,
    Keyboard,
}

impl InterruptIndex {
    /// The vector of the interrupt.
    pub fn as_u8(self) -> (v: u8)
        ensures
            v == (match self {
                InterruptIndex::Timer => PIC_1_OFFSET,
                InterruptIndex::Keyboard => (PIC_1_OFFSET + 1) as u8,
            }),
    {
        match self {
            InterruptIndex::Timer => PIC_1_OFFSET,
            InterruptIndex::Keyboard => PIC_1_OFFSET + 1,
        }
    }
}

/// The clock: milliseconds since it was started.
pub struct Clock {
    pub now: u64,
}

impl Clock {
    pub fn new() -> (c: Clock)
        ensures
            c.now == 0,
    {
        Clock { now: 0 }
    }

    /// Called from the timer interrupt.
    pub fn tick(&mut self)
        ensures
            final(self).now == old(self).now.wrapping_add(1),
    {
        self.now = self.now.wrapping_add(1);
    }
}

pub fn ticks(c: &Clock) -> (n: u64)
    ensures
        n == c.now,
{
    c.now
}

/// The time stamp, from its two halves.
pub fn rdtsc(hi: u32, lo: u32) -> (t: u64)
    ensures
        t == 0x1_0000_0000 * hi + lo,
{
    0x1_0000_0000 * (hi as u64) + lo as u64
}

/// The time stamp counter ran between two readings.
pub fn calibrate_smoke(t0: u64, t1: u64) -> (ok: bool)
    ensures
        ok == (t0 != t1),
{
    t1.wrapping_sub(t0) > 0
}

/// The ticks from `start` to `now`, across a wrap of the counter.
pub open spec fn elapsed(start: u64, now: u64) -> int {
    if now >= start {
        now - start
    } else {
        now - start + u64::MAX + 1
    }
}

/// A wait of `n` ticks that began at `start` is over.
pub fn slept(start: u64, now: u64, n: u64) -> (over: bool)
    ensures
        over == (elapsed(start, now) >= n),
{
    now.wrapping_sub(start) >= n
}

/// The tick at which a wait of `ms` milliseconds ends: at least one tick.
pub fn sleep_ms(c: &Clock, ms: u64) -> (target: u64)
    ensures
        target == ({
            let t = c.now + if ms == 0 {
                1
            } else {
                ms as int
            };
            if t > u64::MAX {
                u64::MAX
            } else {
                t as u64
            }
        }),
{
    c.now.saturating_add(
        if ms == 0 {
            1
        } else {
            ms
        },
    )
}

/// The frequency at which the timer counts down, in hertz.
pub const PIT_HZ: u32 = 1_193_182;

/// The ticks in a second.
pub const TICKS_PER_SECOND: u32 = 1000;

/// What the timer counts down from between two ticks.
pub open spec fn pit_divisor() -> int {
    PIT_HZ as int / TICKS_PER_SECOND as int
}

/// The port writes that make the timer count down from `divisor` again and
/// again, low byte first.
pub open spec fn pit_writes(divisor: int) -> Seq<(u16, u8)> {
    seq![
        (0x43u16, 0x34u8),
        (0x40u16, (divisor % 256) as u8),
        (0x40u16, (divisor / 256) as u8),
    ]
}

/// A tick is a millisecond: a second holds a thousand of them, with less than
/// a thousandth of the second left over.
pub proof fn ticks_are_milliseconds()
    ensures
        0 < pit_divisor() < 0x1_0000,
        PIT_HZ - TICKS_PER_SECOND < pit_divisor() * TICKS_PER_SECOND <= PIT_HZ,
{
}

/// Starts the clock anew: the port writes that program the timer.
pub fn rearm(c: &mut Clock) -> (w: Vec<(u16, u8)>)
    ensures
        final(c).now == 0,
        w@ == pit_writes(pit_divisor()),
{
    c.now = 0;
    let divisor: u32 = PIT_HZ / TICKS_PER_SECOND;
    let mut w: Vec<(u16, u8)> = Vec::new();
    w.push((0x43, 0x34));
    w.push((0x40, (divisor % 256) as u8));
    w.push((0x40, (divisor / 256) as u8));
    assert(w@ =~= pit_writes(pit_divisor()));
    w
}

pub open spec fn rule() -> Seq<char> {
    "=================================================="@
}

/// The report of an exception.
pub open spec fn exception_text(name: Seq<char>, rip: u64, cs: u16, rsp: u64) -> Seq<OutView> {
    seq![
        line(""@),
        line(rule()),
        line("  !!! SOLAROS EXCEPTION !!!"@),
        line("  "@ + name),
        line("  RIP: 0x"@ + text::hex(rip as nat, 0)),
        line("  CS : 0x"@ + text::hex(cs as nat, 0)),
        line("  RSP: 0x"@ + text::hex(rsp as nat, 0)),
        line("  System halted."@),
        line(rule()),
    ]
}

fn put_register(v: &mut Vec<Out>, name: &str, value: u64)
    ensures
        outs(final(v)@) == outs(old(v)@).push(line(name@ + text::hex(value as nat, 0))),
{
    let mut l = chars_of(name);
    push_hex(&mut l, value, 0);
    put_line(v, l);
}

pub fn exception(name: &str, rip: u64, cs: u16, rsp: u64) -> (v: Vec<Out>)
    ensures
        outs(v@) == exception_text(name@, rip, cs, rsp),
{
    let mut v = nothing();
    put_str(&mut v, "");
    put_str(&mut v, "==================================================");
    put_str(&mut v, "  !!! SOLAROS EXCEPTION !!!");
    let mut n = chars_of("  ");
    push_str(&mut n, name);
    put_line(&mut v, n);
    put_register(&mut v, "  RIP: 0x", rip);
    put_register(&mut v, "  CS : 0x", cs as u64);
    put_register(&mut v, "  RSP: 0x", rsp);
    put_str(&mut v, "  System halted.");
    put_str(&mut v, "==================================================");
    assert(outs(v@) =~= exception_text(name@, rip, cs, rsp));
    v
}

} // verus!
