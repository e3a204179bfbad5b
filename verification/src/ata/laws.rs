//! What a PIO command amounts to: what a disk reads out of its registers, and
//! when a transfer may be called a success.

use vstd::prelude::*;
use crate::ata::{
    bytes_of, described, identify_setup, model_of, sector_setup, words_of, AtaDevice, Command, Phase,
    PortWrite, Transfer,
};

verus! {

// ---------- registers ----------

/// The value that the writes leave in the register at `port`.
pub open spec fn register(w: Seq<PortWrite>, port: int, v: int) -> bool {
    exists|k: int|
        0 <= k < w.len() && (#[trigger] w[k]).port == port && w[k].value == v && forall|j: int|
            k < j < w.len() ==> (#[trigger] w[j]).port != port
}

/// The registers of a sector command hold the number of the sector, 28 bits of
/// it, a count of one, the unit and the addressing by sector numbers; the command
/// is written last.
pub proof fn setup_carries_the_sector(base: u16, master: bool, lba: u32, opcode: u8)
    requires
        base <= 0xFFF8,
        lba < 0x1000_0000,
    ensures
        ({
            let w = sector_setup(base, master, lba, opcode);
            &&& exists|a: int, b: int, c: int, d: int|
                #[trigger] register(w, base + 3, a) && #[trigger] register(w, base + 4, b)
                    && #[trigger] register(w, base + 5, c) && #[trigger] register(w, base + 6, d) && a
                    + 0x100 * b + 0x1_0000 * c + 0x100_0000 * (d % 16) == lba && d / 16 == (if master {
                    14int
                } else {
                    15int
                })
            &&& register(w, base + 2, 1)
            &&& w.last() == (PortWrite { port: (base + 7) as u16, value: opcode })
        }),
{
    let w = sector_setup(base, master, lba, opcode);
    let (a, b, c) = (lba as int % 0x100, lba as int / 0x100 % 0x100, lba as int / 0x1_0000 % 0x100);
    let d = w[0].value as int;
    assert(w[3].port == base + 3 && w[3].value == a);
    assert(w[2].port == base + 4 && w[2].value == b);
    assert(w[1].port == base + 5 && w[1].value == c);
    assert(w[0].port == base + 6);
    assert(w[4].port == base + 2 && w[4].value == 1);
    assert(register(w, base + 3, a) && register(w, base + 4, b) && register(w, base + 5, c));
    assert(register(w, base + 6, d));
    let x = lba as int;
    let p = x / 0x100;
    let q = p / 0x100;
    let r = q / 0x100;
    assert(q == x / 0x1_0000 && r == x / 0x100_0000);
    assert(r < 16);
    assert(d % 16 == r);
}

/// The registers of an identification select the unit and nothing else; the
/// command is written last.
pub proof fn identification_selects_the_unit(base: u16, master: bool)
    requires
        base <= 0xFFF8,
    ensures
        ({
            let w = identify_setup(base, master);
            &&& register(w, base + 6, if master {
                0xA0
            } else {
                0xB0
            })
            &&& forall|r: int| 1 <= r <= 5 ==> #[trigger] register(w, base + r, 0)
            &&& w.last() == (PortWrite { port: (base + 7) as u16, value: 0xEC })
        }),
{
    let w = identify_setup(base, master);
    assert(w[5].port == base + 6);
    assert forall|r: int| 1 <= r <= 5 implies #[trigger] register(w, base + r, 0) by {
        assert(w[r - 1].port == base + r && w[r - 1].value == 0);
    }
}

// ---------- data ----------

/// Each word carries two bytes, the first one in its low half.
pub proof fn words_are_low_byte_first(words: Seq<u16>, k: int)
    requires
        0 <= k < words.len(),
    ensures
        bytes_of(words).len() == 2 * words.len(),
        bytes_of(words)[2 * k] == words[k] & 0xFF,
        bytes_of(words)[2 * k + 1] == words[k] >> 8,
{
    let w = words[k];
    assert(w % 0x100 == w & 0xFF && w / 0x100 == w >> 8) by (bit_vector);
    assert((2 * k + 1) / 2 == k);
}

/// The words of a sector carry its bytes in the same way.
pub proof fn bytes_become_words(b: Seq<u8>, k: int)
    requires
        0 <= k < b.len() / 2,
    ensures
        words_of(b).len() == b.len() / 2,
        words_of(b)[k] & 0xFF == b[2 * k],
        words_of(b)[k] >> 8 == b[2 * k + 1],
{
    let w = words_of(b)[k];
    assert(w % 0x100 == w & 0xFF && w / 0x100 == w >> 8) by (bit_vector);
}

/// A device is described by the words of its identification: bit 9 of word 49,
/// the name with the high byte of each word first, and its capacity in units of
/// 2048 sectors.
pub proof fn description_follows_the_words(d: AtaDevice, words: Seq<u16>, sectors: u64, k: int)
    requires
        words.len() == 256,
        described(d, words, sectors),
        0 <= k < 20,
    ensures
        d.present,
        d.lba_supported == (words[49] & 0x200 != 0),
        d.sectors == sectors,
        2048 * d.capacity_mb <= sectors < 2048 * (d.capacity_mb + 1),
        d.model@[2 * k] == words[27 + k] >> 8,
        d.model@[2 * k + 1] == words[27 + k] & 0xFF,
{
    let (v, w) = (words[49], words[27 + k]);
    assert(v / 512 % 2 == 1 <==> v & 0x200 != 0) by (bit_vector);
    assert(w % 0x100 == w & 0xFF && w / 0x100 == w >> 8) by (bit_vector);
    assert((2 * k + 1) / 2 == k);
    assert(d.model@[2 * k] == model_of(words)[2 * k]);
    assert(d.model@[2 * k + 1] == model_of(words)[2 * k + 1]);
}

// ---------- a command ----------

/// What happens to a command: the status was read, or the data were moved.
pub enum Event {
    Status(u8, u64),
    Moved(u64),
}

/// The state `t` is `s` after the event. The data are moved when the command is
/// ready for it, and the status is read at any other time.
#[verifier::opaque]
pub open spec fn comes_after(s: Transfer, e: Event, t: Transfer) -> bool {
    match e {
        Event::Status(v, now) => s.phase != Phase::Data && t == s.after(v, now),
        Event::Moved(now) => s.phase == Phase::Data && t == s.to(
            if s.command == Command::Identify {
                Phase::Done(true)
            } else {
                Phase::Settle
            },
            now,
        ),
    }
}

/// A run of a command from its start on.
pub open spec fn is_transfer(states: Seq<Transfer>, evs: Seq<Event>, c: Command) -> bool {
    &&& states.len() == evs.len() + 1
    &&& states[0].command == c
    &&& states[0].phase == Phase::Busy
    &&& forall|k: int|
        0 <= k < evs.len() ==> comes_after(#[trigger] states[k], evs[k], states[k + 1])
}

/// The status was read before `n`, and in none of the bits `no` was set, and all
/// of the bits `yes` were.
pub open spec fn status_before(evs: Seq<Event>, from: int, n: int, yes: u8, no: u8) -> bool {
    exists|k: int|
        from <= k < n && ((#[trigger] evs[k]) matches Event::Status(v, _) && v & yes == yes && v
            & no == 0)
}

/// The data were moved at `k`, and never else before `n`.
pub open spec fn moved_once(evs: Seq<Event>, n: int, k: int) -> bool {
    &&& 0 <= k < n
    &&& evs[k] is Moved
    &&& forall|j: int| 0 <= j < n && j != k ==> !((#[trigger] evs[j]) is Moved)
}

proof fn status_bits(v: u8)
    ensures
        v >= 0x80 <==> v & 0x80 != 0,
        v % 2 == 1 <==> v & 1 != 0,
        v / 8 % 2 == 1 <==> v & 8 != 0,
        v & 8 != 0 <==> v & 8 == 8,
        v & 0 == 0,
{
    assert((v >= 0x80 <==> v & 0x80 != 0) && (v % 2 == 1 <==> v & 1 != 0) && (v / 8 % 2 == 1 <==> v
        & 8 != 0) && (v & 8 != 0 <==> v & 8 == 8) && v & 0 == 0) by (bit_vector);
}

proof fn kept_before(evs: Seq<Event>, from: int, n: int, yes: u8, no: u8)
    requires
        status_before(evs, from, n, yes, no),
    ensures
        status_before(evs, from, n + 1, yes, no),
{
    let k = choose|k: int|
        from <= k < n && ((#[trigger] evs[k]) matches Event::Status(v, _) && v & yes == yes && v
            & no == 0);
    assert(evs[k] is Status);
}

/// What is known of a command at `n`, where its data were moved at `m`, or not
/// yet.
spec fn known(s: Transfer, evs: Seq<Event>, n: int, m: int) -> bool {
    let before = forall|j: int| 0 <= j < n ==> !((#[trigger] evs[j]) is Moved);
    &&& s.phase == Phase::Busy || s.phase == Phase::Check || s.phase == Phase::Ready || s.phase
        == Phase::Data ==> before
    &&& s.phase == Phase::Check || s.phase == Phase::Ready || s.phase == Phase::Data
        ==> status_before(evs, 0, n, 0, 0x80)
    &&& s.command != Command::Write && (s.phase == Phase::Ready || s.phase == Phase::Data)
        ==> status_before(evs, 0, n, 0, 1)
    &&& s.phase == Phase::Data ==> status_before(evs, 0, n, 8, 0)
    &&& s.phase == Phase::Settle || s.phase == Phase::Outcome || s.phase == Phase::Done(true) ==> {
        &&& moved_once(evs, n, m)
        &&& status_before(evs, 0, m, 0, 0x80)
        &&& status_before(evs, 0, m, 8, 0)
        &&& s.command != Command::Write ==> status_before(evs, 0, m, 0, 1)
    }
    &&& s.phase == Phase::Settle || s.phase == Phase::Outcome ==> s.command != Command::Identify
    &&& s.phase == Phase::Outcome || (s.phase == Phase::Done(true) && s.command
        != Command::Identify) ==> status_before(evs, m, n, 0, 0x80)
    &&& s.phase == Phase::Done(true) && s.command == Command::Read ==> status_before(
        evs,
        m,
        n,
        0,
        1,
    )
    &&& s.phase == Phase::Done(true) && s.command == Command::Write ==> status_before(
        evs,
        m,
        n,
        0,
        9,
    )
}

#[verifier::spinoff_prover]
#[verifier::rlimit(60)]
proof fn known_at(states: Seq<Transfer>, evs: Seq<Event>, c: Command, n: int) -> (m: int)
    requires
        is_transfer(states, evs, c),
        0 <= n < states.len(),
    ensures
        states[n].command == c,
        known(states[n], evs, n, m),
    decreases n,
{
    if n == 0 {
        0
    } else {
        let p = n - 1;
        let m = known_at(states, evs, c, p);
        assert(comes_after(states[p], evs[p], states[p + 1]));
        let (s, t) = (states[p], states[n]);
        assert(known_step(s, t, evs, p, m)) by {
            reveal(comes_after);
            match evs[p] {
                Event::Status(v, now) => {
                    status_bits(v);
                    assert(v & 9 == 0 <==> v & 8 == 0 && v & 1 == 0) by (bit_vector);
                },
                Event::Moved(now) => {},
            }
        }
        step_is_known(s, t, evs, p, m)
    }
}

/// How the phase may change with event `p`.
spec fn known_step(s: Transfer, t: Transfer, evs: Seq<Event>, p: int, m: int) -> bool {
    &&& t.command == s.command
    &&& evs[p] is Moved ==> s.phase == Phase::Data && t.phase == (if s.command
        == Command::Identify {
        Phase::Done(true)
    } else {
        Phase::Settle
    })
    &&& evs[p] matches Event::Status(v, _) ==> {
        &&& s.phase != Phase::Data
        &&& t.phase == s.phase || t.phase == Phase::Done(false) || {
            ||| s.phase == Phase::Busy && v & 0x80 == 0 && t.phase == (if s.command
                == Command::Write {
                Phase::Ready
            } else {
                Phase::Check
            })
            ||| s.phase == Phase::Check && v & 1 == 0 && t.phase == Phase::Ready
            ||| s.phase == Phase::Ready && v & 8 == 8 && t.phase == Phase::Data
            ||| s.phase == Phase::Settle && v & 0x80 == 0 && t.phase == Phase::Outcome
            ||| s.phase == Phase::Outcome && v & 1 == 0 && (s.command == Command::Write ==> v & 9
                == 0) && t.phase == Phase::Done(true)
        }
        &&& v & 0 == 0
    }
}

#[verifier::spinoff_prover]
#[verifier::rlimit(60)]
proof fn step_is_known(s: Transfer, t: Transfer, evs: Seq<Event>, p: int, m: int) -> (q: int)
    requires
        0 <= p < evs.len(),
        known(s, evs, p, m),
        known_step(s, t, evs, p, m),
    ensures
        known(t, evs, p + 1, q),
{
    let q = if evs[p] is Moved {
        p
    } else {
        m
    };
    if status_before(evs, 0, p, 0, 0x80) {
        kept_before(evs, 0, p, 0, 0x80);
    }
    if status_before(evs, 0, p, 0, 1) {
        kept_before(evs, 0, p, 0, 1);
    }
    if status_before(evs, 0, p, 8, 0) {
        kept_before(evs, 0, p, 8, 0);
    }
    if status_before(evs, m, p, 0, 0x80) {
        kept_before(evs, m, p, 0, 0x80);
    }
    if status_before(evs, m, p, 0, 1) {
        kept_before(evs, m, p, 0, 1);
    }
    if status_before(evs, m, p, 0, 9) {
        kept_before(evs, m, p, 0, 9);
    }
    assert(0u8 & 0 == 0) by (bit_vector);
    if let Event::Status(v, now) = evs[p] {
        assert(v & 0 == 0);
    }
    q
}

/// A read, a write or an identification that ends well has moved its data once:
/// the disk was not busy before that, reported no error (but for a write) and
/// asked for the data. Behind the data of a read or a write the disk was not busy
/// and reported no error, and behind those of a write it did not ask for more.
pub proof fn success_follows_the_status(states: Seq<Transfer>, evs: Seq<Event>, c: Command)
    requires
        is_transfer(states, evs, c),
        states.last().phase == Phase::Done(true),
    ensures
        exists|m: int| #[trigger]
            moved_once(evs, evs.len() as int, m) && status_before(evs, 0, m, 0, 0x80)
                && status_before(evs, 0, m, 8, 0) && (c != Command::Write ==> status_before(
                evs,
                0,
                m,
                0,
                1,
            )) && (c != Command::Identify ==> status_before(evs, m, evs.len() as int, 0, 0x80)) && (c
                == Command::Read ==> status_before(evs, m, evs.len() as int, 0, 1)) && (c
                == Command::Write ==> status_before(evs, m, evs.len() as int, 0, 9)),
{
    let n = states.len() - 1;
    let m = known_at(states, evs, c, n);
    assert(moved_once(evs, n, m));
}

/// A wait lasts 3000 ticks: it starts when its phase is entered, and a phase that
/// waits is left once that time is over.
pub proof fn waits_come_to_an_end(t: Transfer, status: u8, now: u64)
    requires
        t.phase == Phase::Busy || t.phase == Phase::Ready || t.phase == Phase::Settle,
    ensures
        now >= t.deadline ==> t.after(status, now).phase != t.phase,
        t.after(status, now).phase == t.phase ==> t.after(status, now) == t,
        t.after(status, now).phase != t.phase ==> t.after(status, now).deadline == (if now + 3000
            > u64::MAX {
            u64::MAX as int
        } else {
            now + 3000
        }),
{
}

} // verus!
