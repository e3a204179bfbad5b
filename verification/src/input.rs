//! The console input: characters from the serial port and from the keyboard.

use vstd::prelude::*;
use crate::keyboard;
use crate::keyboard::{Decoder, Key, Keyboard};
use crate::ring::Ring;
use crate::settings::KbdLayout;

verus! {

pub const SERIAL_CAP: usize = 256;

/// The input of the console.
pub struct Input {
    /// The bytes that came over the serial line.
    pub serial: Ring,
    pub keyboard: Keyboard,
}

#[verifier::ext_equal]
pub struct InputView {
    pub serial: Seq<u8>,
    pub raw: Seq<u8>,
    pub decoder: Decoder,
}

impl Input {
    pub open spec fn wf(&self) -> bool {
        self.serial.wf() && self.serial.buf@.len() == SERIAL_CAP && self.keyboard.wf()
    }

    pub open spec fn seen(&self) -> InputView {
        InputView {
            serial: self.serial.queued(),
            raw: self.keyboard.raw.queued(),
            decoder: self.keyboard.decoder,
        }
    }

    pub fn new() -> (i: Input)
        ensures
            i.wf(),
            i.seen() == (InputView {
                serial: Seq::empty(),
                raw: Seq::empty(),
                decoder: keyboard::fresh(KbdLayout::TurkishQ),
            }),
    {
        Input { serial: Ring::new(SERIAL_CAP), keyboard: Keyboard::new() }
    }
}

/// The character that a byte of the serial line stands for. Serial input is
/// ASCII: carriage return and line feed are a new line, backspace and Ctrl-C
/// stand for themselves, other bytes outside the printable ones for nothing.
pub open spec fn serial_char(b: u8) -> Option<char> {
    if b == 0x0D || b == 0x0A {
        Some('\n')
    } else if b == 0x08 {
        Some('\u{8}')
    } else if b == 0x03 {
        Some('\u{3}')
    } else if 0x20 <= b <= 0x7E {
        Some(b as char)
    } else {
        None
    }
}

fn char_of(b: u8) -> (r: Option<char>)
    ensures
        r == serial_char(b),
{
    if b == 0x0D || b == 0x0A {
        Some('\n')
    } else if b == 0x08 {
        Some('\u{8}')
    } else if b == 0x03 {
        Some('\u{3}')
    } else if 0x20 <= b && b <= 0x7E {
        Some(b as char)
    } else {
        None
    }
}

/// The bytes in the serial ring, and those left in the receiver, after the ring
/// took over what the receiver `rx` held: the first byte that finds the ring
/// full is lost, and those behind it stay in the receiver.
pub open spec fn received(q: Seq<u8>, rx: Seq<u8>) -> (Seq<u8>, Seq<u8>) {
    let room = SERIAL_CAP - 1 - q.len();
    if rx.len() <= room {
        (q + rx, Seq::empty())
    } else {
        (q + rx.take(room), rx.skip(room + 1))
    }
}

/// Called from the serial interrupt: takes over what the receiver holds.
pub fn serial_irq(i: &mut Input, rx: &mut Vec<u8>)
    requires
        old(i).wf(),
    ensures
        final(i).wf(),
        final(i).keyboard == old(i).keyboard,
        (final(i).serial.queued(), final(rx)@) == received(old(i).serial.queued(), old(rx)@),
{
    let ghost q = i.serial.queued();
    let ghost all = rx@;
    let ghost mut k: int = 0;
    assert(q + all.take(0) =~= q);
    assert(all.skip(0) =~= all);
    while rx.len() > 0
        invariant
            0 <= k <= all.len(),
            i.wf(),
            i.keyboard == old(i).keyboard,
            q == old(i).serial.queued(),
            all == old(rx)@,
            rx@ == all.skip(k),
            i.serial.queued() == q + all.take(k),
        decreases rx@.len(),
    {
        let b: u8 = rx.remove(0);
        assert(b == all[k]);
        assert(rx@ =~= all.skip(k + 1));
        if !i.serial.push(b) {
            assert((i.serial.queued(), rx@) == received(q, all));
            return;
        }
        proof {
            assert(all.take(k + 1) =~= all.take(k).push(all[k]));
            assert(i.serial.queued() =~= q + all.take(k + 1));
            k = k + 1;
        }
    }
    assert(all.take(k) =~= all);
    assert(rx@ =~= Seq::empty());
}

/// One look at the serial ring: a byte is taken, and may stand for no
/// character.
pub open spec fn serial_polled(q: Seq<u8>) -> (Seq<u8>, Option<char>) {
    if q.len() == 0 {
        (q, None)
    } else {
        (q.skip(1), serial_char(q[0]))
    }
}

fn poll_serial_char(i: &mut Input) -> (r: Option<char>)
    requires
        old(i).wf(),
    ensures
        final(i).wf(),
        final(i).keyboard == old(i).keyboard,
        (final(i).serial.queued(), r) == serial_polled(old(i).serial.queued()),
{
    match i.serial.pop() {
        None => None,
        Some(b) => char_of(b),
    }
}

fn poll_keyboard_char(i: &mut Input, want: KbdLayout) -> (r: Option<char>)
    requires
        old(i).wf(),
    ensures
        final(i).wf(),
        final(i).serial == old(i).serial,
        ({
            let (d, raw, key) = keyboard::one_decoded(
                old(i).keyboard.decoder,
                old(i).keyboard.raw.queued(),
                want,
            );
            &&& final(i).keyboard.decoder == d
            &&& final(i).keyboard.raw.queued() == raw
            &&& r == (match key {
                Some(Key::Unicode(c)) => Some(c),
                _ => None,
            })
        }),
{
    match keyboard::decode_one(&mut i.keyboard, want) {
        Some(Key::Unicode(c)) => Some(c),
        _ => None,
    }
}

/// One attempt to read a character: from the serial ring, else from the ring
/// once it took over what the receiver `rx` held, else from the keyboard. The
/// second part of the answer is what is left in the receiver.
pub open spec fn attempt(s: InputView, rx: Seq<u8>, want: KbdLayout) -> (
    InputView,
    Seq<u8>,
    Option<char>,
) {
    let (q1, c1) = serial_polled(s.serial);
    if c1 is Some {
        (InputView { serial: q1, ..s }, rx, c1)
    } else {
        let (q, left) = received(q1, rx);
        let (q2, c2) = serial_polled(q);
        if c2 is Some {
            (InputView { serial: q2, ..s }, left, c2)
        } else {
            let (d, raw, key) = keyboard::one_decoded(s.decoder, s.raw, want);
            (
                InputView { serial: q2, raw, decoder: d },
                left,
                match key {
                    Some(Key::Unicode(c)) => Some(c),
                    _ => None,
                },
            )
        }
    }
}

/// Tries to read a character; `rx` is what the receiver holds. The caller waits
/// for an interrupt and tries again when there is no answer.
pub fn read_char(i: &mut Input, rx: &mut Vec<u8>, want: KbdLayout) -> (r: Option<char>)
    requires
        old(i).wf(),
    ensures
        final(i).wf(),
        (final(i).seen(), final(rx)@, r) == attempt(old(i).seen(), old(rx)@, want),
{
    let c = poll_serial_char(i);
    if c.is_some() {
        return c;
    }
    serial_irq(i, rx);
    let c2 = poll_serial_char(i);
    if c2.is_some() {
        return c2;
    }
    poll_keyboard_char(i, want)
}

// ---------- laws ----------

/// The ring takes the bytes over in their order: what it held, what it took, at
/// most one byte that is lost, and what is left in the receiver are all that
/// came. A byte is lost only where the ring is full.
pub proof fn bytes_keep_their_order(q: Seq<u8>, rx: Seq<u8>)
    requires
        q.len() <= 255,
    ensures
        ({
            let (r, left) = received(q, rx);
            &&& r.len() <= 255
            &&& r.take(q.len() as int) == q
            &&& r.len() + left.len() == q.len() + rx.len() ==> r + left == q + rx && left.len() == 0
            &&& r.len() + left.len() != q.len() + rx.len() ==> r.len() == 255 && exists|b: u8|
                #[trigger] r.push(b) + left == q + rx
        }),
{
    let (r, left) = received(q, rx);
    let room = 255 - q.len();
    assert(r.take(q.len() as int) =~= q);
    if rx.len() <= room {
        assert(r + left =~= q + rx);
    } else {
        assert(r.push(rx[room]) + left =~= q + rx);
    }
}

/// A byte of the serial line stands for the same character where it is
/// printable; both ends of lines stand for one.
pub proof fn serial_bytes_are_ascii(b: u8)
    ensures
        0x20 <= b < 0x7F ==> (serial_char(b) matches Some(c) && c as int == b),
        b == 13 || b == 10 ==> serial_char(b) == Some('\n'),
        b == 8 || b == 3 ==> (serial_char(b) matches Some(c) && c as int == b),
        b >= 0x7F || (b < 0x20 && b != 13 && b != 10 && b != 8 && b != 3) ==> serial_char(b) is None,
{
}

/// What came over the serial line is read before any key, and keys stay until
/// then.
pub proof fn serial_line_comes_first(s: InputView, rx: Seq<u8>, want: KbdLayout)
    requires
        s.serial.len() > 0,
        0x20 <= s.serial[0] < 0x7F,
    ensures
        ({
            let (t, left, c) = attempt(s, rx, want);
            &&& c is Some && c->0 as int == s.serial[0]
            &&& t == (InputView { serial: s.serial.skip(1), ..s })
            &&& left == rx
        }),
{
}

} // verus!
