//! The keyboard: scan codes, modifiers and layouts.
//!
//! A key is a number: its place in the list of key codes of the `pc_keyboard`
//! crate, which turns scan codes into keys and holds the US layout.

use vstd::prelude::*;
use pc_keyboard::layouts::Us104Key;
use pc_keyboard::{DecodedKey, HandleControl, KeyState, KeyboardLayout, Modifiers};
use pc_keyboard::{ScancodeSet, ScancodeSet1};
use crate::ring::Ring;
use crate::settings::KbdLayout;

verus! {

pub const RAW_CAP: usize = 512;

pub const KEY_CAPS_LOCK: u8 = 60;

pub const KEY_NUM_LOCK: u8 = 34;

pub const KEY_PAUSE: u8 = 16;

pub const KEY_LSHIFT: u8 = 76;

pub const KEY_RSHIFT: u8 = 87;

pub const KEY_LCTRL: u8 = 93;

pub const KEY_RCTRL: u8 = 100;

pub const KEY_LALT: u8 = 95;

pub const KEY_RALT: u8 = 97;

pub const KEY_RCTRL2: u8 = 122;

/// A decoded key: a character, or the number of a key that has none.
#[derive(Clone, Copy, PartialEq, Eq, Debug, Structural)]
pub enum Key {
    Unicode(char),
    Raw(u8),
}

/// The modifier keys.
#[derive(Clone, Copy, PartialEq, Eq, Debug, Structural)]
pub struct Mods {
    pub lshift: bool,
    pub rshift: bool,
    pub lctrl: bool,
    pub rctrl: bool,
    pub numlock: bool,
    pub capslock: bool,
    pub lalt: bool,
    pub ralt: bool,
    pub rctrl2: bool,
}

impl Mods {
    pub open spec fn shifted(self) -> bool {
        self.lshift || self.rshift
    }

    pub open spec fn ctrl(self) -> bool {
        self.lctrl || self.rctrl
    }

    /// The modifier of the key is on.
    pub open spec fn on(self, code: u8) -> bool {
        if code == KEY_LSHIFT {
            self.lshift
        } else if code == KEY_RSHIFT {
            self.rshift
        } else if code == KEY_LCTRL {
            self.lctrl
        } else if code == KEY_RCTRL {
            self.rctrl
        } else if code == KEY_LALT {
            self.lalt
        } else if code == KEY_RALT {
            self.ralt
        } else if code == KEY_RCTRL2 {
            self.rctrl2
        } else if code == KEY_CAPS_LOCK {
            self.capslock
        } else if code == KEY_NUM_LOCK {
            self.numlock
        } else {
            false
        }
    }

    /// The modifiers with that of the key set to `v`.
    pub open spec fn with(self, code: u8, v: bool) -> Mods {
        if code == KEY_LSHIFT {
            Mods { lshift: v, ..self }
        } else if code == KEY_RSHIFT {
            Mods { rshift: v, ..self }
        } else if code == KEY_LCTRL {
            Mods { lctrl: v, ..self }
        } else if code == KEY_RCTRL {
            Mods { rctrl: v, ..self }
        } else if code == KEY_LALT {
            Mods { lalt: v, ..self }
        } else if code == KEY_RALT {
            Mods { ralt: v, ..self }
        } else if code == KEY_RCTRL2 {
            Mods { rctrl2: v, ..self }
        } else if code == KEY_CAPS_LOCK {
            Mods { capslock: v, ..self }
        } else if code == KEY_NUM_LOCK {
            Mods { numlock: v, ..self }
        } else {
            self
        }
    }

    /// Letters come out as capitals.
    pub open spec fn caps(self) -> bool {
        self.shifted() != self.capslock
    }

    fn is_shifted(&self) -> (r: bool)
        ensures
            r == self.shifted(),
    {
        self.lshift || self.rshift
    }

    fn is_ctrl(&self) -> (r: bool)
        ensures
            r == self.ctrl(),
    {
        self.lctrl || self.rctrl
    }

    fn is_caps(&self) -> (r: bool)
        ensures
            r == self.caps(),
    {
        self.is_shifted() != self.capslock
    }
}

/// Before any key is pressed: Num Lock is on.
pub open spec fn no_mods() -> Mods {
    Mods {
        lshift: false,
        rshift: false,
        lctrl: false,
        rctrl: false,
        numlock: true,
        capslock: false,
        lalt: false,
        ralt: false,
        rctrl2: false,
    }
}

// ---------- the Turkish Q layout ----------

pub open spec fn by_shift(plain: char, shifted: char, m: Mods) -> Key {
    if m.shifted() {
        Key::Unicode(shifted)
    } else {
        Key::Unicode(plain)
    }
}

pub open spec fn by_caps(lower: char, upper: char, m: Mods) -> Key {
    if m.caps() {
        Key::Unicode(upper)
    } else {
        Key::Unicode(lower)
    }
}

/// What the Turkish Q layout makes of a key.
pub open spec fn turkish(code: u8, m: Mods) -> Key {
    match code {
        // Escape
        0 => Key::Unicode('\u{1b}'),
        // Key1
        18 => by_shift('1', '!', m),
        // Key2
        19 => by_shift('2', '\'', m),
        // Key3
        20 => by_shift('3', '^', m),
        // Key4
        21 => by_shift('4', '+', m),
        // Key5
        22 => by_shift('5', '%', m),
        // Key6
        23 => by_shift('6', '&', m),
        // Key7
        24 => by_shift('7', '/', m),
        // Key8
        25 => by_shift('8', '(', m),
        // Key9
        26 => by_shift('9', ')', m),
        // Key0
        27 => by_shift('0', '=', m),
        // OemMinus
        28 => by_shift('*', '?', m),
        // OemPlus
        29 => by_shift('-', '_', m),
        // Oem8
        17 => by_shift('"', 'é', m),
        // Backspace
        30 => Key::Unicode('\u{8}'),
        // Tab
        38 => Key::Unicode('\u{9}'),
        // Q
        39 => by_caps('q', 'Q', m),
        // W
        40 => by_caps('w', 'W', m),
        // E
        41 => by_caps('e', 'E', m),
        // R
        42 => by_caps('r', 'R', m),
        // T
        43 => by_caps('t', 'T', m),
        // Y
        44 => by_caps('y', 'Y', m),
        // U
        45 => by_caps('u', 'U', m),
        // I
        46 => by_caps('ı', 'İ', m),
        // O
        47 => by_caps('o', 'O', m),
        // P
        48 => by_caps('p', 'P', m),
        // Oem4
        49 => by_shift('ğ', 'Ğ', m),
        // Oem6
        50 => by_shift('ü', 'Ü', m),
        // A
        61 => by_caps('a', 'A', m),
        // S
        62 => by_caps('s', 'S', m),
        // D
        63 => by_caps('d', 'D', m),
        // F
        64 => by_caps('f', 'F', m),
        // G
        65 => by_caps('g', 'G', m),
        // H
        66 => by_caps('h', 'H', m),
        // J
        67 => by_caps('j', 'J', m),
        // K
        68 => by_caps('k', 'K', m),
        // L
        69 => by_caps('l', 'L', m),
        // Oem1
        70 => by_shift('ş', 'Ş', m),
        // Oem3
        71 => by_caps('i', 'İ', m),
        // Return
        72 => Key::Unicode('\u{a}'),
        // Z
        77 => by_caps('z', 'Z', m),
        // X
        78 => by_caps('x', 'X', m),
        // C
        79 => if m.ctrl() {
            Key::Unicode('\u{3}')
        } else {
            by_caps('c', 'C', m)
        },
        // V
        80 => by_caps('v', 'V', m),
        // B
        81 => by_caps('b', 'B', m),
        // N
        82 => by_caps('n', 'N', m),
        // M
        83 => by_caps('m', 'M', m),
        // OemComma
        84 => by_shift('ö', 'Ö', m),
        // OemPeriod
        85 => by_shift('ç', 'Ç', m),
        // Oem2
        86 => by_shift('.', ':', m),
        // Oem7
        52 => by_shift(',', ';', m),
        // Oem5
        51 => by_shift('<', '>', m),
        // Spacebar
        96 => Key::Unicode(' '),
        // Delete
        53 => Key::Unicode('\u{7f}'),
        // NumpadDivide
        35 => Key::Unicode('/'),
        // NumpadMultiply
        36 => Key::Unicode('*'),
        // NumpadSubtract
        37 => Key::Unicode('-'),
        // NumpadAdd
        59 => Key::Unicode('+'),
        // NumpadEnter
        92 => Key::Unicode('\u{a}'),
        _ => Key::Raw(code),
    }
}

/// The Turkish Q layout.
pub struct TurkishQ;

impl TurkishQ {
    fn map2(plain: char, shifted: char, m: &Mods) -> (k: Key)
        ensures
            k == by_shift(plain, shifted, *m),
    {
        if m.is_shifted() {
            Key::Unicode(shifted)
        } else {
            Key::Unicode(plain)
        }
    }

    fn letter(lower: char, upper: char, m: &Mods) -> (k: Key)
        ensures
            k == by_caps(lower, upper, *m),
    {
        if m.is_caps() {
            Key::Unicode(upper)
        } else {
            Key::Unicode(lower)
        }
    }

    fn tr_i(plain: char, m: &Mods) -> (k: Key)
        ensures
            k == by_caps(plain, 'İ', *m),
    {
        TurkishQ::letter(plain, 'İ', m)
    }

    pub fn map_keycode(code: u8, m: &Mods) -> (k: Key)
        ensures
            k == turkish(code, *m),
    {
        match code {
            // Escape
            0 => Key::Unicode('\u{1b}'),
            // Key1
            18 => TurkishQ::map2('1', '!', m),
            // Key2
            19 => TurkishQ::map2('2', '\'', m),
            // Key3
            20 => TurkishQ::map2('3', '^', m),
            // Key4
            21 => TurkishQ::map2('4', '+', m),
            // Key5
            22 => TurkishQ::map2('5', '%', m),
            // Key6
            23 => TurkishQ::map2('6', '&', m),
            // Key7
            24 => TurkishQ::map2('7', '/', m),
            // Key8
            25 => TurkishQ::map2('8', '(', m),
            // Key9
            26 => TurkishQ::map2('9', ')', m),
            // Key0
            27 => TurkishQ::map2('0', '=', m),
            // OemMinus
            28 => TurkishQ::map2('*', '?', m),
            // OemPlus
            29 => TurkishQ::map2('-', '_', m),
            // Oem8
            17 => TurkishQ::map2('"', 'é', m),
            // Backspace
            30 => Key::Unicode('\u{8}'),
            // Tab
            38 => Key::Unicode('\u{9}'),
            // Q
            39 => TurkishQ::letter('q', 'Q', m),
            // W
            40 => TurkishQ::letter('w', 'W', m),
            // E
            41 => TurkishQ::letter('e', 'E', m),
            // R
            42 => TurkishQ::letter('r', 'R', m),
            // T
            43 => TurkishQ::letter('t', 'T', m),
            // Y
            44 => TurkishQ::letter('y', 'Y', m),
            // U
            45 => TurkishQ::letter('u', 'U', m),
            // I
            46 => TurkishQ::tr_i('ı', m),
            // O
            47 => TurkishQ::letter('o', 'O', m),
            // P
            48 => TurkishQ::letter('p', 'P', m),
            // Oem4
            49 => TurkishQ::map2('ğ', 'Ğ', m),
            // Oem6
            50 => TurkishQ::map2('ü', 'Ü', m),
            // A
            61 => TurkishQ::letter('a', 'A', m),
            // S
            62 => TurkishQ::letter('s', 'S', m),
            // D
            63 => TurkishQ::letter('d', 'D', m),
            // F
            64 => TurkishQ::letter('f', 'F', m),
            // G
            65 => TurkishQ::letter('g', 'G', m),
            // H
            66 => TurkishQ::letter('h', 'H', m),
            // J
            67 => TurkishQ::letter('j', 'J', m),
            // K
            68 => TurkishQ::letter('k', 'K', m),
            // L
            69 => TurkishQ::letter('l', 'L', m),
            // Oem1
            70 => TurkishQ::map2('ş', 'Ş', m),
            // Oem3
            71 => TurkishQ::tr_i('i', m),
            // Return
            72 => Key::Unicode('\u{a}'),
            // Z
            77 => TurkishQ::letter('z', 'Z', m),
            // X
            78 => TurkishQ::letter('x', 'X', m),
            // C
            79 => if m.is_ctrl() {
                Key::Unicode('\u{3}')
            } else {
                TurkishQ::letter('c', 'C', m)
            },
            // V
            80 => TurkishQ::letter('v', 'V', m),
            // B
            81 => TurkishQ::letter('b', 'B', m),
            // N
            82 => TurkishQ::letter('n', 'N', m),
            // M
            83 => TurkishQ::letter('m', 'M', m),
            // OemComma
            84 => TurkishQ::map2('ö', 'Ö', m),
            // OemPeriod
            85 => TurkishQ::map2('ç', 'Ç', m),
            // Oem2
            86 => TurkishQ::map2('.', ':', m),
            // Oem7
            52 => TurkishQ::map2(',', ';', m),
            // Oem5
            51 => TurkishQ::map2('<', '>', m),
            // Spacebar
            96 => Key::Unicode(' '),
            // Delete
            53 => Key::Unicode('\u{7f}'),
            // NumpadDivide
            35 => Key::Unicode('/'),
            // NumpadMultiply
            36 => Key::Unicode('*'),
            // NumpadSubtract
            37 => Key::Unicode('-'),
            // NumpadAdd
            59 => Key::Unicode('+'),
            // NumpadEnter
            92 => Key::Unicode('\u{a}'),
            _ => Key::Raw(code),
        }
    }
}

// ---------- scan codes ----------

/// A key was pressed or released.
#[derive(Clone, Copy, PartialEq, Eq, Debug, Structural)]
pub struct Event {
    pub code: u8,
    pub down: bool,
}

/// What `ScancodeSet1` makes of a byte that follows the given prefix byte:
/// an event, nothing yet, or no known key.
pub uninterp spec fn scan_of(prefix: Option<u8>, byte: u8) -> Result<Option<Event>, ()>;

/// What `Us104Key` makes of the key with this number under the modifiers.
pub uninterp spec fn us_key_of(code: u8, m: Mods) -> Key;

/// What `Us104Key` makes of what was scanned: nothing where that is no event.
pub open spec fn us_mapped(scanned: Result<Option<Event>, ()>, m: Mods) -> Option<Key> {
    match scanned {
        Ok(Some(e)) => Some(us_key_of(e.code, m)),
        _ => None,
    }
}

/// Wraps `ScancodeSet1::advance_state`: a fresh decoder takes the prefix, if
/// there is one, and then the byte. The answer is what the second step
/// returns, with the key as its number.
#[verifier::external_body]
fn scan(prefix: Option<u8>, byte: u8) -> (r: Result<Option<Event>, ()>)
    ensures
        r == scan_of(prefix, byte),
{
    let mut set = ScancodeSet1::new();
    if let Some(p) = prefix {
        let _ = set.advance_state(p);
    }
    match set.advance_state(byte) {
        Ok(Some(e)) => Ok(Some(Event { code: e.code as u8, down: e.state == KeyState::Down })),
        Ok(None) => Ok(None),
        Err(_) => Err(()),
    }
}

/// Wraps `Us104Key::map_keycode`, with control letters mapped to control
/// characters: what the US layout makes of a key under the modifiers. The key
/// is the one that `ScancodeSet1::advance_state` gives for the bytes, since the
/// outside crate has no way from a number to a key. There is no answer where
/// the bytes name no key.
#[verifier::external_body]
fn us_key(prefix: Option<u8>, byte: u8, m: Mods) -> (r: Option<Key>)
    ensures
        r == (match scan_of(prefix, byte) {
            Ok(Some(e)) => Some(us_key_of(e.code, m)),
            _ => None,
        }),
{
    let mut set = ScancodeSet1::new();
    let _ = prefix.map(|p| set.advance_state(p));
    let Mods { lshift, rshift, lctrl, rctrl, numlock, capslock, lalt, ralt, rctrl2 } = m;
    let mods = Modifiers { lshift, rshift, lctrl, rctrl, numlock, capslock, lalt, ralt, rctrl2 };
    let code = set.advance_state(byte).ok().flatten()?.code;
    match Us104Key.map_keycode(code, &mods, HandleControl::MapLettersToUnicode) {
        DecodedKey::Unicode(c) => Some(Key::Unicode(c)),
        DecodedKey::RawKey(k) => Some(Key::Raw(k as u8)),
    }
}

// ---------- key events ----------

/// A modifier key: it changes the modifiers and is never mapped by a layout.
pub open spec fn is_modifier(code: u8) -> bool {
    code == KEY_LSHIFT || code == KEY_RSHIFT || code == KEY_LCTRL || code == KEY_RCTRL || code
        == KEY_LALT || code == KEY_RALT || code == KEY_RCTRL2 || code == KEY_CAPS_LOCK || code
        == KEY_NUM_LOCK
}

/// The modifiers after an event. A lock turns over when its key is pressed, but
/// for the Num Lock of a Pause; any other modifier follows its key.
pub open spec fn mods_after(m: Mods, e: Event) -> Mods {
    if e.code == KEY_CAPS_LOCK || e.code == KEY_NUM_LOCK {
        let turns = e.down && !(e.code == KEY_NUM_LOCK && m.rctrl2);
        m.with(e.code, m.on(e.code) != turns)
    } else {
        m.with(e.code, e.down)
    }
}

/// The key that an event gives, with what the layout makes of it: nothing on
/// release, and the modifier keys as they are.
pub open spec fn key_after(m: Mods, e: Event, mapped: Option<Key>) -> Option<Key> {
    if !e.down {
        None
    } else if e.code == KEY_NUM_LOCK && m.rctrl2 {
        Some(Key::Raw(KEY_PAUSE))
    } else if is_modifier(e.code) {
        Some(Key::Raw(e.code))
    } else {
        mapped
    }
}

/// Takes in a key event. `mapped` is what the layout makes of the key. Both
/// layouts see the same modifiers: those of the US layout, which the outside
/// crate has, and those of the Turkish one, which this library has. A decoder
/// of the outside crate would hold them where neither layout nor contract could
/// read them.
pub fn process_keyevent(m: &mut Mods, e: Event, mapped: Option<Key>) -> (r: Option<Key>)
    ensures
        *final(m) == mods_after(*old(m), e),
        r == key_after(*old(m), e, mapped),
{
    let pause: bool = m.rctrl2;
    if e.code == KEY_LSHIFT {
        m.lshift = e.down;
    } else if e.code == KEY_RSHIFT {
        m.rshift = e.down;
    } else if e.code == KEY_LCTRL {
        m.lctrl = e.down;
    } else if e.code == KEY_RCTRL {
        m.rctrl = e.down;
    } else if e.code == KEY_LALT {
        m.lalt = e.down;
    } else if e.code == KEY_RALT {
        m.ralt = e.down;
    } else if e.code == KEY_RCTRL2 {
        m.rctrl2 = e.down;
    } else if e.code == KEY_CAPS_LOCK {
        if e.down {
            m.capslock = !m.capslock;
        }
    } else if e.code == KEY_NUM_LOCK {
        if e.down && !m.rctrl2 {
            m.numlock = !m.numlock;
        }
    } else {
        return if e.down {
            mapped
        } else {
            None
        };
    }
    if !e.down {
        None
    } else if e.code == KEY_NUM_LOCK && pause {
        Some(Key::Raw(KEY_PAUSE))
    } else {
        Some(Key::Raw(e.code))
    }
}

// ---------- the keyboard ----------

/// The state between two bytes.
#[derive(Clone, Copy, PartialEq, Eq, Debug, Structural)]
pub struct Decoder {
    pub layout: KbdLayout,
    /// The prefix byte that the next byte belongs to.
    pub prefix: Option<u8>,
    pub mods: Mods,
}

pub open spec fn fresh(layout: KbdLayout) -> Decoder {
    Decoder { layout, prefix: None, mods: no_mods() }
}

/// The decoder for the wanted layout: a fresh one where the layout changes.
pub open spec fn switched(d: Decoder, want: KbdLayout) -> Decoder {
    if d.layout == want {
        d
    } else {
        fresh(want)
    }
}

/// The decoder after a byte for which the scan code set gave `scanned` and
/// the US layout `us`, and the key that comes out.
pub open spec fn after_byte(
    d: Decoder,
    byte: u8,
    scanned: Result<Option<Event>, ()>,
    us: Option<Key>,
) -> (Decoder, Option<Key>) {
    match scanned {
        Err(_) => (Decoder { prefix: None, ..d }, None),
        Ok(None) => (Decoder { prefix: Some(byte), ..d }, None),
        Ok(Some(e)) => (
            Decoder { prefix: None, mods: mods_after(d.mods, e), ..d },
            key_after(
                d.mods,
                e,
                if d.layout == KbdLayout::Us {
                    us
                } else {
                    Some(turkish(e.code, d.mods))
                },
            ),
        ),
    }
}

impl Decoder {
    pub fn new(layout: KbdLayout) -> (d: Decoder)
        ensures
            d == fresh(layout),
    {
        Decoder {
            layout,
            prefix: None,
            mods: Mods {
                lshift: false,
                rshift: false,
                lctrl: false,
                rctrl: false,
                numlock: true,
                capslock: false,
                lalt: false,
                ralt: false,
                rctrl2: false,
            },
        }
    }

    /// Takes in a byte, given what the scan code set and the US layout make
    /// of it.
    pub fn take(&mut self, byte: u8, scanned: Result<Option<Event>, ()>, us: Option<Key>) -> (r:
        Option<Key>)
        ensures
            (*final(self), r) == after_byte(*old(self), byte, scanned, us),
    {
        match scanned {
            Err(_) => {
                self.prefix = None;
                None
            },
            Ok(None) => {
                self.prefix = Some(byte);
                None
            },
            Ok(Some(e)) => {
                self.prefix = None;
                let mapped = if self.layout == KbdLayout::Us {
                    us
                } else {
                    Some(TurkishQ::map_keycode(e.code, &self.mods))
                };
                process_keyevent(&mut self.mods, e, mapped)
            },
        }
    }

    /// Takes in a byte.
    pub fn add_byte(&mut self, byte: u8) -> (r: Option<Key>)
        ensures
            (*final(self), r) == after_byte(
                *old(self),
                byte,
                scan_of(old(self).prefix, byte),
                us_mapped(scan_of(old(self).prefix, byte), old(self).mods),
            ),
    {
        let scanned = scan(self.prefix, byte);
        let us = us_key(self.prefix, byte, self.mods);
        self.take(byte, scanned, us)
    }
}

/// The keyboard: the bytes that wait to be decoded, and the decoder.
pub struct Keyboard {
    pub raw: Ring,
    pub decoder: Decoder,
    /// The number of bytes that were stored.
    pub pushed: u64,
}

impl Keyboard {
    pub open spec fn wf(&self) -> bool {
        self.raw.wf() && self.raw.buf@.len() == RAW_CAP
    }

    pub fn new() -> (k: Keyboard)
        ensures
            k.wf(),
            k.raw.queued() == Seq::<u8>::empty(),
            k.decoder == fresh(KbdLayout::TurkishQ),
            k.pushed == 0,
    {
        Keyboard { raw: Ring::new(RAW_CAP), decoder: Decoder::new(KbdLayout::TurkishQ), pushed: 0 }
    }
}

/// Called from the keyboard interrupt: stores the byte, or drops it when the
/// ring is full.
pub fn process_scancode(k: &mut Keyboard, scancode: u8)
    requires
        old(k).wf(),
    ensures
        final(k).wf(),
        final(k).decoder == old(k).decoder,
        final(k).raw.queued() == (if old(k).raw.full() {
            old(k).raw.queued()
        } else {
            old(k).raw.queued().push(scancode)
        }),
        final(k).pushed == (if old(k).raw.full() {
            old(k).pushed
        } else {
            old(k).pushed.wrapping_add(1)
        }),
{
    if k.raw.push(scancode) {
        k.pushed = k.pushed.wrapping_add(1);
    }
}

/// Decoding one waiting byte under the wanted layout: the decoder and the
/// bytes after it, and the key that comes out.
pub open spec fn one_decoded(d: Decoder, raw: Seq<u8>, want: KbdLayout) -> (
    Decoder,
    Seq<u8>,
    Option<Key>,
) {
    let d1 = switched(d, want);
    if raw.len() == 0 {
        (d1, raw, None)
    } else {
        let (d2, key) = after_byte(
            d1,
            raw[0],
            scan_of(d1.prefix, raw[0]),
            us_mapped(scan_of(d1.prefix, raw[0]), d1.mods),
        );
        (d2, raw.skip(1), key)
    }
}

/// Decodes one waiting byte.
pub fn decode_one(k: &mut Keyboard, want: KbdLayout) -> (r: Option<Key>)
    requires
        old(k).wf(),
    ensures
        final(k).wf(),
        final(k).pushed == old(k).pushed,
        (final(k).decoder, final(k).raw.queued(), r) == one_decoded(
            old(k).decoder,
            old(k).raw.queued(),
            want,
        ),
{
    if k.decoder.layout != want {
        k.decoder = Decoder::new(want);
    }
    match k.raw.pop() {
        None => None,
        Some(b) => k.decoder.add_byte(b),
    }
}

/// Decoding waiting bytes up to the first that gives no key: what the keys
/// are.
pub open spec fn drained(d: Decoder, raw: Seq<u8>, want: KbdLayout) -> (
    Decoder,
    Seq<u8>,
    Seq<Key>,
)
    decreases raw.len(),
{
    let (d1, rest, key) = one_decoded(d, raw, want);
    match key {
        Some(k) if rest.len() < raw.len() => {
            let (d2, rest2, keys) = drained(d1, rest, want);
            (d2, rest2, seq![k] + keys)
        },
        _ => (d1, rest, Seq::empty()),
    }
}

/// Decodes waiting bytes up to the first that gives no key.
pub fn drain(k: &mut Keyboard, want: KbdLayout) -> (keys: Vec<Key>)
    requires
        old(k).wf(),
    ensures
        final(k).wf(),
        final(k).pushed == old(k).pushed,
        (final(k).decoder, final(k).raw.queued(), keys@) == drained(
            old(k).decoder,
            old(k).raw.queued(),
            want,
        ),
{
    let mut keys: Vec<Key> = Vec::new();
    let ghost all = drained(k.decoder, k.raw.queued(), want);
    assert(keys@ + all.2 =~= all.2);
    loop
        invariant
            k.wf(),
            k.pushed == old(k).pushed,
            all == drained(old(k).decoder, old(k).raw.queued(), want),
            ({
                let (d, rest, more) = drained(k.decoder, k.raw.queued(), want);
                all == (d, rest, keys@ + more)
            }),
        decreases k.raw.queued().len(),
    {
        let ghost before = keys@;
        let ghost more = drained(k.decoder, k.raw.queued(), want).2;
        match decode_one(k, want) {
            None => {
                assert(keys@ + Seq::<Key>::empty() =~= keys@);
                return keys;
            },
            Some(key) => {
                keys.push(key);
                let ghost later = drained(k.decoder, k.raw.queued(), want).2;
                assert(more == seq![key] + later);
                assert(keys@ + later =~= before + (seq![key] + later));
            },
        }
    }
}

// ---------- laws ----------

/// Shift holds while one of its keys is down: a press turns it on, and its
/// release off again, whatever the other one does. The same goes for the control
/// keys.
pub proof fn shift_follows_its_keys(m: Mods, code: u8)
    ensures
        code == 76 || code == 87 ==> mods_after(m, Event { code, down: true }).shifted(),
        code == 93 || code == 100 ==> mods_after(m, Event { code, down: true }).ctrl(),
        mods_after(m, Event { code: 76, down: false }).shifted() == m.rshift,
        mods_after(m, Event { code: 87, down: false }).shifted() == m.lshift,
        mods_after(m, Event { code: 93, down: false }).ctrl() == m.rctrl,
        mods_after(m, Event { code: 100, down: false }).ctrl() == m.lctrl,
{
}

/// A press and the release of a modifier that was up leave the modifiers as they
/// were; a lock turns over with each press and not with a release; and another
/// key changes none of them.
pub proof fn modifiers_come_back(m: Mods, code: u8)
    ensures
        ({
            let down = Event { code, down: true };
            let up = Event { code, down: false };
            &&& !is_modifier(code) ==> mods_after(m, down) == m && mods_after(m, up) == m
            &&& is_modifier(code) && code != KEY_CAPS_LOCK && code != KEY_NUM_LOCK && !m.on(code)
                ==> mods_after(mods_after(m, down), up) == m
            &&& code == KEY_CAPS_LOCK ==> {
                &&& mods_after(m, down) == (Mods { capslock: !m.capslock, ..m })
                &&& mods_after(m, up) == m
                &&& mods_after(mods_after(m, down), down) == m
            }
            &&& code == KEY_NUM_LOCK && !m.rctrl2 ==> mods_after(m, down) == (Mods {
                numlock: !m.numlock,
                ..m
            })
            &&& code == KEY_NUM_LOCK ==> mods_after(m, up) == m
        }),
{
}

/// The release of a key types nothing, nor does a modifier: only the press of
/// another key gives what the layout makes of it.
pub proof fn only_presses_type(m: Mods, e: Event, mapped: Option<Key>)
    ensures
        !e.down ==> key_after(m, e, mapped) is None,
        e.down && is_modifier(e.code) ==> (key_after(m, e, mapped) matches Some(k) && k is Raw),
        e.down && !is_modifier(e.code) ==> key_after(m, e, mapped) == mapped,
{
}

/// A letter of the Turkish layout is a capital with shift or with the lock, and
/// small with both or neither; every other key follows shift alone.
pub proof fn capitals_follow_shift_and_lock(lower: char, upper: char, m: Mods)
    ensures
        by_caps(lower, upper, m) == Key::Unicode(
            if (m.lshift || m.rshift) == m.capslock {
                lower
            } else {
                upper
            },
        ),
        by_shift(lower, upper, m) == Key::Unicode(
            if m.lshift || m.rshift {
                upper
            } else {
                lower
            },
        ),
{
}

/// The keys that are drained are the bytes decoded one by one, in their order;
/// what is left was not looked at.
pub proof fn draining_takes_one_by_one(d: Decoder, raw: Seq<u8>, want: KbdLayout)
    ensures
        ({
            let (d1, rest, key) = one_decoded(d, raw, want);
            &&& raw.len() > 0 ==> rest == raw.skip(1)
            &&& raw.len() == 0 ==> rest == raw && key is None
            &&& key matches Some(k) ==> drained(d, raw, want).2 == seq![k] + drained(
                d1,
                rest,
                want,
            ).2 && drained(d, raw, want).0 == drained(d1, rest, want).0
            &&& key is None ==> drained(d, raw, want).2.len() == 0
        }),
{
}

/// Every letter and every digit can be typed on the Turkish layout.
pub proof fn letters_can_be_typed(c: char)
    requires
        'a' <= c <= 'z' || '0' <= c <= '9',
    ensures
        exists|code: u8| #[trigger] turkish(code, no_mods()) == Key::Unicode(c),
{
    assert(turkish(61, no_mods()) == Key::Unicode('a'));
    assert(turkish(81, no_mods()) == Key::Unicode('b'));
    assert(turkish(79, no_mods()) == Key::Unicode('c'));
    assert(turkish(63, no_mods()) == Key::Unicode('d'));
    assert(turkish(41, no_mods()) == Key::Unicode('e'));
    assert(turkish(64, no_mods()) == Key::Unicode('f'));
    assert(turkish(65, no_mods()) == Key::Unicode('g'));
    assert(turkish(66, no_mods()) == Key::Unicode('h'));
    assert(turkish(71, no_mods()) == Key::Unicode('i'));
    assert(turkish(67, no_mods()) == Key::Unicode('j'));
    assert(turkish(68, no_mods()) == Key::Unicode('k'));
    assert(turkish(69, no_mods()) == Key::Unicode('l'));
    assert(turkish(83, no_mods()) == Key::Unicode('m'));
    assert(turkish(82, no_mods()) == Key::Unicode('n'));
    assert(turkish(47, no_mods()) == Key::Unicode('o'));
    assert(turkish(48, no_mods()) == Key::Unicode('p'));
    assert(turkish(39, no_mods()) == Key::Unicode('q'));
    assert(turkish(42, no_mods()) == Key::Unicode('r'));
    assert(turkish(62, no_mods()) == Key::Unicode('s'));
    assert(turkish(43, no_mods()) == Key::Unicode('t'));
    assert(turkish(45, no_mods()) == Key::Unicode('u'));
    assert(turkish(80, no_mods()) == Key::Unicode('v'));
    assert(turkish(40, no_mods()) == Key::Unicode('w'));
    assert(turkish(78, no_mods()) == Key::Unicode('x'));
    assert(turkish(44, no_mods()) == Key::Unicode('y'));
    assert(turkish(77, no_mods()) == Key::Unicode('z'));
    assert(turkish(18, no_mods()) == Key::Unicode('1'));
    assert(turkish(19, no_mods()) == Key::Unicode('2'));
    assert(turkish(20, no_mods()) == Key::Unicode('3'));
    assert(turkish(21, no_mods()) == Key::Unicode('4'));
    assert(turkish(22, no_mods()) == Key::Unicode('5'));
    assert(turkish(23, no_mods()) == Key::Unicode('6'));
    assert(turkish(24, no_mods()) == Key::Unicode('7'));
    assert(turkish(25, no_mods()) == Key::Unicode('8'));
    assert(turkish(26, no_mods()) == Key::Unicode('9'));
    assert(turkish(27, no_mods()) == Key::Unicode('0'));
}

/// A key that types a small letter types its capital with shift or with the lock,
/// but not with both; the capital of `i` has its dot.
pub proof fn letters_have_their_capitals(code: u8, m: Mods)
    requires
        turkish(code, no_mods()) matches Key::Unicode(c) && 'a' <= c <= 'z',
        !m.ctrl(),
    ensures
        ({
            let c = turkish(code, no_mods())->Unicode_0;
            turkish(code, m) == Key::Unicode(
                if (m.lshift || m.rshift) == m.capslock {
                    c
                } else if c == 'i' {
                    'İ'
                } else {
                    (c as int - 32) as char
                },
            )
        }),
{
}

/// No two keys of the main block type the same character.
pub proof fn keys_type_different_characters(a: u8, b: u8)
    requires
        17 <= a <= 29 || 39 <= a <= 52 || 61 <= a <= 71 || 77 <= a <= 86,
        17 <= b <= 29 || 39 <= b <= 52 || 61 <= b <= 71 || 77 <= b <= 86,
        a != b,
    ensures
        turkish(a, no_mods()) != turkish(b, no_mods()),
        turkish(a, no_mods()) is Unicode,
{
}

} // verus!
