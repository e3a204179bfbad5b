use pc_keyboard::layouts::Us104Key;
use pc_keyboard::{DecodedKey, HandleControl, PS2Keyboard, ScancodeSet1};
use solaros::input::{read_char, serial_irq, Input};
use solaros::keyboard::{decode_one, drain, process_scancode, Decoder, Key, Keyboard};
use solaros::settings::KbdLayout;

fn plain(k: Option<DecodedKey>) -> Option<Key> {
    k.map(|d| match d {
        DecodedKey::Unicode(c) => Key::Unicode(c),
        DecodedKey::RawKey(r) => Key::Raw(r as u8),
    })
}

/// What the outside keyboard makes of the bytes, one answer for each.
fn reference(bytes: &[u8]) -> Vec<Option<Key>> {
    let mut k = PS2Keyboard::new(
        ScancodeSet1::new(),
        Us104Key,
        HandleControl::MapLettersToUnicode,
    );
    bytes
        .iter()
        .map(|b| match k.add_byte(*b) {
            Ok(Some(e)) => plain(k.process_keyevent(e)),
            _ => None,
        })
        .collect()
}

fn ours(layout: KbdLayout, bytes: &[u8]) -> Vec<Option<Key>> {
    let mut d = Decoder::new(layout);
    bytes.iter().map(|b| d.add_byte(*b)).collect()
}

#[test]
fn us_layout_agrees_for_every_byte() {
    // with no modifier, shift, control, caps lock, num lock, alt, and right alt
    let holds: [&[u8]; 8] = [
        &[],
        &[0x2A],
        &[0x1D],
        &[0x3A, 0xBA],
        &[0x45, 0xC5],
        &[0x38],
        &[0xE0, 0x38],
        &[0xE1, 0x1D],
    ];
    let prefixes: [&[u8]; 3] = [&[], &[0xE0], &[0xE1]];
    for hold in holds {
        for prefix in prefixes {
            for b in 0..=255u8 {
                let mut bytes = hold.to_vec();
                bytes.extend(prefix);
                bytes.push(b);
                bytes.push(0x1E);
                bytes.push(0x45);
                bytes.push(0x47);
                assert_eq!(ours(KbdLayout::Us, &bytes), reference(&bytes));
            }
        }
    }
}

#[test]
fn turkish_letters() {
    let keys = ours(KbdLayout::TurkishQ, &[0x17, 0x97, 0x28, 0xA8, 0x1A, 0x27, 0x1E, 0x1C]);
    assert_eq!(
        keys,
        [
            Some(Key::Unicode('\u{131}')),
            None,
            Some(Key::Unicode('i')),
            None,
            Some(Key::Unicode('\u{11f}')),
            Some(Key::Unicode('\u{15f}')),
            Some(Key::Unicode('a')),
            Some(Key::Unicode('\n')),
        ]
    );
    let keys = ours(KbdLayout::TurkishQ, &[0x2A, 0x17, 0x08, 0xAA, 0x1D, 0x2E]);
    assert_eq!(keys[1], Some(Key::Unicode('\u{130}')));
    assert_eq!(keys[2], Some(Key::Unicode('/')));
    assert_eq!(keys[5], Some(Key::Unicode('\u{3}')));
}

#[test]
fn waiting_bytes_are_decoded_in_order() {
    let mut k = Keyboard::new();
    for b in [0x1E, 0x30, 0x9E, 0x2E] {
        process_scancode(&mut k, b);
    }
    assert_eq!(k.pushed, 4);
    assert_eq!(decode_one(&mut k, KbdLayout::Us), Some(Key::Unicode('a')));
    assert_eq!(drain(&mut k, KbdLayout::Us), [Key::Unicode('b')]);
    assert_eq!(drain(&mut k, KbdLayout::Us), [Key::Unicode('c')]);
    assert!(drain(&mut k, KbdLayout::Us).is_empty());
    for _ in 0..600 {
        process_scancode(&mut k, 0x1E);
    }
    assert_eq!(k.pushed, 4 + 511);
}

#[test]
fn serial_and_keyboard_input() {
    let mut i = Input::new();
    let mut rx = b"a\r\x01\x08".to_vec();
    serial_irq(&mut i, &mut rx);
    assert!(rx.is_empty());
    assert_eq!(read_char(&mut i, &mut Vec::new(), KbdLayout::Us), Some('a'));
    assert_eq!(read_char(&mut i, &mut Vec::new(), KbdLayout::Us), Some('\n'));
    let mut rest = Vec::new();
    for _ in 0..4 {
        if let Some(c) = read_char(&mut i, &mut Vec::new(), KbdLayout::Us) {
            rest.push(c);
        }
    }
    assert_eq!(rest, ['\u{8}']);
    process_scancode(&mut i.keyboard, 0x10);
    assert_eq!(read_char(&mut i, &mut Vec::new(), KbdLayout::Us), Some('q'));
    assert_eq!(read_char(&mut i, &mut b"z".to_vec(), KbdLayout::Us), Some('z'));
    assert_eq!(read_char(&mut i, &mut Vec::new(), KbdLayout::Us), None);
}

#[test]
fn full_ring_loses_one_byte() {
    let mut i = Input::new();
    let mut rx: Vec<u8> = (0..260usize).map(|k| b'a' + (k % 26) as u8).collect();
    let sent = rx.clone();
    serial_irq(&mut i, &mut rx);
    assert_eq!(rx, sent[256..]);
    let mut got = Vec::new();
    while let Some(c) = read_char(&mut i, &mut rx, KbdLayout::Us) {
        got.push(c as u8);
        assert!(got.len() < 300);
    }
    assert!(rx.is_empty());
    assert_eq!(got[..255], sent[..255]);
    assert_eq!(got[got.len() - 1], sent[259]);
}
