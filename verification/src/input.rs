//! Capture configuration checks: the keyboard names a mapping may use, the
//! rules for gamepad mappings, and the macOS virtual key codes of the names.
use vstd::prelude::*;

use crate::broker::PhysicalEvent;
use crate::config::{InputKind, Mapping};
use crate::protocol::{binary_confidence, Action, Confidence, CONFIDENCE_FULL_BITS};
use crate::text::{decimal_u16, parse_u16, same_text};

verus! {

/// A keyboard key a mapping can name.
#[derive(Debug, Clone, Copy, PartialEq, Eq, Structural)]
pub enum KeyName {
    Space,
    Return,
    Escape,
    Tab,
    UpArrow,
    DownArrow,
    LeftArrow,
    RightArrow,
    A,
    B,
    C,
    D,
    E,
    F,
    G,
    H,
    I,
    J,
    K,
    L,
    M,
    N,
    O,
    P,
    Q,
    R,
    S,
    T,
    U,
    V,
    W,
    X,
    Y,
    Z,
}

/// Why a mapping cannot be captured.
#[derive(Debug, Clone, PartialEq, Eq)]
pub enum InputError {
    /// The keyboard code names no supported key.
    UnsupportedKeyboardCode(String),
    /// The keyboard mapping (its id and code) names no supported key.
    UnsupportedMappingCode { mapping_id: String, code: String },
    /// A keyboard mapping sets a device.
    KeyboardDevice(String),
    /// Gamepad capture cannot guarantee suppression on this operating system.
    GamepadUnsupported { mapping_id: String, os: String },
    /// A gamepad mapping has no evdev device path.
    MissingDevice(String),
    /// A gamepad mapping's code is not a numeric evdev key code.
    NonNumericCode { mapping_id: String, code: String },
}

/// ASCII upper-case letters lowered; every other byte kept.
pub open spec fn ascii_lower(b: u8) -> u8 {
    if 65 <= b <= 90 {
        (b + 32) as u8
    } else {
        b
    }
}

pub open spec fn lower_bytes(s: Seq<u8>) -> Seq<u8> {
    s.map_values(|b: u8| ascii_lower(b))
}

/// The letter key of a lower-case ASCII letter byte.
pub open spec fn letter_key(b: u8) -> KeyName {
    match b {
        97 => KeyName::A,
        98 => KeyName::B,
        99 => KeyName::C,
        100 => KeyName::D,
        101 => KeyName::E,
        102 => KeyName::F,
        103 => KeyName::G,
        104 => KeyName::H,
        105 => KeyName::I,
        106 => KeyName::J,
        107 => KeyName::K,
        108 => KeyName::L,
        109 => KeyName::M,
        110 => KeyName::N,
        111 => KeyName::O,
        112 => KeyName::P,
        113 => KeyName::Q,
        114 => KeyName::R,
        115 => KeyName::S,
        116 => KeyName::T,
        117 => KeyName::U,
        118 => KeyName::V,
        119 => KeyName::W,
        120 => KeyName::X,
        121 => KeyName::Y,
        122 => KeyName::Z,
        _ => KeyName::Z,
    }
}

/// The key a lower-cased keyboard code names, if any.
pub open spec fn key_for_word(w: Seq<u8>) -> Option<KeyName> {
    if w == seq![115u8, 112, 97, 99, 101] {
        // "space"
        Some(KeyName::Space)
    } else if w == seq![114u8, 101, 116, 117, 114, 110] || w == seq![101u8, 110, 116, 101, 114] {
        // "return" / "enter"
        Some(KeyName::Return)
    } else if w == seq![101u8, 115, 99, 97, 112, 101] || w == seq![101u8, 115, 99] {
        // "escape" / "esc"
        Some(KeyName::Escape)
    } else if w == seq![116u8, 97, 98] {
        // "tab"
        Some(KeyName::Tab)
    } else if w == seq![117u8, 112] || w == seq![117u8, 112, 97, 114, 114, 111, 119] {
        // "up" / "uparrow"
        Some(KeyName::UpArrow)
    } else if w == seq![100u8, 111, 119, 110] || w == seq![100u8, 111, 119, 110, 97, 114, 114, 111, 119] {
        // "down" / "downarrow"
        Some(KeyName::DownArrow)
    } else if w == seq![108u8, 101, 102, 116] || w == seq![108u8, 101, 102, 116, 97, 114, 114, 111, 119] {
        // "left" / "leftarrow"
        Some(KeyName::LeftArrow)
    } else if w == seq![114u8, 105, 103, 104, 116] || w == seq![114u8, 105, 103, 104, 116, 97, 114, 114, 111, 119] {
        // "right" / "rightarrow"
        Some(KeyName::RightArrow)
    } else if w.len() == 1 && 97 <= w[0] <= 122 {
        Some(letter_key(w[0]))
    } else {
        None
    }
}

/// The key a keyboard code names: codes are compared without regard to
/// ASCII case.
pub open spec fn key_of_code(code: Seq<char>) -> Option<KeyName> {
    key_for_word(lower_bytes(vstd::utf8::encode_utf8(code)))
}

/// The code point of a character with ASCII upper-case letters lowered.
pub open spec fn ascii_lower_code(c: char) -> u32 {
    let v = c as u32;
    if 65 <= v <= 90 {
        (v + 32) as u32
    } else {
        v
    }
}

/// An ASCII character is encoded as its own code in one byte.
proof fn lemma_ascii_scalar(v: u32)
    requires
        v <= 0x7F,
    ensures
        vstd::utf8::encode_scalar(v) == seq![v as u8],
{
    assert((v & 0x7F) as u8 == v as u8) by (bit_vector)
        requires
            v <= 0x7F,
    ;
}

proof fn lemma_lower_bytes_concat(x: Seq<u8>, y: Seq<u8>)
    ensures
        lower_bytes(x + y) == lower_bytes(x) + lower_bytes(y),
{
    assert(lower_bytes(x + y) =~= lower_bytes(x) + lower_bytes(y));
}

/// Texts that agree up to ASCII case have the same lowered encoding.
proof fn lemma_lowered_encodings_agree(a: Seq<char>, b: Seq<char>)
    requires
        a.len() == b.len(),
        forall|i: int| 0 <= i < a.len() ==> ascii_lower_code(#[trigger] a[i]) == ascii_lower_code(b[i]),
    ensures
        lower_bytes(vstd::utf8::encode_utf8(a)) == lower_bytes(vstd::utf8::encode_utf8(b)),
    decreases a.len(),
{
    if a.len() > 0 {
        let ra = a.drop_first();
        let rb = b.drop_first();
        assert forall|i: int| 0 <= i < ra.len() implies ascii_lower_code(#[trigger] ra[i])
            == ascii_lower_code(rb[i]) by {
            assert(ra[i] == a[i + 1] && rb[i] == b[i + 1]);
        }
        lemma_lowered_encodings_agree(ra, rb);
        let x = a[0] as u32;
        let y = b[0] as u32;
        assert(ascii_lower_code(a[0]) == ascii_lower_code(b[0]));
        if x != y {
            assert(x <= 0x7F && y <= 0x7F);
            lemma_ascii_scalar(x);
            lemma_ascii_scalar(y);
            assert(lower_bytes(seq![x as u8]) =~= seq![ascii_lower(x as u8)]);
            assert(lower_bytes(seq![y as u8]) =~= seq![ascii_lower(y as u8)]);
        }
        lemma_lower_bytes_concat(vstd::utf8::encode_scalar(x), vstd::utf8::encode_utf8(ra));
        lemma_lower_bytes_concat(vstd::utf8::encode_scalar(y), vstd::utf8::encode_utf8(rb));
    }
}

/// Keyboard codes ignore ASCII case: two codes that differ only in the case
/// of ASCII letters name the same key, or are both unsupported.
pub proof fn lemma_key_codes_ignore_ascii_case(a: Seq<char>, b: Seq<char>)
    requires
        a.len() == b.len(),
        forall|i: int| 0 <= i < a.len() ==> ascii_lower_code(#[trigger] a[i]) == ascii_lower_code(b[i]),
    ensures
        key_of_code(a) == key_of_code(b),
{
    lemma_lowered_encodings_agree(a, b);
}

/// The lowered encoding of a word of lower-case ASCII letters is its
/// letters' codes.
proof fn lemma_lower_word(w: Seq<char>)
    requires
        forall|i: int| 0 <= i < w.len() ==> 97 <= (#[trigger] w[i]) as u32 <= 122,
    ensures
        lower_bytes(vstd::utf8::encode_utf8(w)) == w.map_values(|c: char| c as u32 as u8),
    decreases w.len(),
{
    if w.len() > 0 {
        let r = w.drop_first();
        assert forall|i: int| 0 <= i < r.len() implies 97 <= (#[trigger] r[i]) as u32 <= 122 by {
            assert(r[i] == w[i + 1]);
        }
        lemma_lower_word(r);
        lemma_ascii_scalar(w[0] as u32);
        lemma_lower_bytes_concat(vstd::utf8::encode_scalar(w[0] as u32), vstd::utf8::encode_utf8(r));
        assert(lower_bytes(seq![w[0] as u32 as u8]) =~= seq![w[0] as u32 as u8]);
        assert(w.map_values(|c: char| c as u32 as u8) =~= seq![w[0] as u32 as u8] + r.map_values(
            |c: char| c as u32 as u8,
        ));
    }
}

/// The documented names name their keys, and the aliases agree: `space`,
/// `tab`, `enter` and `return`, `esc` and `escape`, and each arrow with and
/// without the `arrow` suffix.
pub proof fn lemma_key_code_aliases()
    ensures
        key_of_code(seq!['s', 'p', 'a', 'c', 'e']) == Some(KeyName::Space),
        key_of_code(seq!['t', 'a', 'b']) == Some(KeyName::Tab),
        key_of_code(seq!['e', 'n', 't', 'e', 'r']) == Some(KeyName::Return),
        key_of_code(seq!['r', 'e', 't', 'u', 'r', 'n']) == Some(KeyName::Return),
        key_of_code(seq!['e', 's', 'c']) == Some(KeyName::Escape),
        key_of_code(seq!['e', 's', 'c', 'a', 'p', 'e']) == Some(KeyName::Escape),
        key_of_code(seq!['u', 'p']) == Some(KeyName::UpArrow),
        key_of_code(seq!['u', 'p', 'a', 'r', 'r', 'o', 'w']) == Some(KeyName::UpArrow),
        key_of_code(seq!['d', 'o', 'w', 'n']) == Some(KeyName::DownArrow),
        key_of_code(seq!['d', 'o', 'w', 'n', 'a', 'r', 'r', 'o', 'w']) == Some(KeyName::DownArrow),
        key_of_code(seq!['l', 'e', 'f', 't']) == Some(KeyName::LeftArrow),
        key_of_code(seq!['l', 'e', 'f', 't', 'a', 'r', 'r', 'o', 'w']) == Some(KeyName::LeftArrow),
        key_of_code(seq!['r', 'i', 'g', 'h', 't']) == Some(KeyName::RightArrow),
        key_of_code(seq!['r', 'i', 'g', 'h', 't', 'a', 'r', 'r', 'o', 'w']) == Some(
            KeyName::RightArrow,
        ),
{
    let words = seq![
        seq!['e', 'n', 't', 'e', 'r'],
        seq!['r', 'e', 't', 'u', 'r', 'n'],
        seq!['e', 's', 'c'],
        seq!['e', 's', 'c', 'a', 'p', 'e'],
        seq!['u', 'p'],
        seq!['u', 'p', 'a', 'r', 'r', 'o', 'w'],
        seq!['d', 'o', 'w', 'n'],
        seq!['d', 'o', 'w', 'n', 'a', 'r', 'r', 'o', 'w'],
        seq!['l', 'e', 'f', 't'],
        seq!['l', 'e', 'f', 't', 'a', 'r', 'r', 'o', 'w'],
        seq!['r', 'i', 'g', 'h', 't'],
        seq!['r', 'i', 'g', 'h', 't', 'a', 'r', 'r', 'o', 'w'],
        seq!['s', 'p', 'a', 'c', 'e'],
        seq!['t', 'a', 'b'],
    ];
    assert forall|k: int| 0 <= k < words.len() implies lower_bytes(
        vstd::utf8::encode_utf8(#[trigger] words[k]),
    ) == words[k].map_values(|c: char| c as u32 as u8) by {
        lemma_lower_word(words[k]);
    }
    assert(words[0].map_values(|c: char| c as u32 as u8) =~= seq![101u8, 110, 116, 101, 114]);
    assert(words[1].map_values(|c: char| c as u32 as u8) =~= seq![114u8, 101, 116, 117, 114, 110]);
    assert(words[2].map_values(|c: char| c as u32 as u8) =~= seq![101u8, 115, 99]);
    assert(words[3].map_values(|c: char| c as u32 as u8) =~= seq![101u8, 115, 99, 97, 112, 101]);
    assert(words[4].map_values(|c: char| c as u32 as u8) =~= seq![117u8, 112]);
    assert(words[5].map_values(|c: char| c as u32 as u8) =~= seq![117u8, 112, 97, 114, 114, 111, 119]);
    assert(words[6].map_values(|c: char| c as u32 as u8) =~= seq![100u8, 111, 119, 110]);
    assert(words[7].map_values(|c: char| c as u32 as u8) =~= seq![100u8, 111, 119, 110, 97, 114, 114, 111, 119]);
    assert(words[8].map_values(|c: char| c as u32 as u8) =~= seq![108u8, 101, 102, 116]);
    assert(words[9].map_values(|c: char| c as u32 as u8) =~= seq![108u8, 101, 102, 116, 97, 114, 114, 111, 119]);
    assert(words[10].map_values(|c: char| c as u32 as u8) =~= seq![114u8, 105, 103, 104, 116]);
    assert(words[11].map_values(|c: char| c as u32 as u8) =~= seq![114u8, 105, 103, 104, 116, 97, 114, 114, 111, 119]);
    assert(words[12].map_values(|c: char| c as u32 as u8) =~= seq![115u8, 112, 97, 99, 101]);
    assert(words[13].map_values(|c: char| c as u32 as u8) =~= seq![116u8, 97, 98]);
}

/// The macOS virtual key code of a key.
pub open spec fn mac_keycode_of(key: KeyName) -> u16 {
    match key {
        KeyName::Space => 49,
        KeyName::Return => 36,
        KeyName::Escape => 53,
        KeyName::Tab => 48,
        KeyName::UpArrow => 126,
        KeyName::DownArrow => 125,
        KeyName::LeftArrow => 123,
        KeyName::RightArrow => 124,
        KeyName::A => 0,
        KeyName::B => 11,
        KeyName::C => 8,
        KeyName::D => 2,
        KeyName::E => 14,
        KeyName::F => 3,
        KeyName::G => 5,
        KeyName::H => 4,
        KeyName::I => 34,
        KeyName::J => 38,
        KeyName::K => 40,
        KeyName::L => 37,
        KeyName::M => 46,
        KeyName::N => 45,
        KeyName::O => 31,
        KeyName::P => 35,
        KeyName::Q => 12,
        KeyName::R => 15,
        KeyName::S => 1,
        KeyName::T => 17,
        KeyName::U => 32,
        KeyName::V => 9,
        KeyName::W => 13,
        KeyName::X => 7,
        KeyName::Y => 16,
        KeyName::Z => 6,
    }
}

fn letter_key_of(b: u8) -> (k: KeyName)
    requires
        97 <= b <= 122,
    ensures
        k == letter_key(b),
{
    match b {
        97 => KeyName::A,
        98 => KeyName::B,
        99 => KeyName::C,
        100 => KeyName::D,
        101 => KeyName::E,
        102 => KeyName::F,
        103 => KeyName::G,
        104 => KeyName::H,
        105 => KeyName::I,
        106 => KeyName::J,
        107 => KeyName::K,
        108 => KeyName::L,
        109 => KeyName::M,
        110 => KeyName::N,
        111 => KeyName::O,
        112 => KeyName::P,
        113 => KeyName::Q,
        114 => KeyName::R,
        115 => KeyName::S,
        116 => KeyName::T,
        117 => KeyName::U,
        118 => KeyName::V,
        119 => KeyName::W,
        120 => KeyName::X,
        121 => KeyName::Y,
        122 => KeyName::Z,
        _ => KeyName::Z,
    }
}

fn word_is(lower: &Vec<u8>, w: Vec<u8>) -> (r: bool)
    ensures
        r == (lower@ == w@),
{
    if lower.len() != w.len() {
        return false;
    }
    let n = w.len();
    let mut i: usize = 0;
    while i < n
        invariant
            i <= n,
            n == w@.len(),
            n == lower@.len(),
            forall|j: int| 0 <= j < i ==> lower@[j] == w@[j],
        decreases n - i,
    {
        if lower[i] != w[i] {
            return false;
        }
        i = i + 1;
    }
    assert(lower@ =~= w@);
    true
}

/// The key a keyboard code names; an unsupported code is an error.
pub fn parse_key(code: &str) -> (r: Result<KeyName, InputError>)
    ensures
        match key_of_code(code@) {
            Some(k) => r == Ok::<KeyName, InputError>(k),
            None => r matches Err(InputError::UnsupportedKeyboardCode(c)) && c@ == code@,
        },
{
    let bytes = code.as_bytes();
    let n = bytes.len();
    let mut lower: Vec<u8> = Vec::new();
    for i in 0..n
        invariant
            n == bytes@.len(),
            lower@ == lower_bytes(bytes@.take(i as int)),
    {
        let b = bytes[i];
        let l = if 65 <= b && b <= 90 {
            b + 32
        } else {
            b
        };
        lower.push(l);
        proof {
            assert(bytes@.take(i + 1) =~= bytes@.take(i as int).push(b));
            assert(lower@ =~= lower_bytes(bytes@.take(i + 1)));
        }
    }
    proof {
        assert(bytes@.take(n as int) =~= bytes@);
    }
    if word_is(&lower, vec![115u8, 112, 97, 99, 101]) {
        Ok(KeyName::Space)
    } else if word_is(&lower, vec![114u8, 101, 116, 117, 114, 110]) || word_is(&lower, vec![101u8, 110, 116, 101, 114]) {
        Ok(KeyName::Return)
    } else if word_is(&lower, vec![101u8, 115, 99, 97, 112, 101]) || word_is(&lower, vec![101u8, 115, 99]) {
        Ok(KeyName::Escape)
    } else if word_is(&lower, vec![116u8, 97, 98]) {
        Ok(KeyName::Tab)
    } else if word_is(&lower, vec![117u8, 112]) || word_is(&lower, vec![117u8, 112, 97, 114, 114, 111, 119]) {
        Ok(KeyName::UpArrow)
    } else if word_is(&lower, vec![100u8, 111, 119, 110]) || word_is(&lower, vec![100u8, 111, 119, 110, 97, 114, 114, 111, 119]) {
        Ok(KeyName::DownArrow)
    } else if word_is(&lower, vec![108u8, 101, 102, 116]) || word_is(&lower, vec![108u8, 101, 102, 116, 97, 114, 114, 111, 119]) {
        Ok(KeyName::LeftArrow)
    } else if word_is(&lower, vec![114u8, 105, 103, 104, 116]) || word_is(&lower, vec![114u8, 105, 103, 104, 116, 97, 114, 114, 111, 119]) {
        Ok(KeyName::RightArrow)
    } else if lower.len() == 1 && 97 <= lower[0] && lower[0] <= 122 {
        Ok(letter_key_of(lower[0]))
    } else {
        Err(InputError::UnsupportedKeyboardCode(code.to_owned()))
    }
}

/// The macOS virtual key code of a keyboard code, if it names a key.
pub fn name_to_keycode(code: &str) -> (r: Option<u16>)
    ensures
        r == (match key_of_code(code@) {
            Some(k) => Some(mac_keycode_of(k)),
            None => None,
        }),
{
    match parse_key(code) {
        Ok(k) => Some(mac_keycode(k)),
        Err(_) => None,
    }
}

/// The macOS virtual key code of a key.
pub fn mac_keycode(key: KeyName) -> (c: u16)
    ensures
        c == mac_keycode_of(key),
{
    match key {
        KeyName::Space => 49,
        KeyName::Return => 36,
        KeyName::Escape => 53,
        KeyName::Tab => 48,
        KeyName::UpArrow => 126,
        KeyName::DownArrow => 125,
        KeyName::LeftArrow => 123,
        KeyName::RightArrow => 124,
        KeyName::A => 0,
        KeyName::B => 11,
        KeyName::C => 8,
        KeyName::D => 2,
        KeyName::E => 14,
        KeyName::F => 3,
        KeyName::G => 5,
        KeyName::H => 4,
        KeyName::I => 34,
        KeyName::J => 38,
        KeyName::K => 40,
        KeyName::L => 37,
        KeyName::M => 46,
        KeyName::N => 45,
        KeyName::O => 31,
        KeyName::P => 35,
        KeyName::Q => 12,
        KeyName::R => 15,
        KeyName::S => 1,
        KeyName::T => 17,
        KeyName::U => 32,
        KeyName::V => 9,
        KeyName::W => 13,
        KeyName::X => 7,
        KeyName::Y => 16,
        KeyName::Z => 6,
    }
}

/// What keeps a mapping from being captured, checked in this order.
pub enum CaptureProblem {
    UnsupportedCode,
    KeyboardDevice,
    GamepadUnsupported,
    MissingDevice,
    NonNumericCode,
}

/// Whether the operating system name is Linux, the one system where gamepad
/// capture (an exclusive evdev grab) guarantees suppression.
pub open spec fn is_linux(os: Seq<char>) -> bool {
    os == "linux"@
}

/// The problem of a gamepad mapping: outside Linux it cannot be
/// suppressed; on Linux it needs a device path and a numeric key code.
pub open spec fn gamepad_problem(m: Mapping, os: Seq<char>) -> Option<CaptureProblem> {
    if !is_linux(os) {
        Some(CaptureProblem::GamepadUnsupported)
    } else if (match m.device {
        None => true,
        Some(d) => d@.len() == 0,
    }) {
        Some(CaptureProblem::MissingDevice)
    } else if decimal_u16(vstd::utf8::encode_utf8(m.code@)) is None {
        Some(CaptureProblem::NonNumericCode)
    } else {
        None
    }
}

/// The problem of one mapping, if any.
pub open spec fn capture_problem(m: Mapping, os: Seq<char>) -> Option<CaptureProblem> {
    match m.input {
        InputKind::Keyboard => if key_of_code(m.code@) is None {
            Some(CaptureProblem::UnsupportedCode)
        } else if m.device is Some {
            Some(CaptureProblem::KeyboardDevice)
        } else {
            None
        },
        InputKind::Gamepad => gamepad_problem(m, os),
    }
}

/// Whether `r` is the error for the given problem of mapping `m`.
pub open spec fn reports_capture_problem(
    r: Result<(), InputError>,
    m: Mapping,
    os: Seq<char>,
    problem: Option<CaptureProblem>,
) -> bool {
    match problem {
        Some(CaptureProblem::UnsupportedCode) => r matches Err(
            InputError::UnsupportedMappingCode { mapping_id, code },
        ) && mapping_id@ == m.id@ && code@ == m.code@,
        Some(CaptureProblem::KeyboardDevice) => r matches Err(InputError::KeyboardDevice(id)) && id@
            == m.id@,
        Some(CaptureProblem::GamepadUnsupported) => r matches Err(
            InputError::GamepadUnsupported { mapping_id, os: o },
        ) && mapping_id@ == m.id@ && o@ == os,
        Some(CaptureProblem::MissingDevice) => r matches Err(InputError::MissingDevice(id)) && id@
            == m.id@,
        Some(CaptureProblem::NonNumericCode) => r matches Err(
            InputError::NonNumericCode { mapping_id, code },
        ) && mapping_id@ == m.id@ && code@ == m.code@,
        None => r is Ok,
    }
}

/// Checks a gamepad mapping on the operating system named `os` (as
/// `std::env::consts::OS` names it).
pub fn validate_gamepad(mapping: &Mapping, os: &str) -> (r: Result<(), InputError>)
    ensures
        reports_capture_problem(r, *mapping, os@, gamepad_problem(*mapping, os@)),
{
    if !same_text(os, "linux") {
        return Err(InputError::GamepadUnsupported { mapping_id: mapping.id.clone(), os: os.to_owned() });
    }
    let missing = match &mapping.device {
        None => true,
        Some(d) => d.as_str().is_empty(),
    };
    if missing {
        return Err(InputError::MissingDevice(mapping.id.clone()));
    }
    match parse_u16(mapping.code.as_str()) {
        Some(_) => Ok(()),
        None => Err(InputError::NonNumericCode { mapping_id: mapping.id.clone(), code: mapping.code.clone() }),
    }
}

/// Checks that every mapping can be captured with guaranteed suppression on
/// the operating system named `os`; the first mapping that cannot is
/// reported.
pub fn validate(mappings: &[Mapping], os: &str) -> (r: Result<(), InputError>)
    ensures
        r is Ok <==> forall|i: int| 0 <= i < mappings@.len() ==> capture_problem(#[trigger] mappings@[i], os@) is None,
        r is Err ==> exists|i: int|
            0 <= i < mappings@.len() && (forall|j: int| 0 <= j < i ==> capture_problem(#[trigger] mappings@[j], os@) is None)
                && reports_capture_problem(r, mappings@[i], os@, capture_problem(mappings@[i], os@)),
{
    let n = mappings.len();
    for i in 0..n
        invariant
            n == mappings@.len(),
            forall|j: int| 0 <= j < i ==> capture_problem(#[trigger] mappings@[j], os@) is None,
    {
        let m = &mappings[i];
        let r = match m.input {
            InputKind::Keyboard => {
                match parse_key(m.code.as_str()) {
                    Err(_) => Err(InputError::UnsupportedMappingCode { mapping_id: m.id.clone(), code: m.code.clone() }),
                    Ok(_) => if m.device.is_some() {
                        Err(InputError::KeyboardDevice(m.id.clone()))
                    } else {
                        Ok(())
                    },
                }
            },
            InputKind::Gamepad => validate_gamepad(m, os),
        };
        proof {
            assert(reports_capture_problem(r, *m, os@, capture_problem(*m, os@)));
        }
        if r.is_err() {
            return r;
        }
    }
    Ok(())
}

/// The ids of the keyboard mappings among `ms` whose code names `key`, in
/// order.
pub open spec fn keyboard_ids(ms: Seq<Mapping>, key: KeyName) -> Seq<Seq<char>>
    decreases ms.len(),
{
    if ms.len() == 0 {
        Seq::empty()
    } else {
        let p = keyboard_ids(ms.drop_last(), key);
        let m = ms.last();
        if m.input == InputKind::Keyboard && key_of_code(m.code@) == Some(key) {
            p.push(m.id@)
        } else {
            p
        }
    }
}

/// The ids of the keyboard mappings among `ms` whose code names the key
/// with macOS virtual key code `keycode`, in order.
pub open spec fn mac_keycode_ids_of(ms: Seq<Mapping>, keycode: u16) -> Seq<Seq<char>>
    decreases ms.len(),
{
    if ms.len() == 0 {
        Seq::empty()
    } else {
        let p = mac_keycode_ids_of(ms.drop_last(), keycode);
        let m = ms.last();
        if m.input == InputKind::Keyboard && (key_of_code(m.code@) matches Some(k)
            && mac_keycode_of(k) == keycode) {
            p.push(m.id@)
        } else {
            p
        }
    }
}

/// Whether gamepad mapping `m` reads key `code` of device `device`.
pub open spec fn reads_gamepad_key(m: Mapping, device: Seq<char>, code: u16) -> bool {
    &&& m.input == InputKind::Gamepad
    &&& m.device matches Some(d) && d@ == device
    &&& decimal_u16(vstd::utf8::encode_utf8(m.code@)) == Some(code)
}

/// The ids of the gamepad mappings among `ms` that read key `code` of
/// `device`, in order.
pub open spec fn gamepad_ids(ms: Seq<Mapping>, device: Seq<char>, code: u16) -> Seq<Seq<char>>
    decreases ms.len(),
{
    if ms.len() == 0 {
        Seq::empty()
    } else {
        let p = gamepad_ids(ms.drop_last(), device, code);
        if reads_gamepad_key(ms.last(), device, code) {
            p.push(ms.last().id@)
        } else {
            p
        }
    }
}

/// The distinct device paths of the gamepad mappings among `ms`, in the
/// order they first appear.
pub open spec fn gamepad_device_paths(ms: Seq<Mapping>) -> Seq<Seq<char>>
    decreases ms.len(),
{
    if ms.len() == 0 {
        Seq::empty()
    } else {
        let p = gamepad_device_paths(ms.drop_last());
        let m = ms.last();
        if m.input == InputKind::Gamepad && m.device is Some && !p.contains(m.device->Some_0@) {
            p.push(m.device->Some_0@)
        } else {
            p
        }
    }
}

pub open spec fn string_views(v: Seq<String>) -> Seq<Seq<char>> {
    v.map_values(|s: String| s@)
}

/// The keyboard mappings that a key with macOS virtual key code `keycode`
/// feeds, in order.
pub fn mac_keycode_ids(mappings: &[Mapping], keycode: u16) -> (ids: Vec<String>)
    ensures
        string_views(ids@) == mac_keycode_ids_of(mappings@, keycode),
{
    let n = mappings.len();
    let mut ids: Vec<String> = Vec::new();
    for k in 0..n
        invariant
            n == mappings@.len(),
            string_views(ids@) == mac_keycode_ids_of(mappings@.take(k as int), keycode),
    {
        let m = &mappings[k];
        proof {
            assert(mappings@.take(k + 1).drop_last() =~= mappings@.take(k as int));
            assert(mappings@.take(k + 1).last() == *m);
        }
        let keyboard = match m.input {
            InputKind::Keyboard => true,
            InputKind::Gamepad => false,
        };
        if keyboard {
            match name_to_keycode(m.code.as_str()) {
                Some(c) => if c == keycode {
                    let ghost before = ids@;
                    ids.push(m.id.clone());
                    proof {
                        assert(string_views(ids@) =~= string_views(before).push(m.id@));
                    }
                },
                None => {},
            }
        }
    }
    proof {
        assert(mappings@.take(n as int) =~= mappings@);
    }
    ids
}

/// The keyboard mappings that a press or release of `key` feeds, in order.
pub fn keyboard_mapping_ids(mappings: &[Mapping], key: KeyName) -> (ids: Vec<String>)
    ensures
        string_views(ids@) == keyboard_ids(mappings@, key),
{
    let n = mappings.len();
    let mut ids: Vec<String> = Vec::new();
    for k in 0..n
        invariant
            n == mappings@.len(),
            string_views(ids@) == keyboard_ids(mappings@.take(k as int), key),
    {
        let m = &mappings[k];
        proof {
            assert(mappings@.take(k + 1).drop_last() =~= mappings@.take(k as int));
            assert(mappings@.take(k + 1).last() == *m);
        }
        let keyboard = match m.input {
            InputKind::Keyboard => true,
            InputKind::Gamepad => false,
        };
        if keyboard {
            match parse_key(m.code.as_str()) {
                Ok(k2) => if k2 == key {
                    let ghost before = ids@;
                    ids.push(m.id.clone());
                    proof {
                        assert(string_views(ids@) =~= string_views(before).push(m.id@));
                    }
                },
                Err(_) => {},
            }
        }
    }
    proof {
        assert(mappings@.take(n as int) =~= mappings@);
    }
    ids
}

/// The gamepad mappings that key `code` of `device` feeds, in order.
pub fn gamepad_mapping_ids(mappings: &[Mapping], device: &str, code: u16) -> (ids: Vec<String>)
    ensures
        string_views(ids@) == gamepad_ids(mappings@, device@, code),
{
    let n = mappings.len();
    let mut ids: Vec<String> = Vec::new();
    for k in 0..n
        invariant
            n == mappings@.len(),
            string_views(ids@) == gamepad_ids(mappings@.take(k as int), device@, code),
    {
        let m = &mappings[k];
        proof {
            assert(mappings@.take(k + 1).drop_last() =~= mappings@.take(k as int));
            assert(mappings@.take(k + 1).last() == *m);
        }
        let gamepad = match m.input {
            InputKind::Keyboard => false,
            InputKind::Gamepad => true,
        };
        let same_device = match &m.device {
            Some(d) => same_text(d.as_str(), device),
            None => false,
        };
        if gamepad && same_device {
            match parse_u16(m.code.as_str()) {
                Some(c) => if c == code {
                    let ghost before = ids@;
                    ids.push(m.id.clone());
                    proof {
                        assert(string_views(ids@) =~= string_views(before).push(m.id@));
                    }
                },
                None => {},
            }
        }
    }
    proof {
        assert(mappings@.take(n as int) =~= mappings@);
    }
    ids
}

/// The device paths to grab for the gamepad mappings, each once.
pub fn gamepad_devices(mappings: &[Mapping]) -> (paths: Vec<String>)
    ensures
        string_views(paths@) == gamepad_device_paths(mappings@),
{
    let n = mappings.len();
    let mut paths: Vec<String> = Vec::new();
    for k in 0..n
        invariant
            n == mappings@.len(),
            string_views(paths@) == gamepad_device_paths(mappings@.take(k as int)),
    {
        let m = &mappings[k];
        let ghost pre = gamepad_device_paths(mappings@.take(k as int));
        proof {
            assert(mappings@.take(k + 1).drop_last() =~= mappings@.take(k as int));
            assert(mappings@.take(k + 1).last() == *m);
        }
        let gamepad = match m.input {
            InputKind::Keyboard => false,
            InputKind::Gamepad => true,
        };
        if gamepad {
            match &m.device {
                Some(d) => {
                    let mut seen = false;
                    let mut j: usize = 0;
                    while j < paths.len()
                        invariant
                            j <= paths@.len(),
                            string_views(paths@) == pre,
                            seen ==> pre.contains(d@),
                            !seen ==> forall|q: int| 0 <= q < j ==> pre[q] != d@,
                        decreases paths@.len() - j,
                    {
                        if same_text(paths[j].as_str(), d.as_str()) {
                            proof {
                                assert(pre[j as int] == paths@[j as int]@);
                            }
                            seen = true;
                        }
                        j = j + 1;
                    }
                    if !seen {
                        let ghost before = paths@;
                        paths.push(d.clone());
                        proof {
                            assert(string_views(paths@) =~= string_views(before).push(d@));
                        }
                    }
                },
                None => {},
            }
        }
    }
    proof {
        assert(mappings@.take(n as int) =~= mappings@);
    }
    paths
}

/// The edge an evdev key event value reports: 1 is a press, 0 a release,
/// anything else (such as a repeat) is ignored.
pub fn gamepad_action(value: i32) -> (a: Option<Action>)
    ensures
        a == (if value == 1 {
            Some(Action::Pressed)
        } else if value == 0 {
            Some(Action::Released)
        } else {
            None
        }),
{
    if value == 1 {
        Some(Action::Pressed)
    } else if value == 0 {
        Some(Action::Released)
    } else {
        None
    }
}

/// One binary-switch edge for each mapping id, in order: confidence 100.0
/// for a press, 0.0 for a release.
pub fn binary_edges(ids: &Vec<String>, action: Action) -> (edges: Vec<PhysicalEvent>)
    ensures
        edges@.len() == ids@.len(),
        forall|i: int|
            0 <= i < edges@.len() ==> (#[trigger] edges@[i]).mapping_id@ == ids@[i]@ && edges@[i].action
                == action && edges@[i].confidence == Some(
                Confidence {
                    bits: if action == Action::Pressed {
                        CONFIDENCE_FULL_BITS
                    } else {
                        0u32
                    },
                },
            ),
{
    let mut edges: Vec<PhysicalEvent> = Vec::new();
    for i in 0..ids.len()
        invariant
            edges@.len() == i,
            forall|j: int|
                0 <= j < i ==> (#[trigger] edges@[j]).mapping_id@ == ids@[j]@ && edges@[j].action
                    == action && edges@[j].confidence == Some(
                    Confidence {
                        bits: if action == Action::Pressed {
                            CONFIDENCE_FULL_BITS
                        } else {
                            0u32
                        },
                    },
                ),
    {
        edges.push(
            PhysicalEvent {
                mapping_id: ids[i].clone(),
                action,
                confidence: Some(binary_confidence(action)),
            },
        );
    }
    edges
}

/// Whether a captured key event is withheld from the operating system: only
/// while capture runs, for a key some mapping uses, and once every edge it
/// makes reached the broker. Otherwise the key passes through.
pub fn suppresses_key(capture_enabled: bool, mapped: bool, delivered: bool) -> (s: bool)
    ensures
        s == (capture_enabled && mapped && delivered),
{
    capture_enabled && mapped && delivered
}

/// Why a pause or resume of the grabbing capture backends failed.
#[derive(Debug, Clone, Copy, PartialEq, Eq, Structural)]
pub enum BackendFailure {
    /// A backend had stopped and could not be sent the command.
    Stopped,
    /// The backend at this position among those sent to failed or did not
    /// acknowledge.
    Reply(usize),
}

/// The failure to report for one command to every backend: `sent[i]` is
/// whether backend `i` took the command, and `replies` holds, in order, for
/// each backend that took it, whether it acknowledged success. A backend
/// that could not be sent to is reported first; otherwise the first failed
/// reply.
pub fn backend_failure(sent: &[bool], replies: &[bool]) -> (f: Option<BackendFailure>)
    ensures
        (exists|i: int| 0 <= i < sent@.len() && !sent@[i]) ==> f == Some(BackendFailure::Stopped),
        (forall|i: int| 0 <= i < sent@.len() ==> sent@[i]) ==> match f {
            Some(BackendFailure::Reply(j)) => j < replies@.len() && !replies@[j as int] && forall|k: int|
                0 <= k < j ==> replies@[k],
            Some(BackendFailure::Stopped) => false,
            None => forall|k: int| 0 <= k < replies@.len() ==> replies@[k],
        },
{
    let n = sent.len();
    for i in 0..n
        invariant
            n == sent@.len(),
            forall|k: int| 0 <= k < i ==> sent@[k],
    {
        if !sent[i] {
            return Some(BackendFailure::Stopped);
        }
    }
    let m = replies.len();
    for j in 0..m
        invariant
            m == replies@.len(),
            forall|k: int| 0 <= k < sent@.len() ==> sent@[k],
            forall|k: int| 0 <= k < j ==> replies@[k],
    {
        if !replies[j] {
            return Some(BackendFailure::Reply(j));
        }
    }
    None
}

/// The position in the alphabet of a letter key (`A` is 0, `Z` is 25);
/// -1 for the other keys.
pub open spec fn alphabet_position(k: KeyName) -> int {
    match k {
        KeyName::A => 0,
        KeyName::B => 1,
        KeyName::C => 2,
        KeyName::D => 3,
        KeyName::E => 4,
        KeyName::F => 5,
        KeyName::G => 6,
        KeyName::H => 7,
        KeyName::I => 8,
        KeyName::J => 9,
        KeyName::K => 10,
        KeyName::L => 11,
        KeyName::M => 12,
        KeyName::N => 13,
        KeyName::O => 14,
        KeyName::P => 15,
        KeyName::Q => 16,
        KeyName::R => 17,
        KeyName::S => 18,
        KeyName::T => 19,
        KeyName::U => 20,
        KeyName::V => 21,
        KeyName::W => 22,
        KeyName::X => 23,
        KeyName::Y => 24,
        KeyName::Z => 25,
        _ => -1,
    }
}

/// A one-character code that is an ASCII letter, in either case, names the
/// key of that letter: the key at the letter's position in the alphabet.
pub proof fn lemma_letter_codes_name_their_letter(c: char)
    requires
        ('a' <= c && c <= 'z') || ('A' <= c && c <= 'Z'),
    ensures
        key_of_code(seq![c]) matches Some(k) && alphabet_position(k) == (if c <= 'Z' {
            c as u32 - 'A' as u32
        } else {
            c as u32 - 'a' as u32
        }),
{
    crate::text::lemma_ascii_encoding(seq![c]);
    let b = c as u32 as u8;
    assert(seq![c].map_values(|x: char| x as u32 as u8) =~= seq![b]);
    assert(lower_bytes(seq![b]) =~= seq![ascii_lower(b)]);
    let w = seq![ascii_lower(b)];
    assert(97 <= w[0] <= 122);
    assert(w.len() == 1);
}

/// Different keys have different macOS virtual key codes, so a captured key
/// code identifies one key.
pub proof fn lemma_mac_keycodes_are_distinct(a: KeyName, b: KeyName)
    requires
        a != b,
    ensures
        mac_keycode_of(a) != mac_keycode_of(b),
{
}

} // verus!
