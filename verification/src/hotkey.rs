//! Hotkeys as the settings spell them, such as `Ctrl+Shift+K`.

use crate::text::{text_is, texts};
use vstd::prelude::*;
use vstd::string::StrSliceExecFns;

verus! {

/// The keys that a hotkey can name.
#[derive(Debug, Clone, Copy, PartialEq, Eq, Structural)]
pub enum KeyCode {
    KeyA,
    KeyB,
    KeyC,
    KeyD,
    KeyE,
    KeyF,
    KeyG,
    KeyH,
    KeyI,
    KeyJ,
    KeyK,
    KeyL,
    KeyM,
    KeyN,
    KeyO,
    KeyP,
    KeyQ,
    KeyR,
    KeyS,
    KeyT,
    KeyU,
    KeyV,
    KeyW,
    KeyX,
    KeyY,
    KeyZ,
    Digit0,
    Digit1,
    Digit2,
    Digit3,
    Digit4,
    Digit5,
    Digit6,
    Digit7,
    Digit8,
    Digit9,
    F1,
    F2,
    F3,
    F4,
    F5,
    F6,
    F7,
    F8,
    F9,
    F10,
    F11,
    F12,
    Space,
    Escape,
    Enter,
    Tab,
}

/// The modifier keys of a hotkey.
#[derive(Debug, Clone, Copy, PartialEq, Eq, Structural)]
pub struct Modifiers {
    pub control: bool,
    pub meta: bool,
    pub alt: bool,
    pub shift: bool,
}

/// A hotkey: a key together with the modifiers held down with it.
#[derive(Debug, Clone, Copy, PartialEq, Eq, Structural)]
pub struct Hotkey {
    pub modifiers: Modifiers,
    pub key: KeyCode,
}

/// What `str::to_lowercase` makes of a text.
pub uninterp spec fn lowercase_text(text: Seq<char>) -> Seq<char>;

/// What `str::to_uppercase` makes of a text.
pub uninterp spec fn uppercase_text(text: Seq<char>) -> Seq<char>;

/// What `str::trim` leaves of a text.
pub uninterp spec fn trimmed_text(text: Seq<char>) -> Seq<char>;

/// Calls `str::to_lowercase`, which gives the text in small letters as
/// Unicode defines them. The result depends on the text alone.
#[verifier::external_body]
fn to_lower(text: &str) -> (lower: String)
    ensures
        lower@ == lowercase_text(text@),
{
    text.to_lowercase()
}

/// Calls `str::to_uppercase`, which gives the text in capital letters as
/// Unicode defines them. The result depends on the text alone.
#[verifier::external_body]
fn to_upper(text: &str) -> (upper: String)
    ensures
        upper@ == uppercase_text(text@),
{
    text.to_uppercase()
}

/// Calls `str::trim`, which leaves out the white space at both ends of a
/// text. The result depends on the text alone.
#[verifier::external_body]
fn trim_text(text: &str) -> (trimmed: String)
    ensures
        trimmed@ == trimmed_text(text@),
{
    text.trim().to_string()
}

/// The key that a name in capital letters stands for: a letter, a digit,
/// `F1` to `F12`, `SPACE`, `ESCAPE`, `ENTER` or `TAB`.
pub open spec fn key_code_of(upper: Seq<char>) -> Option<KeyCode> {
    if upper == "A"@ {
        Some(KeyCode::KeyA)
    } else if upper == "B"@ {
        Some(KeyCode::KeyB)
    } else if upper == "C"@ {
        Some(KeyCode::KeyC)
    } else if upper == "D"@ {
        Some(KeyCode::KeyD)
    } else if upper == "E"@ {
        Some(KeyCode::KeyE)
    } else if upper == "F"@ {
        Some(KeyCode::KeyF)
    } else if upper == "G"@ {
        Some(KeyCode::KeyG)
    } else if upper == "H"@ {
        Some(KeyCode::KeyH)
    } else if upper == "I"@ {
        Some(KeyCode::KeyI)
    } else if upper == "J"@ {
        Some(KeyCode::KeyJ)
    } else if upper == "K"@ {
        Some(KeyCode::KeyK)
    } else if upper == "L"@ {
        Some(KeyCode::KeyL)
    } else if upper == "M"@ {
        Some(KeyCode::KeyM)
    } else if upper == "N"@ {
        Some(KeyCode::KeyN)
    } else if upper == "O"@ {
        Some(KeyCode::KeyO)
    } else if upper == "P"@ {
        Some(KeyCode::KeyP)
    } else if upper == "Q"@ {
        Some(KeyCode::KeyQ)
    } else if upper == "R"@ {
        Some(KeyCode::KeyR)
    } else if upper == "S"@ {
        Some(KeyCode::KeyS)
    } else if upper == "T"@ {
        Some(KeyCode::KeyT)
    } else if upper == "U"@ {
        Some(KeyCode::KeyU)
    } else if upper == "V"@ {
        Some(KeyCode::KeyV)
    } else if upper == "W"@ {
        Some(KeyCode::KeyW)
    } else if upper == "X"@ {
        Some(KeyCode::KeyX)
    } else if upper == "Y"@ {
        Some(KeyCode::KeyY)
    } else if upper == "Z"@ {
        Some(KeyCode::KeyZ)
    } else if upper == "0"@ {
        Some(KeyCode::Digit0)
    } else if upper == "1"@ {
        Some(KeyCode::Digit1)
    } else if upper == "2"@ {
        Some(KeyCode::Digit2)
    } else if upper == "3"@ {
        Some(KeyCode::Digit3)
    } else if upper == "4"@ {
        Some(KeyCode::Digit4)
    } else if upper == "5"@ {
        Some(KeyCode::Digit5)
    } else if upper == "6"@ {
        Some(KeyCode::Digit6)
    } else if upper == "7"@ {
        Some(KeyCode::Digit7)
    } else if upper == "8"@ {
        Some(KeyCode::Digit8)
    } else if upper == "9"@ {
        Some(KeyCode::Digit9)
    } else if upper == "F1"@ {
        Some(KeyCode::F1)
    } else if upper == "F2"@ {
        Some(KeyCode::F2)
    } else if upper == "F3"@ {
        Some(KeyCode::F3)
    } else if upper == "F4"@ {
        Some(KeyCode::F4)
    } else if upper == "F5"@ {
        Some(KeyCode::F5)
    } else if upper == "F6"@ {
        Some(KeyCode::F6)
    } else if upper == "F7"@ {
        Some(KeyCode::F7)
    } else if upper == "F8"@ {
        Some(KeyCode::F8)
    } else if upper == "F9"@ {
        Some(KeyCode::F9)
    } else if upper == "F10"@ {
        Some(KeyCode::F10)
    } else if upper == "F11"@ {
        Some(KeyCode::F11)
    } else if upper == "F12"@ {
        Some(KeyCode::F12)
    } else if upper == "SPACE"@ {
        Some(KeyCode::Space)
    } else if upper == "ESCAPE"@ {
        Some(KeyCode::Escape)
    } else if upper == "ENTER"@ {
        Some(KeyCode::Enter)
    } else if upper == "TAB"@ {
        Some(KeyCode::Tab)
    } else {
        None
    }
}

/// Tells the key that a name in capital letters stands for.
pub fn key_code_for(upper: &String) -> (r: Option<KeyCode>)
    ensures
        r == key_code_of(upper@),
{
    if text_is(upper, "A") {
        Some(KeyCode::KeyA)
    } else if text_is(upper, "B") {
        Some(KeyCode::KeyB)
    } else if text_is(upper, "C") {
        Some(KeyCode::KeyC)
    } else if text_is(upper, "D") {
        Some(KeyCode::KeyD)
    } else if text_is(upper, "E") {
        Some(KeyCode::KeyE)
    } else if text_is(upper, "F") {
        Some(KeyCode::KeyF)
    } else if text_is(upper, "G") {
        Some(KeyCode::KeyG)
    } else if text_is(upper, "H") {
        Some(KeyCode::KeyH)
    } else if text_is(upper, "I") {
        Some(KeyCode::KeyI)
    } else if text_is(upper, "J") {
        Some(KeyCode::KeyJ)
    } else if text_is(upper, "K") {
        Some(KeyCode::KeyK)
    } else if text_is(upper, "L") {
        Some(KeyCode::KeyL)
    } else if text_is(upper, "M") {
        Some(KeyCode::KeyM)
    } else if text_is(upper, "N") {
        Some(KeyCode::KeyN)
    } else if text_is(upper, "O") {
        Some(KeyCode::KeyO)
    } else if text_is(upper, "P") {
        Some(KeyCode::KeyP)
    } else if text_is(upper, "Q") {
        Some(KeyCode::KeyQ)
    } else if text_is(upper, "R") {
        Some(KeyCode::KeyR)
    } else if text_is(upper, "S") {
        Some(KeyCode::KeyS)
    } else if text_is(upper, "T") {
        Some(KeyCode::KeyT)
    } else if text_is(upper, "U") {
        Some(KeyCode::KeyU)
    } else if text_is(upper, "V") {
        Some(KeyCode::KeyV)
    } else if text_is(upper, "W") {
        Some(KeyCode::KeyW)
    } else if text_is(upper, "X") {
        Some(KeyCode::KeyX)
    } else if text_is(upper, "Y") {
        Some(KeyCode::KeyY)
    } else if text_is(upper, "Z") {
        Some(KeyCode::KeyZ)
    } else if text_is(upper, "0") {
        Some(KeyCode::Digit0)
    } else if text_is(upper, "1") {
        Some(KeyCode::Digit1)
    } else if text_is(upper, "2") {
        Some(KeyCode::Digit2)
    } else if text_is(upper, "3") {
        Some(KeyCode::Digit3)
    } else if text_is(upper, "4") {
        Some(KeyCode::Digit4)
    } else if text_is(upper, "5") {
        Some(KeyCode::Digit5)
    } else if text_is(upper, "6") {
        Some(KeyCode::Digit6)
    } else if text_is(upper, "7") {
        Some(KeyCode::Digit7)
    } else if text_is(upper, "8") {
        Some(KeyCode::Digit8)
    } else if text_is(upper, "9") {
        Some(KeyCode::Digit9)
    } else if text_is(upper, "F1") {
        Some(KeyCode::F1)
    } else if text_is(upper, "F2") {
        Some(KeyCode::F2)
    } else if text_is(upper, "F3") {
        Some(KeyCode::F3)
    } else if text_is(upper, "F4") {
        Some(KeyCode::F4)
    } else if text_is(upper, "F5") {
        Some(KeyCode::F5)
    } else if text_is(upper, "F6") {
        Some(KeyCode::F6)
    } else if text_is(upper, "F7") {
        Some(KeyCode::F7)
    } else if text_is(upper, "F8") {
        Some(KeyCode::F8)
    } else if text_is(upper, "F9") {
        Some(KeyCode::F9)
    } else if text_is(upper, "F10") {
        Some(KeyCode::F10)
    } else if text_is(upper, "F11") {
        Some(KeyCode::F11)
    } else if text_is(upper, "F12") {
        Some(KeyCode::F12)
    } else if text_is(upper, "SPACE") {
        Some(KeyCode::Space)
    } else if text_is(upper, "ESCAPE") {
        Some(KeyCode::Escape)
    } else if text_is(upper, "ENTER") {
        Some(KeyCode::Enter)
    } else if text_is(upper, "TAB") {
        Some(KeyCode::Tab)
    } else {
        None
    }
}

/// The key that a name stands for, whatever the case of its letters.
pub open spec fn key_code_named(key: Seq<char>) -> Option<KeyCode> {
    key_code_of(uppercase_text(key))
}

/// Tells the key that a name stands for, whatever the case of its letters.
pub fn parse_key_code(key: &str) -> (r: Option<KeyCode>)
    ensures
        r == key_code_named(key@),
{
    let upper = to_upper(key);
    key_code_for(&upper)
}

/// What has been read of a hotkey: the modifiers seen, and the key that
/// the last part which was no modifier named, if it named one.
#[derive(Debug, Clone, Copy, PartialEq, Eq, Structural)]
pub struct HotkeyParts {
    pub modifiers: Modifiers,
    pub key: Option<KeyCode>,
}

/// What has been read of a hotkey after one more part, given the part in
/// small letters and the key that the part names: a modifier's name adds
/// the modifier, any other part sets the key.
pub open spec fn with_part(parts: HotkeyParts, lower: Seq<char>, key: Option<KeyCode>)
    -> HotkeyParts {
    if lower == "ctrl"@ || lower == "control"@ {
        HotkeyParts { modifiers: Modifiers { control: true, ..parts.modifiers }, ..parts }
    } else if lower == "cmd"@ || lower == "command"@ || lower == "meta"@ {
        HotkeyParts { modifiers: Modifiers { meta: true, ..parts.modifiers }, ..parts }
    } else if lower == "alt"@ || lower == "option"@ {
        HotkeyParts { modifiers: Modifiers { alt: true, ..parts.modifiers }, ..parts }
    } else if lower == "shift"@ {
        HotkeyParts { modifiers: Modifiers { shift: true, ..parts.modifiers }, ..parts }
    } else {
        HotkeyParts { key: key, ..parts }
    }
}

/// Takes one more part of a hotkey into account.
pub fn add_part(parts: HotkeyParts, lower: &String, named: Option<KeyCode>) -> (r: HotkeyParts)
    ensures
        r == with_part(parts, lower@, named),
{
    let modifiers = parts.modifiers;
    if text_is(lower, "ctrl") || text_is(lower, "control") {
        HotkeyParts { modifiers: Modifiers { control: true, ..modifiers }, ..parts }
    } else if text_is(lower, "cmd") || text_is(lower, "command") || text_is(lower, "meta") {
        HotkeyParts { modifiers: Modifiers { meta: true, ..modifiers }, ..parts }
    } else if text_is(lower, "alt") || text_is(lower, "option") {
        HotkeyParts { modifiers: Modifiers { alt: true, ..modifiers }, ..parts }
    } else if text_is(lower, "shift") {
        HotkeyParts { modifiers: Modifiers { shift: true, ..modifiers }, ..parts }
    } else {
        HotkeyParts { key: named, ..parts }
    }
}

/// What has been read of a hotkey before its first part.
pub open spec fn no_parts() -> HotkeyParts {
    HotkeyParts {
        modifiers: Modifiers { control: false, meta: false, alt: false, shift: false },
        key: None,
    }
}

/// The pieces of a text between the separators from position `i` on, the
/// first of them beginning at `start`.
pub open spec fn split_from(text: Seq<char>, separator: char, start: int, i: int) -> Seq<
    Seq<char>,
>
    decreases text.len() - i,
{
    if i < 0 || i >= text.len() {
        seq![text.subrange(start, text.len() as int)]
    } else if text[i] == separator {
        seq![text.subrange(start, i)] + split_from(text, separator, i + 1, i + 1)
    } else {
        split_from(text, separator, start, i + 1)
    }
}

/// The pieces of a text between the separators. A text without separator
/// is one piece; a separator at the end leaves an empty piece behind it.
pub open spec fn pieces(text: Seq<char>, separator: char) -> Seq<Seq<char>> {
    split_from(text, separator, 0, 0)
}

/// Splits a text at each occurrence of a separator.
pub fn split_at_each(text: &str, separator: char) -> (parts: Vec<String>)
    ensures
        texts(parts@) == pieces(text@, separator),
{
    let n: usize = text.unicode_len();
    let mut parts: Vec<String> = Vec::new();
    let mut start: usize = 0;
    let mut i: usize = 0;
    assert(texts(parts@) =~= Seq::<Seq<char>>::empty());
    while i < n
        invariant
            n == text@.len(),
            start <= i <= n,
            pieces(text@, separator) == texts(parts@) + split_from(
                text@,
                separator,
                start as int,
                i as int,
            ),
        decreases n - i,
    {
        if text.get_char(i) == separator {
            let ghost before = texts(parts@);
            let piece = text.substring_char(start, i).to_owned();
            parts.push(piece);
            assert(texts(parts@) =~= before.push(text@.subrange(start as int, i as int)));
            assert(before + (seq![text@.subrange(start as int, i as int)] + split_from(
                text@,
                separator,
                i + 1,
                i + 1,
            )) =~= texts(parts@) + split_from(text@, separator, i + 1, i + 1));
            start = i + 1;
        }
        i = i + 1;
    }
    let ghost before = texts(parts@);
    let piece = text.substring_char(start, n).to_owned();
    parts.push(piece);
    assert(texts(parts@) =~= before + seq![text@.subrange(start as int, n as int)]);
    parts
}

/// What has been read of a hotkey after the first `count` of its parts.
pub open spec fn parts_read(parts: Seq<Seq<char>>, count: int) -> HotkeyParts
    decreases count,
{
    if count <= 0 {
        no_parts()
    } else {
        let part = trimmed_text(parts[count - 1]);
        with_part(parts_read(parts, count - 1), lowercase_text(part), key_code_named(part))
    }
}

/// The hotkey that a text such as `Ctrl+Shift+K` stands for: its parts are
/// separated by `+` and may be surrounded by white space; modifiers may
/// come in any case and order; the last other part names the key. There
/// is no hotkey where that part names no key.
pub open spec fn hotkey_of(text: Seq<char>) -> Option<Hotkey> {
    let parts = pieces(text, '+');
    let read = parts_read(parts, parts.len() as int);
    match read.key {
        Some(key) => Some(Hotkey { modifiers: read.modifiers, key }),
        None => None,
    }
}

/// Reads a hotkey such as `Ctrl+Shift+K`.
pub fn parse_hotkey(hotkey: &str) -> (r: Option<Hotkey>)
    ensures
        r == hotkey_of(hotkey@),
{
    let parts = split_at_each(hotkey, '+');
    let mut read = HotkeyParts {
        modifiers: Modifiers { control: false, meta: false, alt: false, shift: false },
        key: None,
    };
    let mut i: usize = 0;
    while i < parts.len()
        invariant
            i <= parts@.len(),
            texts(parts@) == pieces(hotkey@, '+'),
            read == parts_read(texts(parts@), i as int),
        decreases parts@.len() - i,
    {
        assert(texts(parts@)[i as int] == parts@[i as int]@);
        let part = trim_text(parts[i].as_str());
        let lower = to_lower(part.as_str());
        let named = parse_key_code(part.as_str());
        read = add_part(read, &lower, named);
        i = i + 1;
    }
    match read.key {
        Some(key) => Some(Hotkey { modifiers: read.modifiers, key }),
        None => None,
    }
}

} // verus!
