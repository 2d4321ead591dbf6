//! Accelerator tables: how each backend names a key pattern.
//!
//! The per-backend code generators emit a table entry for each trigger of an
//! action; what goes into an entry (key codes, modifier masks, key names) is
//! decided here.
use vstd::prelude::*;

use crate::keycode::{key_name, Key, KeyPattern, ModFlags};

verus! {

/// Why a key pattern has no binding on a backend.
#[derive(Debug, Clone, Copy, PartialEq, Eq, Structural)]
pub enum AccelError {
    /// The key is not supported by the backend.
    UnsupportedKey(Key),
    /// The character is out of the Unicode Basic Multilingual Plane.
    OutOfBmp,
    /// The `Super` modifier is not supported by the backend.
    SuperUnsupported,
}

/// The key is on the numeric keypad.
pub open spec fn is_numpad(k: Key) -> bool {
    match k {
        Key::Numpad0 | Key::Numpad1 | Key::Numpad2 | Key::Numpad3 | Key::Numpad4 | Key::Numpad5 | Key::Numpad6 | Key::Numpad7 | Key::Numpad8 | Key::Numpad9 | Key::NumpadMultiply | Key::NumpadAdd | Key::NumpadSeparator | Key::NumpadSubtract | Key::NumpadDecimal | Key::NumpadDivide => true,
        _ => false,
    }
}

// ----------------------------------------------------------------------------
// macOS

/// `NSEventModifierFlagShift`.
pub const NS_SHIFT_KEY_MASK: u32 = 1 << 17;

/// `NSEventModifierFlagControl`.
pub const NS_CONTROL_KEY_MASK: u32 = 1 << 18;

/// `NSEventModifierFlagOption`.
pub const NS_ALTERNATE_KEY_MASK: u32 = 1 << 19;

/// `NSEventModifierFlagCommand`.
pub const NS_COMMAND_KEY_MASK: u32 = 1 << 20;

/// `NSEventModifierFlagNumericPad`.
pub const NS_NUMERIC_PAD_KEY_MASK: u32 = 1 << 21;

/// A key binding of the macOS backend: the event matches if
/// `event.modifierFlags >> 16 & mod_mask == mod_flags` and its characters
/// are `charcode`.
#[derive(Debug, Clone, Copy, PartialEq, Eq, Structural)]
pub struct MacosKeyBinding {
    pub mod_mask: u16,
    pub mod_flags: u16,
    pub charcode: u16,
}

/// The UTF-16 character code that AppKit reports for a key.
pub open spec fn macos_charcode(k: Key, shift: bool) -> Option<u16> {
    match k {
        Key::Char(c) => if (c as u32) < 0x10000 {
            Some(c as u16)
        } else {
            None
        },
        Key::Tab => if shift {
            Some(0x0019u16)
        } else {
            Some(0x0009u16)
        },
        Key::Backspace => Some(0x0008u16),
        Key::Return => Some(0x0003u16),
        Key::Escape => Some(0x001bu16),
        Key::PageUp => Some(0xf72cu16),
        Key::PageDown => Some(0xf72du16),
        Key::End => Some(0xf72bu16),
        Key::Home => Some(0xf729u16),
        Key::Left => Some(0xf702u16),
        Key::Up => Some(0xf700u16),
        Key::Right => Some(0xf703u16),
        Key::Down => Some(0xf701u16),
        Key::Insert => Some(0xf727u16),
        Key::Delete => Some(0x007fu16),
        Key::Numpad0 => Some(0x30u16),
        Key::Numpad1 => Some(0x31u16),
        Key::Numpad2 => Some(0x32u16),
        Key::Numpad3 => Some(0x33u16),
        Key::Numpad4 => Some(0x34u16),
        Key::Numpad5 => Some(0x35u16),
        Key::Numpad6 => Some(0x36u16),
        Key::Numpad7 => Some(0x37u16),
        Key::Numpad8 => Some(0x38u16),
        Key::Numpad9 => Some(0x39u16),
        Key::NumpadMultiply => Some(0x2au16),
        Key::NumpadAdd => Some(0x2bu16),
        Key::NumpadSeparator => Some(0x2cu16),
        Key::NumpadSubtract => Some(0x2du16),
        Key::NumpadDecimal => Some(0x2eu16),
        Key::NumpadDivide => Some(0x2fu16),
        Key::F1 => Some(0xf704u16),
        Key::F2 => Some(0xf705u16),
        Key::F3 => Some(0xf706u16),
        Key::F4 => Some(0xf707u16),
        Key::F5 => Some(0xf708u16),
        Key::F6 => Some(0xf709u16),
        Key::F7 => Some(0xf70au16),
        Key::F8 => Some(0xf70bu16),
        Key::F9 => Some(0xf70cu16),
        Key::F10 => Some(0xf70du16),
        Key::F11 => Some(0xf70eu16),
        Key::F12 => Some(0xf70fu16),
        Key::F13 => Some(0xf710u16),
        Key::F14 => Some(0xf711u16),
        Key::F15 => Some(0xf712u16),
        Key::F16 => Some(0xf713u16),
        Key::F17 => Some(0xf714u16),
        Key::F18 => Some(0xf715u16),
        Key::F19 => Some(0xf716u16),
        Key::F20 => Some(0xf717u16),
        Key::F21 => Some(0xf718u16),
        Key::F22 => Some(0xf719u16),
        Key::F23 => Some(0xf71au16),
        Key::F24 => Some(0xf71bu16),
    }
}

/// The code is one of `0123456789*+,-./`, which both the main keyboard and
/// the numeric keypad produce.
pub open spec fn needs_keypad_disambiguation(code: u16) -> bool {
    0x2a <= code <= 0x39
}

/// The binding of a pattern on macOS.
pub open spec fn macos_binding(p: KeyPattern) -> Result<MacosKeyBinding, AccelError> {
    let f = p.mod_flags.0;
    match macos_charcode(p.key, f & 1 == 1) {
        None => Err(AccelError::OutOfBmp),
        Some(code) => Ok(
            MacosKeyBinding {
                mod_mask: if needs_keypad_disambiguation(code) {
                    0x3e
                } else {
                    0x1e
                },
                mod_flags: ((if f & 1 == 1 {
                    2u16
                } else {
                    0
                }) | (if f & 2 == 2 {
                    4u16
                } else {
                    0
                }) | (if f & 4 == 4 {
                    8u16
                } else {
                    0
                }) | (if f & 8 == 8 {
                    0x10u16
                } else {
                    0
                }) | (if is_numpad(p.key) {
                    0x20u16
                } else {
                    0
                })),
                charcode: code,
            },
        ),
    }
}

/// A macOS binding can match an event: its modifier flags lie within its
/// modifier mask. (A key of the numeric keypad, which sets the keypad flag,
/// always has a code that needs the keypad bit in the mask.)
pub proof fn law_macos_flags_within_mask(p: KeyPattern)
    ensures
        macos_binding(p) matches Ok(b) ==> b.mod_flags & !b.mod_mask == 0,
{
    let f = p.mod_flags.0;
    if let Some(code) = macos_charcode(p.key, f & 1 == 1) {
        let s: u16 = if f & 1 == 1 { 2u16 } else { 0 };
        let c: u16 = if f & 2 == 2 { 4u16 } else { 0 };
        let a: u16 = if f & 4 == 4 { 8u16 } else { 0 };
        let m: u16 = if f & 8 == 8 { 0x10u16 } else { 0 };
        let k: u16 = if is_numpad(p.key) { 0x20u16 } else { 0 };
        assert((s | c | a | m | k) & !0x3eu16 == 0 && (k == 0 ==> (s | c | a | m | k) & !0x1eu16 == 0))
            by (bit_vector)
            requires
                s == 0 || s == 2,
                c == 0 || c == 4,
                a == 0 || a == 8,
                m == 0 || m == 0x10,
                k == 0 || k == 0x20,
        ;
        if is_numpad(p.key) {
            assert(needs_keypad_disambiguation(code));
        }
    }
}

fn macos_charcode_of(k: Key, shift: bool) -> (r: Option<u16>)
    ensures
        r == macos_charcode(k, shift),
{
    match k {
        Key::Char(c) => if (c as u32) < 0x10000 {
            Some(c as u16)
        } else {
            None
        },
        Key::Tab => if shift {
            Some(0x0019u16)
        } else {
            Some(0x0009u16)
        },
        Key::Backspace => Some(0x0008u16),
        Key::Return => Some(0x0003u16),
        Key::Escape => Some(0x001bu16),
        Key::PageUp => Some(0xf72cu16),
        Key::PageDown => Some(0xf72du16),
        Key::End => Some(0xf72bu16),
        Key::Home => Some(0xf729u16),
        Key::Left => Some(0xf702u16),
        Key::Up => Some(0xf700u16),
        Key::Right => Some(0xf703u16),
        Key::Down => Some(0xf701u16),
        Key::Insert => Some(0xf727u16),
        Key::Delete => Some(0x007fu16),
        Key::Numpad0 => Some(0x30u16),
        Key::Numpad1 => Some(0x31u16),
        Key::Numpad2 => Some(0x32u16),
        Key::Numpad3 => Some(0x33u16),
        Key::Numpad4 => Some(0x34u16),
        Key::Numpad5 => Some(0x35u16),
        Key::Numpad6 => Some(0x36u16),
        Key::Numpad7 => Some(0x37u16),
        Key::Numpad8 => Some(0x38u16),
        Key::Numpad9 => Some(0x39u16),
        Key::NumpadMultiply => Some(0x2au16),
        Key::NumpadAdd => Some(0x2bu16),
        Key::NumpadSeparator => Some(0x2cu16),
        Key::NumpadSubtract => Some(0x2du16),
        Key::NumpadDecimal => Some(0x2eu16),
        Key::NumpadDivide => Some(0x2fu16),
        Key::F1 => Some(0xf704u16),
        Key::F2 => Some(0xf705u16),
        Key::F3 => Some(0xf706u16),
        Key::F4 => Some(0xf707u16),
        Key::F5 => Some(0xf708u16),
        Key::F6 => Some(0xf709u16),
        Key::F7 => Some(0xf70au16),
        Key::F8 => Some(0xf70bu16),
        Key::F9 => Some(0xf70cu16),
        Key::F10 => Some(0xf70du16),
        Key::F11 => Some(0xf70eu16),
        Key::F12 => Some(0xf70fu16),
        Key::F13 => Some(0xf710u16),
        Key::F14 => Some(0xf711u16),
        Key::F15 => Some(0xf712u16),
        Key::F16 => Some(0xf713u16),
        Key::F17 => Some(0xf714u16),
        Key::F18 => Some(0xf715u16),
        Key::F19 => Some(0xf716u16),
        Key::F20 => Some(0xf717u16),
        Key::F21 => Some(0xf718u16),
        Key::F22 => Some(0xf719u16),
        Key::F23 => Some(0xf71au16),
        Key::F24 => Some(0xf71bu16),
    }
}

fn is_numpad_key(k: Key) -> (r: bool)
    ensures
        r == is_numpad(k),
{
    match k {
        Key::Numpad0 | Key::Numpad1 | Key::Numpad2 | Key::Numpad3 | Key::Numpad4 | Key::Numpad5 | Key::Numpad6 | Key::Numpad7 | Key::Numpad8 | Key::Numpad9 | Key::NumpadMultiply | Key::NumpadAdd | Key::NumpadSeparator | Key::NumpadSubtract | Key::NumpadDecimal | Key::NumpadDivide => true,
        _ => false,
    }
}

/// Compute the macOS binding of a key pattern.
pub fn macos_key_binding(pat: KeyPattern) -> (r: Result<MacosKeyBinding, AccelError>)
    ensures
        r == macos_binding(pat),
{
    let shift = pat.mod_flags.contains(ModFlags::shift());
    let charcode = match macos_charcode_of(pat.key, shift) {
        Some(c) => c,
        None => return Err(AccelError::OutOfBmp),
    };
    // Some characters are included in both of a normal keyboard and a
    // numerical keypad. `Key` distinguishes between them.
    // `0123456789*+,-./`
    let keypad_chars: [u8; 16] = [
        0x30, 0x31, 0x32, 0x33, 0x34, 0x35, 0x36, 0x37, 0x38, 0x39, 0x2a, 0x2b, 0x2c, 0x2d, 0x2e,
        0x2f,
    ];
    let mut needs_disambiguation = false;
    if charcode < 128 {
        let mut i: usize = 0;
        while i < 16
            invariant
                i <= 16,
                charcode < 128,
                keypad_chars@ == seq![
                    0x30u8, 0x31, 0x32, 0x33, 0x34, 0x35, 0x36, 0x37, 0x38, 0x39, 0x2a, 0x2b, 0x2c,
                    0x2d, 0x2e, 0x2f,
                ],
                needs_disambiguation == exists|j: int| 0 <= j < i && keypad_chars@[j] == charcode,
            decreases 16 - i,
        {
            if keypad_chars[i] as u16 == charcode {
                needs_disambiguation = true;
            }
            i += 1;
        }
        proof {
            if needs_keypad_disambiguation(charcode) {
                let j = (charcode - 0x2a) as int;
                let j = if j < 6 { j + 10 } else { j - 6 };
                assert(keypad_chars@[j] == charcode);
            }
        }
    }
    let expects_keypad = is_numpad_key(pat.key);
    let mod_mask = NS_SHIFT_KEY_MASK | NS_CONTROL_KEY_MASK | NS_ALTERNATE_KEY_MASK
        | NS_COMMAND_KEY_MASK | if needs_disambiguation {
        NS_NUMERIC_PAD_KEY_MASK
    } else {
        0
    };
    let mod_flags: u32 = (if pat.mod_flags.contains(ModFlags::shift()) {
        NS_SHIFT_KEY_MASK
    } else {
        0
    }) | (if pat.mod_flags.contains(ModFlags::control()) {
        NS_CONTROL_KEY_MASK
    } else {
        0
    }) | (if pat.mod_flags.contains(ModFlags::alt()) {
        NS_ALTERNATE_KEY_MASK
    } else {
        0
    }) | (if pat.mod_flags.contains(ModFlags::super_key()) {
        NS_COMMAND_KEY_MASK
    } else {
        0
    }) | (if expects_keypad {
        NS_NUMERIC_PAD_KEY_MASK
    } else {
        0
    });
    // Lower bits (presumably) only have device-dependent flags, so they are
    // ignored.
    let f = pat.mod_flags.0;
    let b0 = f & 1 == 1;
    let b1 = f & 2 == 2;
    let b2 = f & 4 == 4;
    let b3 = f & 8 == 8;
    let b4 = expects_keypad;
    let nd = needs_disambiguation;
    assert(((mod_mask >> 16u32) as u16) == if nd { 0x3eu16 } else { 0x1eu16 }) by (bit_vector)
        requires
            mod_mask == (1u32 << 17u32) | (1u32 << 18u32) | (1u32 << 19u32) | (1u32 << 20u32)
                | (if nd { 1u32 << 21u32 } else { 0u32 }),
    ;
    assert(((mod_flags >> 16u32) as u16) == ((if b0 { 2u16 } else { 0 }) | (if b1 { 4u16 } else {
        0
    }) | (if b2 { 8u16 } else { 0 }) | (if b3 { 0x10u16 } else { 0 }) | (if b4 { 0x20u16 } else {
        0
    }))) by (bit_vector)
        requires
            mod_flags == (if b0 { 1u32 << 17u32 } else { 0u32 }) | (if b1 { 1u32 << 18u32 } else {
                0u32
            }) | (if b2 { 1u32 << 19u32 } else { 0u32 }) | (if b3 { 1u32 << 20u32 } else { 0u32 })
                | (if b4 { 1u32 << 21u32 } else { 0u32 }),
    ;
    Ok(
        MacosKeyBinding {
            mod_mask: (mod_mask >> 16) as u16,
            mod_flags: (mod_flags >> 16) as u16,
            charcode,
        },
    )
}

// ----------------------------------------------------------------------------
// Windows

/// The virtual key of a Windows binding: a character code, or the name of a
/// `VK_*` constant of `WinUser.h`.
#[derive(Debug, Clone, Copy)]
pub enum WindowsKey {
    Code(u16),
    Vk(&'static str),
}

/// A key binding of the Windows backend: the names of the `AccelTable::MOD_*`
/// flags, and the virtual key.
#[derive(Debug)]
pub struct WindowsKeyBinding {
    pub flags: Vec<&'static str>,
    pub key: WindowsKey,
}

/// The name of the `VK_*` constant of a key.
pub open spec fn windows_vk_name(k: Key) -> Option<Seq<char>> {
    match k {
        Key::Char(_) => None,
        Key::Backspace => Some("VK_BACK"@),
        Key::Tab => Some("VK_TAB"@),
        Key::Return => Some("VK_RETURN"@),
        Key::Escape => Some("VK_ESCAPE"@),
        Key::PageUp => Some("VK_PRIOR"@),
        Key::PageDown => Some("VK_NEXT"@),
        Key::End => Some("VK_END"@),
        Key::Home => Some("VK_HOME"@),
        Key::Left => Some("VK_LEFT"@),
        Key::Up => Some("VK_UP"@),
        Key::Right => Some("VK_RIGHT"@),
        Key::Down => Some("VK_DOWN"@),
        Key::Insert => Some("VK_INSERT"@),
        Key::Delete => Some("VK_DELETE"@),
        Key::Numpad0 => Some("VK_NUMPAD0"@),
        Key::Numpad1 => Some("VK_NUMPAD1"@),
        Key::Numpad2 => Some("VK_NUMPAD2"@),
        Key::Numpad3 => Some("VK_NUMPAD3"@),
        Key::Numpad4 => Some("VK_NUMPAD4"@),
        Key::Numpad5 => Some("VK_NUMPAD5"@),
        Key::Numpad6 => Some("VK_NUMPAD6"@),
        Key::Numpad7 => Some("VK_NUMPAD7"@),
        Key::Numpad8 => Some("VK_NUMPAD8"@),
        Key::Numpad9 => Some("VK_NUMPAD9"@),
        Key::NumpadMultiply => Some("VK_MULTIPLY"@),
        Key::NumpadAdd => Some("VK_ADD"@),
        Key::NumpadSeparator => Some("VK_SEPARATOR"@),
        Key::NumpadSubtract => Some("VK_SUBTRACT"@),
        Key::NumpadDecimal => Some("VK_DECIMAL"@),
        Key::NumpadDivide => Some("VK_DIVIDE"@),
        Key::F1 => Some("VK_F1"@),
        Key::F2 => Some("VK_F2"@),
        Key::F3 => Some("VK_F3"@),
        Key::F4 => Some("VK_F4"@),
        Key::F5 => Some("VK_F5"@),
        Key::F6 => Some("VK_F6"@),
        Key::F7 => Some("VK_F7"@),
        Key::F8 => Some("VK_F8"@),
        Key::F9 => Some("VK_F9"@),
        Key::F10 => Some("VK_F10"@),
        Key::F11 => Some("VK_F11"@),
        Key::F12 => Some("VK_F12"@),
        Key::F13 => Some("VK_F13"@),
        Key::F14 => Some("VK_F14"@),
        Key::F15 => Some("VK_F15"@),
        Key::F16 => Some("VK_F16"@),
        Key::F17 => Some("VK_F17"@),
        Key::F18 => Some("VK_F18"@),
        Key::F19 => Some("VK_F19"@),
        Key::F20 => Some("VK_F20"@),
        Key::F21 => Some("VK_F21"@),
        Key::F22 => Some("VK_F22"@),
        Key::F23 => Some("VK_F23"@),
        Key::F24 => Some("VK_F24"@),
    }
}

/// The characters that Windows names by their upper-case character code.
pub open spec fn windows_char_key(c: char) -> bool {
    ('a' <= c <= 'z') || ('0' <= c <= '9') || c == ' '
}

/// `char::to_ascii_uppercase`.
pub open spec fn ascii_upper(c: char) -> char {
    if 'a' <= c <= 'z' {
        ((c as u32) - 32) as char
    } else {
        c
    }
}

/// The `AccelTable::MOD_*` names of the Windows backend for modifier bits `f`
/// (Super has none).
pub open spec fn windows_mod_names(f: u8) -> Seq<Seq<char>> {
    (if f & 1 == 1 {
        seq!["MOD_SHIFT"@]
    } else {
        Seq::empty()
    }) + (if f & 2 == 2 {
        seq!["MOD_CONTROL"@]
    } else {
        Seq::empty()
    }) + (if f & 4 == 4 {
        seq!["MOD_MENU"@]
    } else {
        Seq::empty()
    })
}

fn windows_vk_of(k: Key) -> (r: &'static str)
    requires
        !(k is Char),
    ensures
        windows_vk_name(k) == Some(r@),
{
    match k {
        Key::Char(_) => "",
        Key::Backspace => "VK_BACK",
        Key::Tab => "VK_TAB",
        Key::Return => "VK_RETURN",
        Key::Escape => "VK_ESCAPE",
        Key::PageUp => "VK_PRIOR",
        Key::PageDown => "VK_NEXT",
        Key::End => "VK_END",
        Key::Home => "VK_HOME",
        Key::Left => "VK_LEFT",
        Key::Up => "VK_UP",
        Key::Right => "VK_RIGHT",
        Key::Down => "VK_DOWN",
        Key::Insert => "VK_INSERT",
        Key::Delete => "VK_DELETE",
        Key::Numpad0 => "VK_NUMPAD0",
        Key::Numpad1 => "VK_NUMPAD1",
        Key::Numpad2 => "VK_NUMPAD2",
        Key::Numpad3 => "VK_NUMPAD3",
        Key::Numpad4 => "VK_NUMPAD4",
        Key::Numpad5 => "VK_NUMPAD5",
        Key::Numpad6 => "VK_NUMPAD6",
        Key::Numpad7 => "VK_NUMPAD7",
        Key::Numpad8 => "VK_NUMPAD8",
        Key::Numpad9 => "VK_NUMPAD9",
        Key::NumpadMultiply => "VK_MULTIPLY",
        Key::NumpadAdd => "VK_ADD",
        Key::NumpadSeparator => "VK_SEPARATOR",
        Key::NumpadSubtract => "VK_SUBTRACT",
        Key::NumpadDecimal => "VK_DECIMAL",
        Key::NumpadDivide => "VK_DIVIDE",
        Key::F1 => "VK_F1",
        Key::F2 => "VK_F2",
        Key::F3 => "VK_F3",
        Key::F4 => "VK_F4",
        Key::F5 => "VK_F5",
        Key::F6 => "VK_F6",
        Key::F7 => "VK_F7",
        Key::F8 => "VK_F8",
        Key::F9 => "VK_F9",
        Key::F10 => "VK_F10",
        Key::F11 => "VK_F11",
        Key::F12 => "VK_F12",
        Key::F13 => "VK_F13",
        Key::F14 => "VK_F14",
        Key::F15 => "VK_F15",
        Key::F16 => "VK_F16",
        Key::F17 => "VK_F17",
        Key::F18 => "VK_F18",
        Key::F19 => "VK_F19",
        Key::F20 => "VK_F20",
        Key::F21 => "VK_F21",
        Key::F22 => "VK_F22",
        Key::F23 => "VK_F23",
        Key::F24 => "VK_F24",
    }
}

/// Compute the Windows binding of a key pattern.
pub fn windows_key_binding(pat: KeyPattern) -> (r: Result<WindowsKeyBinding, AccelError>)
    ensures
        match r {
            Ok(b) => {
                &&& pat.mod_flags.0 & 8 != 8
                &&& b.flags@.map_values(|s: &'static str| s@) == windows_mod_names(pat.mod_flags.0)
                &&& match (pat.key, b.key) {
                    (Key::Char(c), WindowsKey::Code(v)) => windows_char_key(c) && v == ascii_upper(c) as u16,
                    (k, WindowsKey::Vk(name)) => !(k is Char) && windows_vk_name(k) == Some(name@),
                    _ => false,
                }
            },
            Err(e) => match pat.key {
                Key::Char(c) if !windows_char_key(c) => e == AccelError::UnsupportedKey(pat.key),
                _ => e == AccelError::SuperUnsupported && pat.mod_flags.0 & 8 == 8,
            },
        },
{
    let key = match pat.key {
        Key::Char(c) => {
            if ('a' <= c && c <= 'z') || ('0' <= c && c <= '9') || c == ' ' {
                let up = if 'a' <= c && c <= 'z' {
                    (c as u8) - 32
                } else {
                    c as u8
                };
                WindowsKey::Code(up as u16)
            } else {
                return Err(AccelError::UnsupportedKey(pat.key));
            }
        },
        k => WindowsKey::Vk(windows_vk_of(k)),
    };
    let mut flags: Vec<&'static str> = Vec::new();
    if pat.mod_flags.contains(ModFlags::shift()) {
        flags.push("MOD_SHIFT");
    }
    if pat.mod_flags.contains(ModFlags::control()) {
        flags.push("MOD_CONTROL");
    }
    if pat.mod_flags.contains(ModFlags::alt()) {
        flags.push("MOD_MENU");
    }
    if pat.mod_flags.contains(ModFlags::super_key()) {
        return Err(AccelError::SuperUnsupported);
    }
    proof {
        assert(flags@.map_values(|s: &'static str| s@) =~= windows_mod_names(pat.mod_flags.0));
    }
    Ok(WindowsKeyBinding { flags, key })
}

// ----------------------------------------------------------------------------
// GTK

/// A `gdk_keys` key value: a letter, or the name of a `GDK_KEY_*` symbol.
#[derive(Debug, Clone, Copy)]
pub enum GtkKeyval {
    Letter(char),
    Name(&'static str),
}

/// A key binding of the GTK backend: one entry per key value, sharing the
/// names of the `AccelTable::MOD_*` flags.
#[derive(Debug)]
pub struct GtkKeyBinding {
    pub keyvals: Vec<GtkKeyval>,
    pub mod_flags: Vec<&'static str>,
}

/// The `gdkkeysyms.h` name of a key other than a letter or space.
pub open spec fn gtk_key_name(k: Key) -> Option<Seq<char>> {
    match k {
        Key::Char(_) => None,
        Key::Backspace => Some("BackSpace"@),
        Key::Tab => Some("Tab"@),
        Key::Return => Some("Return"@),
        Key::Escape => Some("Escape"@),
        Key::PageUp => Some("Page_Up"@),
        Key::PageDown => Some("Page_Down"@),
        Key::End => Some("End"@),
        Key::Home => Some("Home"@),
        Key::Left => Some("Left"@),
        Key::Up => Some("Up"@),
        Key::Right => Some("Right"@),
        Key::Down => Some("Down"@),
        Key::Insert => Some("Insert"@),
        Key::Delete => Some("Delete"@),
        Key::Numpad0 => Some("KP_0"@),
        Key::Numpad1 => Some("KP_1"@),
        Key::Numpad2 => Some("KP_2"@),
        Key::Numpad3 => Some("KP_3"@),
        Key::Numpad4 => Some("KP_4"@),
        Key::Numpad5 => Some("KP_5"@),
        Key::Numpad6 => Some("KP_6"@),
        Key::Numpad7 => Some("KP_7"@),
        Key::Numpad8 => Some("KP_8"@),
        Key::Numpad9 => Some("KP_9"@),
        Key::NumpadMultiply => Some("KP_Multiply"@),
        Key::NumpadAdd => Some("KP_Add"@),
        Key::NumpadSeparator => Some("KP_Separator"@),
        Key::NumpadSubtract => Some("KP_Subtract"@),
        Key::NumpadDecimal => Some("KP_Decimal"@),
        Key::NumpadDivide => Some("KP_Divide"@),
        Key::F1 => Some("F1"@),
        Key::F2 => Some("F2"@),
        Key::F3 => Some("F3"@),
        Key::F4 => Some("F4"@),
        Key::F5 => Some("F5"@),
        Key::F6 => Some("F6"@),
        Key::F7 => Some("F7"@),
        Key::F8 => Some("F8"@),
        Key::F9 => Some("F9"@),
        Key::F10 => Some("F10"@),
        Key::F11 => Some("F11"@),
        Key::F12 => Some("F12"@),
        Key::F13 => Some("F13"@),
        Key::F14 => Some("F14"@),
        Key::F15 => Some("F15"@),
        Key::F16 => Some("F16"@),
        Key::F17 => Some("F17"@),
        Key::F18 => Some("F18"@),
        Key::F19 => Some("F19"@),
        Key::F20 => Some("F20"@),
        Key::F21 => Some("F21"@),
        Key::F22 => Some("F22"@),
        Key::F23 => Some("F23"@),
        Key::F24 => Some("F24"@),
    }
}

/// The `AccelTable::MOD_*` names of the GTK backend for modifier bits `f`.
pub open spec fn gtk_mod_names(f: u8) -> Seq<Seq<char>> {
    (if f & 1 == 1 {
        seq!["MOD_SHIFT"@]
    } else {
        Seq::empty()
    }) + (if f & 2 == 2 {
        seq!["MOD_CONTROL"@]
    } else {
        Seq::empty()
    }) + (if f & 4 == 4 {
        seq!["MOD_META"@]
    } else {
        Seq::empty()
    }) + (if f & 8 == 8 {
        seq!["MOD_SUPER"@]
    } else {
        Seq::empty()
    })
}

fn gtk_name_of(k: Key) -> (r: Option<&'static str>)
    ensures
        match r {
            Some(s) => gtk_key_name(k) == Some(s@),
            None => gtk_key_name(k) is None,
        },
{
    match k {
        Key::Char(_) => None,
        Key::Backspace => Some("BackSpace"),
        Key::Tab => Some("Tab"),
        Key::Return => Some("Return"),
        Key::Escape => Some("Escape"),
        Key::PageUp => Some("Page_Up"),
        Key::PageDown => Some("Page_Down"),
        Key::End => Some("End"),
        Key::Home => Some("Home"),
        Key::Left => Some("Left"),
        Key::Up => Some("Up"),
        Key::Right => Some("Right"),
        Key::Down => Some("Down"),
        Key::Insert => Some("Insert"),
        Key::Delete => Some("Delete"),
        Key::Numpad0 => Some("KP_0"),
        Key::Numpad1 => Some("KP_1"),
        Key::Numpad2 => Some("KP_2"),
        Key::Numpad3 => Some("KP_3"),
        Key::Numpad4 => Some("KP_4"),
        Key::Numpad5 => Some("KP_5"),
        Key::Numpad6 => Some("KP_6"),
        Key::Numpad7 => Some("KP_7"),
        Key::Numpad8 => Some("KP_8"),
        Key::Numpad9 => Some("KP_9"),
        Key::NumpadMultiply => Some("KP_Multiply"),
        Key::NumpadAdd => Some("KP_Add"),
        Key::NumpadSeparator => Some("KP_Separator"),
        Key::NumpadSubtract => Some("KP_Subtract"),
        Key::NumpadDecimal => Some("KP_Decimal"),
        Key::NumpadDivide => Some("KP_Divide"),
        Key::F1 => Some("F1"),
        Key::F2 => Some("F2"),
        Key::F3 => Some("F3"),
        Key::F4 => Some("F4"),
        Key::F5 => Some("F5"),
        Key::F6 => Some("F6"),
        Key::F7 => Some("F7"),
        Key::F8 => Some("F8"),
        Key::F9 => Some("F9"),
        Key::F10 => Some("F10"),
        Key::F11 => Some("F11"),
        Key::F12 => Some("F12"),
        Key::F13 => Some("F13"),
        Key::F14 => Some("F14"),
        Key::F15 => Some("F15"),
        Key::F16 => Some("F16"),
        Key::F17 => Some("F17"),
        Key::F18 => Some("F18"),
        Key::F19 => Some("F19"),
        Key::F20 => Some("F20"),
        Key::F21 => Some("F21"),
        Key::F22 => Some("F22"),
        Key::F23 => Some("F23"),
        Key::F24 => Some("F24"),
    }
}

/// Compute the GTK binding of a key pattern.
///
/// Letters are upper- or lower-cased depending on the state of the CapsLock
/// and Shift keys, so a letter gets both key values.
pub fn gtk_key_binding(pat: KeyPattern) -> (r: Result<GtkKeyBinding, AccelError>)
    ensures
        match r {
            Ok(b) => {
                &&& b.mod_flags@.map_values(|s: &'static str| s@) == gtk_mod_names(pat.mod_flags.0)
                &&& match pat.key {
                    Key::Char(c) => if 'a' <= c <= 'z' {
                        b.keyvals@ == seq![GtkKeyval::Letter(c), GtkKeyval::Letter(ascii_upper(c))]
                    } else {
                        c == ' ' && b.keyvals@.len() == 1 && (b.keyvals@[0] matches GtkKeyval::Name(
                            n,
                        ) && n@ == "space"@)
                    },
                    k => b.keyvals@.len() == 1 && (b.keyvals@[0] matches GtkKeyval::Name(n)
                        && gtk_key_name(k) == Some(n@)),
                }
            },
            Err(e) => e == AccelError::UnsupportedKey(pat.key) && (pat.key matches Key::Char(c)
                && !('a' <= c <= 'z') && c != ' '),
        },
{
    let mut keyvals: Vec<GtkKeyval> = Vec::new();
    match pat.key {
        Key::Char(c) => {
            if 'a' <= c && c <= 'z' {
                keyvals.push(GtkKeyval::Letter(c));
                keyvals.push(GtkKeyval::Letter(((c as u8) - 32) as char));
            } else if c == ' ' {
                keyvals.push(GtkKeyval::Name("space"));
            } else {
                return Err(AccelError::UnsupportedKey(pat.key));
            }
        },
        k => {
            match gtk_name_of(k) {
                Some(n) => keyvals.push(GtkKeyval::Name(n)),
                None => {
                    proof {
                        assert(false);
                    }
                    return Err(AccelError::UnsupportedKey(pat.key));
                },
            }
        },
    }
    let mut mod_flags: Vec<&'static str> = Vec::new();
    if pat.mod_flags.contains(ModFlags::shift()) {
        mod_flags.push("MOD_SHIFT");
    }
    if pat.mod_flags.contains(ModFlags::control()) {
        mod_flags.push("MOD_CONTROL");
    }
    if pat.mod_flags.contains(ModFlags::alt()) {
        mod_flags.push("MOD_META");
    }
    if pat.mod_flags.contains(ModFlags::super_key()) {
        mod_flags.push("MOD_SUPER");
    }
    proof {
        assert(mod_flags@.map_values(|s: &'static str| s@) =~= gtk_mod_names(pat.mod_flags.0));
    }
    Ok(GtkKeyBinding { keyvals, mod_flags })
}

/// The GTK backend's compressed `MOD_SHIFT` flag (`GDK_SHIFT_MASK`, bit 0).
pub const GTK_MOD_SHIFT: u8 = 1;

/// The GTK backend's compressed `MOD_CONTROL` flag (`GDK_CONTROL_MASK`,
/// bit 2).
pub const GTK_MOD_CONTROL: u8 = 4;

/// The GTK backend's compressed `MOD_SUPER` flag (`GDK_SUPER_MASK`,
/// bit 26).
pub const GTK_MOD_SUPER: u8 = 8;

/// The GTK backend's compressed `MOD_META` flag (`GDK_META_MASK`, bit 28).
pub const GTK_MOD_META: u8 = 32;

/// Compress a GDK modifier state into the GTK backend's eight-bit modifier
/// flags: Shift, Control, Super and Meta pass through, everything else is
/// dropped.
pub fn gtk_compress_mod_flags(x: u32) -> (r: u8)
    ensures
        (r & GTK_MOD_SHIFT != 0) == (x & 1 != 0),
        (r & GTK_MOD_CONTROL != 0) == (x & 4 != 0),
        (r & GTK_MOD_SUPER != 0) == (x & 0x400_0000 != 0),
        (r & GTK_MOD_META != 0) == (x & 0x1000_0000 != 0),
        r & !(GTK_MOD_SHIFT | GTK_MOD_CONTROL | GTK_MOD_SUPER | GTK_MOD_META) == 0,
{
    let r = ((x & 0b101) | ((x >> 23) & 0b101000)) as u8;
    assert((r & 1u8 != 0) == (x & 1 != 0)) by (bit_vector)
        requires
            r == ((x & 0b101) | ((x >> 23) & 0b101000)) as u8,
    ;
    assert((r & 4u8 != 0) == (x & 4 != 0)) by (bit_vector)
        requires
            r == ((x & 0b101) | ((x >> 23) & 0b101000)) as u8,
    ;
    assert((r & 8u8 != 0) == (x & 0x400_0000 != 0)) by (bit_vector)
        requires
            r == ((x & 0b101) | ((x >> 23) & 0b101000)) as u8,
    ;
    assert((r & 32u8 != 0) == (x & 0x1000_0000 != 0)) by (bit_vector)
        requires
            r == ((x & 0b101) | ((x >> 23) & 0b101000)) as u8,
    ;
    assert(r & !(1u8 | 4u8 | 8u8 | 32u8) == 0) by (bit_vector)
        requires
            r == ((x & 0b101) | ((x >> 23) & 0b101000)) as u8,
    ;
    r
}

/// An entry of the GTK backend's accelerator table: the action triggered
/// by the key value `keyval` with exactly the modifier flags `mod_flags`.
#[derive(Debug, Clone, Copy)]
pub struct GtkActionKeyBinding {
    pub action: u16,
    pub mod_flags: u8,
    pub keyval: u32,
}

/// The GTK backend's accelerator table.
#[derive(Debug)]
pub struct GtkAccelTable {
    pub key: Vec<GtkActionKeyBinding>,
}

/// The binding `b` is for the key value `keyval` with the modifier flags
/// `mod_flags`.
pub open spec fn gtk_binding_matches(b: GtkActionKeyBinding, keyval: u32, mod_flags: u8) -> bool {
    b.keyval == keyval && b.mod_flags == mod_flags
}

impl GtkAccelTable {
    /// The action of the first entry for the key value `keyval` with the
    /// modifier flags `mod_flags`.
    pub fn find_action_with_key(&self, keyval: u32, mod_flags: u8) -> (r: Option<u16>)
        ensures
            match r {
                Some(a) => exists|i: int|
                    0 <= i < self.key.len() && gtk_binding_matches(#[trigger] self.key@[i], keyval, mod_flags)
                        && self.key@[i].action == a && forall|j: int|
                        0 <= j < i ==> !gtk_binding_matches(#[trigger] self.key@[j], keyval, mod_flags),
                None => forall|i: int|
                    0 <= i < self.key.len() ==> !gtk_binding_matches(#[trigger] self.key@[i], keyval, mod_flags),
            },
    {
        let mut i: usize = 0;
        while i < self.key.len()
            invariant
                i <= self.key.len(),
                forall|j: int| 0 <= j < i ==> !gtk_binding_matches(#[trigger] self.key@[j], keyval, mod_flags),
            decreases self.key.len() - i,
        {
            let b = self.key[i];
            if b.keyval == keyval && b.mod_flags == mod_flags {
                return Some(b.action);
            }
            i += 1;
        }
        None
    }
}

// ----------------------------------------------------------------------------
// What the tables of the backends promise

/// The number of a function key (`F1` is 1), if the key is one.
pub open spec fn function_key_number(k: Key) -> Option<int> {
    match k {
        Key::F1 => Some(1int),
        Key::F2 => Some(2int),
        Key::F3 => Some(3int),
        Key::F4 => Some(4int),
        Key::F5 => Some(5int),
        Key::F6 => Some(6int),
        Key::F7 => Some(7int),
        Key::F8 => Some(8int),
        Key::F9 => Some(9int),
        Key::F10 => Some(10int),
        Key::F11 => Some(11int),
        Key::F12 => Some(12int),
        Key::F13 => Some(13int),
        Key::F14 => Some(14int),
        Key::F15 => Some(15int),
        Key::F16 => Some(16int),
        Key::F17 => Some(17int),
        Key::F18 => Some(18int),
        Key::F19 => Some(19int),
        Key::F20 => Some(20int),
        Key::F21 => Some(21int),
        Key::F22 => Some(22int),
        Key::F23 => Some(23int),
        Key::F24 => Some(24int),
        _ => None,
    }
}

/// The character that a key of the numeric keypad types, if the key is
/// one.
pub open spec fn numpad_char(k: Key) -> Option<char> {
    match k {
        Key::Numpad0 => Some('0'),
        Key::Numpad1 => Some('1'),
        Key::Numpad2 => Some('2'),
        Key::Numpad3 => Some('3'),
        Key::Numpad4 => Some('4'),
        Key::Numpad5 => Some('5'),
        Key::Numpad6 => Some('6'),
        Key::Numpad7 => Some('7'),
        Key::Numpad8 => Some('8'),
        Key::Numpad9 => Some('9'),
        Key::NumpadMultiply => Some('*'),
        Key::NumpadAdd => Some('+'),
        Key::NumpadSeparator => Some(','),
        Key::NumpadSubtract => Some('-'),
        Key::NumpadDecimal => Some('.'),
        Key::NumpadDivide => Some('/'),
        _ => None,
    }
}

/// What AppKit reports for each key (its "common Unicode characters" and
/// "function-key Unicodes"): a character in the Basic Multilingual Plane its
/// own code, a keypad key the character it types (with the keypad flag set
/// in addition), `NSDeleteCharacter` (0x7f) for Delete,
/// `NSBackspaceCharacter` (0x08) for Backspace, `NSEnterCharacter` (0x03)
/// for Return, ESC (0x1b) for Escape, `NSTabCharacter` (0x09) for Tab or
/// `NSBackTabCharacter` (0x19) with Shift, the arrow keys from
/// `NSUpArrowFunctionKey` (0xf700: up, down, left, right), `NSF1FunctionKey`
/// (0xf704) counting up for the function keys, and `NSInsertFunctionKey`
/// (0xf727), `NSHomeFunctionKey` (0xf729), `NSEndFunctionKey` (0xf72b),
/// `NSPageUpFunctionKey` (0xf72c), `NSPageDownFunctionKey` (0xf72d). Only a
/// character beyond the Basic Multilingual Plane has no binding.
pub proof fn law_macos_key_codes(p: KeyPattern)
    ensures
        macos_binding(p) is Err <==> (p.key matches Key::Char(c) && c as u32 >= 0x10000),
        macos_binding(p) matches Ok(b) ==> {
            &&& p.key matches Key::Char(c) ==> b.charcode as u32 == c as u32
            &&& numpad_char(p.key) matches Some(c) ==> {
                &&& b.charcode as u32 == c as u32
                &&& macos_binding(KeyPattern { key: Key::Char(c), mod_flags: p.mod_flags }) == Ok::<
                    MacosKeyBinding,
                    AccelError,
                >(MacosKeyBinding { mod_flags: (b.mod_flags & !0x20u16) as u16, ..b })
                &&& b.mod_flags & 0x20 == 0x20
            }
            &&& p.key == Key::Delete ==> b.charcode == 0x7f
            &&& p.key == Key::Backspace ==> b.charcode == 0x08
            &&& p.key == Key::Return ==> b.charcode == 0x03
            &&& p.key == Key::Escape ==> b.charcode == 0x1b
            &&& p.key == Key::Tab ==> b.charcode == if p.mod_flags.0 & 1 == 1 {
                0x19u16
            } else {
                0x09u16
            }
            &&& p.key == Key::Up ==> b.charcode == 0xf700
            &&& p.key == Key::Down ==> b.charcode == 0xf701
            &&& p.key == Key::Left ==> b.charcode == 0xf702
            &&& p.key == Key::Right ==> b.charcode == 0xf703
            &&& function_key_number(p.key) matches Some(n) ==> b.charcode == 0xf704 + n - 1
            &&& p.key == Key::Insert ==> b.charcode == 0xf727
            &&& p.key == Key::Home ==> b.charcode == 0xf729
            &&& p.key == Key::End ==> b.charcode == 0xf72b
            &&& p.key == Key::PageUp ==> b.charcode == 0xf72c
            &&& p.key == Key::PageDown ==> b.charcode == 0xf72d
        },
{
    let f = p.mod_flags.0;
    if let Some(c) = numpad_char(p.key) {
        let s: u16 = if f & 1 == 1 { 2u16 } else { 0 };
        let ct: u16 = if f & 2 == 2 { 4u16 } else { 0 };
        let a: u16 = if f & 4 == 4 { 8u16 } else { 0 };
        let m: u16 = if f & 8 == 8 { 0x10u16 } else { 0 };
        assert((s | ct | a | m | 0x20u16) & !0x20u16 == (s | ct | a | m | 0u16) && (s | ct | a | m | 0x20u16) & 0x20
            == 0x20) by (bit_vector)
            requires
                s == 0 || s == 2,
                ct == 0 || ct == 4,
                a == 0 || a == 8,
                m == 0 || m == 0x10,
        ;
    }
}

/// The modifier flags of a macOS binding are the `NSEventModifierFlag*`
/// bits of the pattern's modifiers, shifted down by 16: Shift, Control,
/// Option (Alt) and Command (Super), and the numeric-pad bit exactly for a
/// key of the numeric keypad.
pub proof fn law_macos_modifier_bits(p: KeyPattern)
    ensures
        macos_binding(p) matches Ok(b) ==> {
            &&& (b.mod_flags & (NS_SHIFT_KEY_MASK >> 16) as u16 != 0) == (p.mod_flags.0 & 1 == 1)
            &&& (b.mod_flags & (NS_CONTROL_KEY_MASK >> 16) as u16 != 0) == (p.mod_flags.0 & 2 == 2)
            &&& (b.mod_flags & (NS_ALTERNATE_KEY_MASK >> 16) as u16 != 0) == (p.mod_flags.0 & 4 == 4)
            &&& (b.mod_flags & (NS_COMMAND_KEY_MASK >> 16) as u16 != 0) == (p.mod_flags.0 & 8 == 8)
            &&& (b.mod_flags & (NS_NUMERIC_PAD_KEY_MASK >> 16) as u16 != 0) == is_numpad(p.key)
        },
{
    let f = p.mod_flags.0;
    let s: u16 = if f & 1 == 1 { 2u16 } else { 0 };
    let c: u16 = if f & 2 == 2 { 4u16 } else { 0 };
    let a: u16 = if f & 4 == 4 { 8u16 } else { 0 };
    let m: u16 = if f & 8 == 8 { 0x10u16 } else { 0 };
    let k: u16 = if is_numpad(p.key) { 0x20u16 } else { 0 };
    let x = s | c | a | m | k;
    assert(((x & 2 != 0) == (s == 2)) && ((x & 4 != 0) == (c == 4)) && ((x & 8 != 0) == (a == 8)) && ((x & 0x10
        != 0) == (m == 0x10)) && ((x & 0x20 != 0) == (k == 0x20))) by (bit_vector)
        requires
            x == s | c | a | m | k,
            s == 0 || s == 2,
            c == 0 || c == 4,
            a == 0 || a == 8,
            m == 0 || m == 0x10,
            k == 0 || k == 0x20,
    ;
    assert((NS_SHIFT_KEY_MASK >> 16) as u16 == 2) by (bit_vector);
    assert((NS_CONTROL_KEY_MASK >> 16) as u16 == 4) by (bit_vector);
    assert((NS_ALTERNATE_KEY_MASK >> 16) as u16 == 8) by (bit_vector);
    assert((NS_COMMAND_KEY_MASK >> 16) as u16 == 0x10) by (bit_vector);
    assert((NS_NUMERIC_PAD_KEY_MASK >> 16) as u16 == 0x20) by (bit_vector);
    assert((f & 1 == 1) == (s == 2));
}

/// The upper-case form of a lower-case ASCII letter is the upper-case
/// letter 32 code points below it, which lower-cases back to the letter.
pub proof fn law_ascii_upper_letters(c: char)
    requires
        'a' <= c <= 'z',
    ensures
        'A' <= ascii_upper(c) <= 'Z',
        ascii_upper(c) as u32 + 32 == c as u32,
        crate::keycode::ascii_lower(ascii_upper(c)) == c,
{
}

/// Different keys other than characters get different character codes on
/// macOS, whatever the modifiers.
pub proof fn law_macos_keys_distinct(p: KeyPattern, q: KeyPattern)
    requires
        !(p.key is Char),
        !(q.key is Char),
        p.key != q.key,
    ensures
        macos_binding(p) matches Ok(x) ==> (macos_binding(q) matches Ok(y) ==> x.charcode != y.charcode),
{
}

/// The characters of `windows_vk_name(k)`, spelled out.
spec fn windows_vk_chars(k: Key) -> Seq<char> {
    match k {
        Key::Char(_) => Seq::empty(),
        Key::Backspace => seq!['V', 'K', '_', 'B', 'A', 'C', 'K'],
        Key::Tab => seq!['V', 'K', '_', 'T', 'A', 'B'],
        Key::Return => seq!['V', 'K', '_', 'R', 'E', 'T', 'U', 'R', 'N'],
        Key::Escape => seq!['V', 'K', '_', 'E', 'S', 'C', 'A', 'P', 'E'],
        Key::PageUp => seq!['V', 'K', '_', 'P', 'R', 'I', 'O', 'R'],
        Key::PageDown => seq!['V', 'K', '_', 'N', 'E', 'X', 'T'],
        Key::End => seq!['V', 'K', '_', 'E', 'N', 'D'],
        Key::Home => seq!['V', 'K', '_', 'H', 'O', 'M', 'E'],
        Key::Left => seq!['V', 'K', '_', 'L', 'E', 'F', 'T'],
        Key::Up => seq!['V', 'K', '_', 'U', 'P'],
        Key::Right => seq!['V', 'K', '_', 'R', 'I', 'G', 'H', 'T'],
        Key::Down => seq!['V', 'K', '_', 'D', 'O', 'W', 'N'],
        Key::Insert => seq!['V', 'K', '_', 'I', 'N', 'S', 'E', 'R', 'T'],
        Key::Delete => seq!['V', 'K', '_', 'D', 'E', 'L', 'E', 'T', 'E'],
        Key::Numpad0 => seq!['V', 'K', '_', 'N', 'U', 'M', 'P', 'A', 'D', '0'],
        Key::Numpad1 => seq!['V', 'K', '_', 'N', 'U', 'M', 'P', 'A', 'D', '1'],
        Key::Numpad2 => seq!['V', 'K', '_', 'N', 'U', 'M', 'P', 'A', 'D', '2'],
        Key::Numpad3 => seq!['V', 'K', '_', 'N', 'U', 'M', 'P', 'A', 'D', '3'],
        Key::Numpad4 => seq!['V', 'K', '_', 'N', 'U', 'M', 'P', 'A', 'D', '4'],
        Key::Numpad5 => seq!['V', 'K', '_', 'N', 'U', 'M', 'P', 'A', 'D', '5'],
        Key::Numpad6 => seq!['V', 'K', '_', 'N', 'U', 'M', 'P', 'A', 'D', '6'],
        Key::Numpad7 => seq!['V', 'K', '_', 'N', 'U', 'M', 'P', 'A', 'D', '7'],
        Key::Numpad8 => seq!['V', 'K', '_', 'N', 'U', 'M', 'P', 'A', 'D', '8'],
        Key::Numpad9 => seq!['V', 'K', '_', 'N', 'U', 'M', 'P', 'A', 'D', '9'],
        Key::NumpadMultiply => seq!['V', 'K', '_', 'M', 'U', 'L', 'T', 'I', 'P', 'L', 'Y'],
        Key::NumpadAdd => seq!['V', 'K', '_', 'A', 'D', 'D'],
        Key::NumpadSeparator => seq!['V', 'K', '_', 'S', 'E', 'P', 'A', 'R', 'A', 'T', 'O', 'R'],
        Key::NumpadSubtract => seq!['V', 'K', '_', 'S', 'U', 'B', 'T', 'R', 'A', 'C', 'T'],
        Key::NumpadDecimal => seq!['V', 'K', '_', 'D', 'E', 'C', 'I', 'M', 'A', 'L'],
        Key::NumpadDivide => seq!['V', 'K', '_', 'D', 'I', 'V', 'I', 'D', 'E'],
        Key::F1 => seq!['V', 'K', '_', 'F', '1'],
        Key::F2 => seq!['V', 'K', '_', 'F', '2'],
        Key::F3 => seq!['V', 'K', '_', 'F', '3'],
        Key::F4 => seq!['V', 'K', '_', 'F', '4'],
        Key::F5 => seq!['V', 'K', '_', 'F', '5'],
        Key::F6 => seq!['V', 'K', '_', 'F', '6'],
        Key::F7 => seq!['V', 'K', '_', 'F', '7'],
        Key::F8 => seq!['V', 'K', '_', 'F', '8'],
        Key::F9 => seq!['V', 'K', '_', 'F', '9'],
        Key::F10 => seq!['V', 'K', '_', 'F', '1', '0'],
        Key::F11 => seq!['V', 'K', '_', 'F', '1', '1'],
        Key::F12 => seq!['V', 'K', '_', 'F', '1', '2'],
        Key::F13 => seq!['V', 'K', '_', 'F', '1', '3'],
        Key::F14 => seq!['V', 'K', '_', 'F', '1', '4'],
        Key::F15 => seq!['V', 'K', '_', 'F', '1', '5'],
        Key::F16 => seq!['V', 'K', '_', 'F', '1', '6'],
        Key::F17 => seq!['V', 'K', '_', 'F', '1', '7'],
        Key::F18 => seq!['V', 'K', '_', 'F', '1', '8'],
        Key::F19 => seq!['V', 'K', '_', 'F', '1', '9'],
        Key::F20 => seq!['V', 'K', '_', 'F', '2', '0'],
        Key::F21 => seq!['V', 'K', '_', 'F', '2', '1'],
        Key::F22 => seq!['V', 'K', '_', 'F', '2', '2'],
        Key::F23 => seq!['V', 'K', '_', 'F', '2', '3'],
        Key::F24 => seq!['V', 'K', '_', 'F', '2', '4'],
    }
}

proof fn lemma_windows_vk_chars(k: Key)
    requires
        !(k is Char),
    ensures
        windows_vk_name(k) == Some(windows_vk_chars(k)),
{
    match k {
        Key::Char(_) => {},
        Key::Backspace => {
            reveal_strlit("VK_BACK");
            assert("VK_BACK"@ =~= seq!['V', 'K', '_', 'B', 'A', 'C', 'K']);
        },
        Key::Tab => {
            reveal_strlit("VK_TAB");
            assert("VK_TAB"@ =~= seq!['V', 'K', '_', 'T', 'A', 'B']);
        },
        Key::Return => {
            reveal_strlit("VK_RETURN");
            assert("VK_RETURN"@ =~= seq!['V', 'K', '_', 'R', 'E', 'T', 'U', 'R', 'N']);
        },
        Key::Escape => {
            reveal_strlit("VK_ESCAPE");
            assert("VK_ESCAPE"@ =~= seq!['V', 'K', '_', 'E', 'S', 'C', 'A', 'P', 'E']);
        },
        Key::PageUp => {
            reveal_strlit("VK_PRIOR");
            assert("VK_PRIOR"@ =~= seq!['V', 'K', '_', 'P', 'R', 'I', 'O', 'R']);
        },
        Key::PageDown => {
            reveal_strlit("VK_NEXT");
            assert("VK_NEXT"@ =~= seq!['V', 'K', '_', 'N', 'E', 'X', 'T']);
        },
        Key::End => {
            reveal_strlit("VK_END");
            assert("VK_END"@ =~= seq!['V', 'K', '_', 'E', 'N', 'D']);
        },
        Key::Home => {
            reveal_strlit("VK_HOME");
            assert("VK_HOME"@ =~= seq!['V', 'K', '_', 'H', 'O', 'M', 'E']);
        },
        Key::Left => {
            reveal_strlit("VK_LEFT");
            assert("VK_LEFT"@ =~= seq!['V', 'K', '_', 'L', 'E', 'F', 'T']);
        },
        Key::Up => {
            reveal_strlit("VK_UP");
            assert("VK_UP"@ =~= seq!['V', 'K', '_', 'U', 'P']);
        },
        Key::Right => {
            reveal_strlit("VK_RIGHT");
            assert("VK_RIGHT"@ =~= seq!['V', 'K', '_', 'R', 'I', 'G', 'H', 'T']);
        },
        Key::Down => {
            reveal_strlit("VK_DOWN");
            assert("VK_DOWN"@ =~= seq!['V', 'K', '_', 'D', 'O', 'W', 'N']);
        },
        Key::Insert => {
            reveal_strlit("VK_INSERT");
            assert("VK_INSERT"@ =~= seq!['V', 'K', '_', 'I', 'N', 'S', 'E', 'R', 'T']);
        },
        Key::Delete => {
            reveal_strlit("VK_DELETE");
            assert("VK_DELETE"@ =~= seq!['V', 'K', '_', 'D', 'E', 'L', 'E', 'T', 'E']);
        },
        Key::Numpad0 => {
            reveal_strlit("VK_NUMPAD0");
            assert("VK_NUMPAD0"@ =~= seq!['V', 'K', '_', 'N', 'U', 'M', 'P', 'A', 'D', '0']);
        },
        Key::Numpad1 => {
            reveal_strlit("VK_NUMPAD1");
            assert("VK_NUMPAD1"@ =~= seq!['V', 'K', '_', 'N', 'U', 'M', 'P', 'A', 'D', '1']);
        },
        Key::Numpad2 => {
            reveal_strlit("VK_NUMPAD2");
            assert("VK_NUMPAD2"@ =~= seq!['V', 'K', '_', 'N', 'U', 'M', 'P', 'A', 'D', '2']);
        },
        Key::Numpad3 => {
            reveal_strlit("VK_NUMPAD3");
            assert("VK_NUMPAD3"@ =~= seq!['V', 'K', '_', 'N', 'U', 'M', 'P', 'A', 'D', '3']);
        },
        Key::Numpad4 => {
            reveal_strlit("VK_NUMPAD4");
            assert("VK_NUMPAD4"@ =~= seq!['V', 'K', '_', 'N', 'U', 'M', 'P', 'A', 'D', '4']);
        },
        Key::Numpad5 => {
            reveal_strlit("VK_NUMPAD5");
            assert("VK_NUMPAD5"@ =~= seq!['V', 'K', '_', 'N', 'U', 'M', 'P', 'A', 'D', '5']);
        },
        Key::Numpad6 => {
            reveal_strlit("VK_NUMPAD6");
            assert("VK_NUMPAD6"@ =~= seq!['V', 'K', '_', 'N', 'U', 'M', 'P', 'A', 'D', '6']);
        },
        Key::Numpad7 => {
            reveal_strlit("VK_NUMPAD7");
            assert("VK_NUMPAD7"@ =~= seq!['V', 'K', '_', 'N', 'U', 'M', 'P', 'A', 'D', '7']);
        },
        Key::Numpad8 => {
            reveal_strlit("VK_NUMPAD8");
            assert("VK_NUMPAD8"@ =~= seq!['V', 'K', '_', 'N', 'U', 'M', 'P', 'A', 'D', '8']);
        },
        Key::Numpad9 => {
            reveal_strlit("VK_NUMPAD9");
            assert("VK_NUMPAD9"@ =~= seq!['V', 'K', '_', 'N', 'U', 'M', 'P', 'A', 'D', '9']);
        },
        Key::NumpadMultiply => {
            reveal_strlit("VK_MULTIPLY");
            assert("VK_MULTIPLY"@ =~= seq!['V', 'K', '_', 'M', 'U', 'L', 'T', 'I', 'P', 'L', 'Y']);
        },
        Key::NumpadAdd => {
            reveal_strlit("VK_ADD");
            assert("VK_ADD"@ =~= seq!['V', 'K', '_', 'A', 'D', 'D']);
        },
        Key::NumpadSeparator => {
            reveal_strlit("VK_SEPARATOR");
            assert("VK_SEPARATOR"@ =~= seq!['V', 'K', '_', 'S', 'E', 'P', 'A', 'R', 'A', 'T', 'O', 'R']);
        },
        Key::NumpadSubtract => {
            reveal_strlit("VK_SUBTRACT");
            assert("VK_SUBTRACT"@ =~= seq!['V', 'K', '_', 'S', 'U', 'B', 'T', 'R', 'A', 'C', 'T']);
        },
        Key::NumpadDecimal => {
            reveal_strlit("VK_DECIMAL");
            assert("VK_DECIMAL"@ =~= seq!['V', 'K', '_', 'D', 'E', 'C', 'I', 'M', 'A', 'L']);
        },
        Key::NumpadDivide => {
            reveal_strlit("VK_DIVIDE");
            assert("VK_DIVIDE"@ =~= seq!['V', 'K', '_', 'D', 'I', 'V', 'I', 'D', 'E']);
        },
        Key::F1 => {
            reveal_strlit("VK_F1");
            assert("VK_F1"@ =~= seq!['V', 'K', '_', 'F', '1']);
        },
        Key::F2 => {
            reveal_strlit("VK_F2");
            assert("VK_F2"@ =~= seq!['V', 'K', '_', 'F', '2']);
        },
        Key::F3 => {
            reveal_strlit("VK_F3");
            assert("VK_F3"@ =~= seq!['V', 'K', '_', 'F', '3']);
        },
        Key::F4 => {
            reveal_strlit("VK_F4");
            assert("VK_F4"@ =~= seq!['V', 'K', '_', 'F', '4']);
        },
        Key::F5 => {
            reveal_strlit("VK_F5");
            assert("VK_F5"@ =~= seq!['V', 'K', '_', 'F', '5']);
        },
        Key::F6 => {
            reveal_strlit("VK_F6");
            assert("VK_F6"@ =~= seq!['V', 'K', '_', 'F', '6']);
        },
        Key::F7 => {
            reveal_strlit("VK_F7");
            assert("VK_F7"@ =~= seq!['V', 'K', '_', 'F', '7']);
        },
        Key::F8 => {
            reveal_strlit("VK_F8");
            assert("VK_F8"@ =~= seq!['V', 'K', '_', 'F', '8']);
        },
        Key::F9 => {
            reveal_strlit("VK_F9");
            assert("VK_F9"@ =~= seq!['V', 'K', '_', 'F', '9']);
        },
        Key::F10 => {
            reveal_strlit("VK_F10");
            assert("VK_F10"@ =~= seq!['V', 'K', '_', 'F', '1', '0']);
        },
        Key::F11 => {
            reveal_strlit("VK_F11");
            assert("VK_F11"@ =~= seq!['V', 'K', '_', 'F', '1', '1']);
        },
        Key::F12 => {
            reveal_strlit("VK_F12");
            assert("VK_F12"@ =~= seq!['V', 'K', '_', 'F', '1', '2']);
        },
        Key::F13 => {
            reveal_strlit("VK_F13");
            assert("VK_F13"@ =~= seq!['V', 'K', '_', 'F', '1', '3']);
        },
        Key::F14 => {
            reveal_strlit("VK_F14");
            assert("VK_F14"@ =~= seq!['V', 'K', '_', 'F', '1', '4']);
        },
        Key::F15 => {
            reveal_strlit("VK_F15");
            assert("VK_F15"@ =~= seq!['V', 'K', '_', 'F', '1', '5']);
        },
        Key::F16 => {
            reveal_strlit("VK_F16");
            assert("VK_F16"@ =~= seq!['V', 'K', '_', 'F', '1', '6']);
        },
        Key::F17 => {
            reveal_strlit("VK_F17");
            assert("VK_F17"@ =~= seq!['V', 'K', '_', 'F', '1', '7']);
        },
        Key::F18 => {
            reveal_strlit("VK_F18");
            assert("VK_F18"@ =~= seq!['V', 'K', '_', 'F', '1', '8']);
        },
        Key::F19 => {
            reveal_strlit("VK_F19");
            assert("VK_F19"@ =~= seq!['V', 'K', '_', 'F', '1', '9']);
        },
        Key::F20 => {
            reveal_strlit("VK_F20");
            assert("VK_F20"@ =~= seq!['V', 'K', '_', 'F', '2', '0']);
        },
        Key::F21 => {
            reveal_strlit("VK_F21");
            assert("VK_F21"@ =~= seq!['V', 'K', '_', 'F', '2', '1']);
        },
        Key::F22 => {
            reveal_strlit("VK_F22");
            assert("VK_F22"@ =~= seq!['V', 'K', '_', 'F', '2', '2']);
        },
        Key::F23 => {
            reveal_strlit("VK_F23");
            assert("VK_F23"@ =~= seq!['V', 'K', '_', 'F', '2', '3']);
        },
        Key::F24 => {
            reveal_strlit("VK_F24");
            assert("VK_F24"@ =~= seq!['V', 'K', '_', 'F', '2', '4']);
        },
    }
}

/// The characters of `gtk_key_name(k)`, spelled out.
spec fn gtk_key_chars(k: Key) -> Seq<char> {
    match k {
        Key::Char(_) => Seq::empty(),
        Key::Backspace => seq!['B', 'a', 'c', 'k', 'S', 'p', 'a', 'c', 'e'],
        Key::Tab => seq!['T', 'a', 'b'],
        Key::Return => seq!['R', 'e', 't', 'u', 'r', 'n'],
        Key::Escape => seq!['E', 's', 'c', 'a', 'p', 'e'],
        Key::PageUp => seq!['P', 'a', 'g', 'e', '_', 'U', 'p'],
        Key::PageDown => seq!['P', 'a', 'g', 'e', '_', 'D', 'o', 'w', 'n'],
        Key::End => seq!['E', 'n', 'd'],
        Key::Home => seq!['H', 'o', 'm', 'e'],
        Key::Left => seq!['L', 'e', 'f', 't'],
        Key::Up => seq!['U', 'p'],
        Key::Right => seq!['R', 'i', 'g', 'h', 't'],
        Key::Down => seq!['D', 'o', 'w', 'n'],
        Key::Insert => seq!['I', 'n', 's', 'e', 'r', 't'],
        Key::Delete => seq!['D', 'e', 'l', 'e', 't', 'e'],
        Key::Numpad0 => seq!['K', 'P', '_', '0'],
        Key::Numpad1 => seq!['K', 'P', '_', '1'],
        Key::Numpad2 => seq!['K', 'P', '_', '2'],
        Key::Numpad3 => seq!['K', 'P', '_', '3'],
        Key::Numpad4 => seq!['K', 'P', '_', '4'],
        Key::Numpad5 => seq!['K', 'P', '_', '5'],
        Key::Numpad6 => seq!['K', 'P', '_', '6'],
        Key::Numpad7 => seq!['K', 'P', '_', '7'],
        Key::Numpad8 => seq!['K', 'P', '_', '8'],
        Key::Numpad9 => seq!['K', 'P', '_', '9'],
        Key::NumpadMultiply => seq!['K', 'P', '_', 'M', 'u', 'l', 't', 'i', 'p', 'l', 'y'],
        Key::NumpadAdd => seq!['K', 'P', '_', 'A', 'd', 'd'],
        Key::NumpadSeparator => seq!['K', 'P', '_', 'S', 'e', 'p', 'a', 'r', 'a', 't', 'o', 'r'],
        Key::NumpadSubtract => seq!['K', 'P', '_', 'S', 'u', 'b', 't', 'r', 'a', 'c', 't'],
        Key::NumpadDecimal => seq!['K', 'P', '_', 'D', 'e', 'c', 'i', 'm', 'a', 'l'],
        Key::NumpadDivide => seq!['K', 'P', '_', 'D', 'i', 'v', 'i', 'd', 'e'],
        Key::F1 => seq!['F', '1'],
        Key::F2 => seq!['F', '2'],
        Key::F3 => seq!['F', '3'],
        Key::F4 => seq!['F', '4'],
        Key::F5 => seq!['F', '5'],
        Key::F6 => seq!['F', '6'],
        Key::F7 => seq!['F', '7'],
        Key::F8 => seq!['F', '8'],
        Key::F9 => seq!['F', '9'],
        Key::F10 => seq!['F', '1', '0'],
        Key::F11 => seq!['F', '1', '1'],
        Key::F12 => seq!['F', '1', '2'],
        Key::F13 => seq!['F', '1', '3'],
        Key::F14 => seq!['F', '1', '4'],
        Key::F15 => seq!['F', '1', '5'],
        Key::F16 => seq!['F', '1', '6'],
        Key::F17 => seq!['F', '1', '7'],
        Key::F18 => seq!['F', '1', '8'],
        Key::F19 => seq!['F', '1', '9'],
        Key::F20 => seq!['F', '2', '0'],
        Key::F21 => seq!['F', '2', '1'],
        Key::F22 => seq!['F', '2', '2'],
        Key::F23 => seq!['F', '2', '3'],
        Key::F24 => seq!['F', '2', '4'],
    }
}

proof fn lemma_gtk_key_chars(k: Key)
    requires
        !(k is Char),
    ensures
        gtk_key_name(k) == Some(gtk_key_chars(k)),
{
    match k {
        Key::Char(_) => {},
        Key::Backspace => {
            reveal_strlit("BackSpace");
            assert("BackSpace"@ =~= seq!['B', 'a', 'c', 'k', 'S', 'p', 'a', 'c', 'e']);
        },
        Key::Tab => {
            reveal_strlit("Tab");
            assert("Tab"@ =~= seq!['T', 'a', 'b']);
        },
        Key::Return => {
            reveal_strlit("Return");
            assert("Return"@ =~= seq!['R', 'e', 't', 'u', 'r', 'n']);
        },
        Key::Escape => {
            reveal_strlit("Escape");
            assert("Escape"@ =~= seq!['E', 's', 'c', 'a', 'p', 'e']);
        },
        Key::PageUp => {
            reveal_strlit("Page_Up");
            assert("Page_Up"@ =~= seq!['P', 'a', 'g', 'e', '_', 'U', 'p']);
        },
        Key::PageDown => {
            reveal_strlit("Page_Down");
            assert("Page_Down"@ =~= seq!['P', 'a', 'g', 'e', '_', 'D', 'o', 'w', 'n']);
        },
        Key::End => {
            reveal_strlit("End");
            assert("End"@ =~= seq!['E', 'n', 'd']);
        },
        Key::Home => {
            reveal_strlit("Home");
            assert("Home"@ =~= seq!['H', 'o', 'm', 'e']);
        },
        Key::Left => {
            reveal_strlit("Left");
            assert("Left"@ =~= seq!['L', 'e', 'f', 't']);
        },
        Key::Up => {
            reveal_strlit("Up");
            assert("Up"@ =~= seq!['U', 'p']);
        },
        Key::Right => {
            reveal_strlit("Right");
            assert("Right"@ =~= seq!['R', 'i', 'g', 'h', 't']);
        },
        Key::Down => {
            reveal_strlit("Down");
            assert("Down"@ =~= seq!['D', 'o', 'w', 'n']);
        },
        Key::Insert => {
            reveal_strlit("Insert");
            assert("Insert"@ =~= seq!['I', 'n', 's', 'e', 'r', 't']);
        },
        Key::Delete => {
            reveal_strlit("Delete");
            assert("Delete"@ =~= seq!['D', 'e', 'l', 'e', 't', 'e']);
        },
        Key::Numpad0 => {
            reveal_strlit("KP_0");
            assert("KP_0"@ =~= seq!['K', 'P', '_', '0']);
        },
        Key::Numpad1 => {
            reveal_strlit("KP_1");
            assert("KP_1"@ =~= seq!['K', 'P', '_', '1']);
        },
        Key::Numpad2 => {
            reveal_strlit("KP_2");
            assert("KP_2"@ =~= seq!['K', 'P', '_', '2']);
        },
        Key::Numpad3 => {
            reveal_strlit("KP_3");
            assert("KP_3"@ =~= seq!['K', 'P', '_', '3']);
        },
        Key::Numpad4 => {
            reveal_strlit("KP_4");
            assert("KP_4"@ =~= seq!['K', 'P', '_', '4']);
        },
        Key::Numpad5 => {
            reveal_strlit("KP_5");
            assert("KP_5"@ =~= seq!['K', 'P', '_', '5']);
        },
        Key::Numpad6 => {
            reveal_strlit("KP_6");
            assert("KP_6"@ =~= seq!['K', 'P', '_', '6']);
        },
        Key::Numpad7 => {
            reveal_strlit("KP_7");
            assert("KP_7"@ =~= seq!['K', 'P', '_', '7']);
        },
        Key::Numpad8 => {
            reveal_strlit("KP_8");
            assert("KP_8"@ =~= seq!['K', 'P', '_', '8']);
        },
        Key::Numpad9 => {
            reveal_strlit("KP_9");
            assert("KP_9"@ =~= seq!['K', 'P', '_', '9']);
        },
        Key::NumpadMultiply => {
            reveal_strlit("KP_Multiply");
            assert("KP_Multiply"@ =~= seq!['K', 'P', '_', 'M', 'u', 'l', 't', 'i', 'p', 'l', 'y']);
        },
        Key::NumpadAdd => {
            reveal_strlit("KP_Add");
            assert("KP_Add"@ =~= seq!['K', 'P', '_', 'A', 'd', 'd']);
        },
        Key::NumpadSeparator => {
            reveal_strlit("KP_Separator");
            assert("KP_Separator"@ =~= seq!['K', 'P', '_', 'S', 'e', 'p', 'a', 'r', 'a', 't', 'o', 'r']);
        },
        Key::NumpadSubtract => {
            reveal_strlit("KP_Subtract");
            assert("KP_Subtract"@ =~= seq!['K', 'P', '_', 'S', 'u', 'b', 't', 'r', 'a', 'c', 't']);
        },
        Key::NumpadDecimal => {
            reveal_strlit("KP_Decimal");
            assert("KP_Decimal"@ =~= seq!['K', 'P', '_', 'D', 'e', 'c', 'i', 'm', 'a', 'l']);
        },
        Key::NumpadDivide => {
            reveal_strlit("KP_Divide");
            assert("KP_Divide"@ =~= seq!['K', 'P', '_', 'D', 'i', 'v', 'i', 'd', 'e']);
        },
        Key::F1 => {
            reveal_strlit("F1");
            assert("F1"@ =~= seq!['F', '1']);
        },
        Key::F2 => {
            reveal_strlit("F2");
            assert("F2"@ =~= seq!['F', '2']);
        },
        Key::F3 => {
            reveal_strlit("F3");
            assert("F3"@ =~= seq!['F', '3']);
        },
        Key::F4 => {
            reveal_strlit("F4");
            assert("F4"@ =~= seq!['F', '4']);
        },
        Key::F5 => {
            reveal_strlit("F5");
            assert("F5"@ =~= seq!['F', '5']);
        },
        Key::F6 => {
            reveal_strlit("F6");
            assert("F6"@ =~= seq!['F', '6']);
        },
        Key::F7 => {
            reveal_strlit("F7");
            assert("F7"@ =~= seq!['F', '7']);
        },
        Key::F8 => {
            reveal_strlit("F8");
            assert("F8"@ =~= seq!['F', '8']);
        },
        Key::F9 => {
            reveal_strlit("F9");
            assert("F9"@ =~= seq!['F', '9']);
        },
        Key::F10 => {
            reveal_strlit("F10");
            assert("F10"@ =~= seq!['F', '1', '0']);
        },
        Key::F11 => {
            reveal_strlit("F11");
            assert("F11"@ =~= seq!['F', '1', '1']);
        },
        Key::F12 => {
            reveal_strlit("F12");
            assert("F12"@ =~= seq!['F', '1', '2']);
        },
        Key::F13 => {
            reveal_strlit("F13");
            assert("F13"@ =~= seq!['F', '1', '3']);
        },
        Key::F14 => {
            reveal_strlit("F14");
            assert("F14"@ =~= seq!['F', '1', '4']);
        },
        Key::F15 => {
            reveal_strlit("F15");
            assert("F15"@ =~= seq!['F', '1', '5']);
        },
        Key::F16 => {
            reveal_strlit("F16");
            assert("F16"@ =~= seq!['F', '1', '6']);
        },
        Key::F17 => {
            reveal_strlit("F17");
            assert("F17"@ =~= seq!['F', '1', '7']);
        },
        Key::F18 => {
            reveal_strlit("F18");
            assert("F18"@ =~= seq!['F', '1', '8']);
        },
        Key::F19 => {
            reveal_strlit("F19");
            assert("F19"@ =~= seq!['F', '1', '9']);
        },
        Key::F20 => {
            reveal_strlit("F20");
            assert("F20"@ =~= seq!['F', '2', '0']);
        },
        Key::F21 => {
            reveal_strlit("F21");
            assert("F21"@ =~= seq!['F', '2', '1']);
        },
        Key::F22 => {
            reveal_strlit("F22");
            assert("F22"@ =~= seq!['F', '2', '2']);
        },
        Key::F23 => {
            reveal_strlit("F23");
            assert("F23"@ =~= seq!['F', '2', '3']);
        },
        Key::F24 => {
            reveal_strlit("F24");
            assert("F24"@ =~= seq!['F', '2', '4']);
        },
    }
}

/// ASCII upper-casing of each character of `s`.
pub open spec fn upper_seq(s: Seq<char>) -> Seq<char> {
    s.map_values(|c: char| ascii_upper(c))
}

/// The Windows virtual key of a key other than a character is the `VK_*`
/// constant of `WinUser.h` named after the key: `VK_` and the key's name in
/// the key notation in upper case (for a keypad operator, the name without
/// its `Numpad` prefix), except for Backspace (`VK_BACK`), PageUp
/// (`VK_PRIOR`) and PageDown (`VK_NEXT`).
pub proof fn law_windows_vk_names(k: Key)
    requires
        !(k is Char),
    ensures
        windows_vk_name(k) == Some(
            match k {
                Key::Backspace => "VK_BACK"@,
                Key::PageUp => "VK_PRIOR"@,
                Key::PageDown => "VK_NEXT"@,
                _ => "VK_"@ + upper_seq(
                    if is_numpad(k) && key_name(k).len() > 7 {
                        key_name(k).skip(6)
                    } else {
                        key_name(k)
                    },
                ),
            },
        ),
{
    reveal_strlit("VK_");
    match k {
        Key::Char(_) => {},
        Key::Backspace => {
            reveal_strlit("VK_BACK");
            assert("VK_BACK"@ =~= "VK_BACK"@);
        },
        Key::Tab => {
            reveal_strlit("VK_TAB");
            assert("VK_TAB"@ =~= "VK_"@ + upper_seq(key_name(k)));
        },
        Key::Return => {
            reveal_strlit("VK_RETURN");
            assert("VK_RETURN"@ =~= "VK_"@ + upper_seq(key_name(k)));
        },
        Key::Escape => {
            reveal_strlit("VK_ESCAPE");
            assert("VK_ESCAPE"@ =~= "VK_"@ + upper_seq(key_name(k)));
        },
        Key::PageUp => {
            reveal_strlit("VK_PRIOR");
            assert("VK_PRIOR"@ =~= "VK_PRIOR"@);
        },
        Key::PageDown => {
            reveal_strlit("VK_NEXT");
            assert("VK_NEXT"@ =~= "VK_NEXT"@);
        },
        Key::End => {
            reveal_strlit("VK_END");
            assert("VK_END"@ =~= "VK_"@ + upper_seq(key_name(k)));
        },
        Key::Home => {
            reveal_strlit("VK_HOME");
            assert("VK_HOME"@ =~= "VK_"@ + upper_seq(key_name(k)));
        },
        Key::Left => {
            reveal_strlit("VK_LEFT");
            assert("VK_LEFT"@ =~= "VK_"@ + upper_seq(key_name(k)));
        },
        Key::Up => {
            reveal_strlit("VK_UP");
            assert("VK_UP"@ =~= "VK_"@ + upper_seq(key_name(k)));
        },
        Key::Right => {
            reveal_strlit("VK_RIGHT");
            assert("VK_RIGHT"@ =~= "VK_"@ + upper_seq(key_name(k)));
        },
        Key::Down => {
            reveal_strlit("VK_DOWN");
            assert("VK_DOWN"@ =~= "VK_"@ + upper_seq(key_name(k)));
        },
        Key::Insert => {
            reveal_strlit("VK_INSERT");
            assert("VK_INSERT"@ =~= "VK_"@ + upper_seq(key_name(k)));
        },
        Key::Delete => {
            reveal_strlit("VK_DELETE");
            assert("VK_DELETE"@ =~= "VK_"@ + upper_seq(key_name(k)));
        },
        Key::Numpad0 => {
            reveal_strlit("VK_NUMPAD0");
            assert("VK_NUMPAD0"@ =~= "VK_"@ + upper_seq(key_name(k)));
        },
        Key::Numpad1 => {
            reveal_strlit("VK_NUMPAD1");
            assert("VK_NUMPAD1"@ =~= "VK_"@ + upper_seq(key_name(k)));
        },
        Key::Numpad2 => {
            reveal_strlit("VK_NUMPAD2");
            assert("VK_NUMPAD2"@ =~= "VK_"@ + upper_seq(key_name(k)));
        },
        Key::Numpad3 => {
            reveal_strlit("VK_NUMPAD3");
            assert("VK_NUMPAD3"@ =~= "VK_"@ + upper_seq(key_name(k)));
        },
        Key::Numpad4 => {
            reveal_strlit("VK_NUMPAD4");
            assert("VK_NUMPAD4"@ =~= "VK_"@ + upper_seq(key_name(k)));
        },
        Key::Numpad5 => {
            reveal_strlit("VK_NUMPAD5");
            assert("VK_NUMPAD5"@ =~= "VK_"@ + upper_seq(key_name(k)));
        },
        Key::Numpad6 => {
            reveal_strlit("VK_NUMPAD6");
            assert("VK_NUMPAD6"@ =~= "VK_"@ + upper_seq(key_name(k)));
        },
        Key::Numpad7 => {
            reveal_strlit("VK_NUMPAD7");
            assert("VK_NUMPAD7"@ =~= "VK_"@ + upper_seq(key_name(k)));
        },
        Key::Numpad8 => {
            reveal_strlit("VK_NUMPAD8");
            assert("VK_NUMPAD8"@ =~= "VK_"@ + upper_seq(key_name(k)));
        },
        Key::Numpad9 => {
            reveal_strlit("VK_NUMPAD9");
            assert("VK_NUMPAD9"@ =~= "VK_"@ + upper_seq(key_name(k)));
        },
        Key::NumpadMultiply => {
            reveal_strlit("VK_MULTIPLY");
            assert("VK_MULTIPLY"@ =~= "VK_"@ + upper_seq(key_name(k).skip(6)));
        },
        Key::NumpadAdd => {
            reveal_strlit("VK_ADD");
            assert("VK_ADD"@ =~= "VK_"@ + upper_seq(key_name(k).skip(6)));
        },
        Key::NumpadSeparator => {
            reveal_strlit("VK_SEPARATOR");
            assert("VK_SEPARATOR"@ =~= "VK_"@ + upper_seq(key_name(k).skip(6)));
        },
        Key::NumpadSubtract => {
            reveal_strlit("VK_SUBTRACT");
            assert("VK_SUBTRACT"@ =~= "VK_"@ + upper_seq(key_name(k).skip(6)));
        },
        Key::NumpadDecimal => {
            reveal_strlit("VK_DECIMAL");
            assert("VK_DECIMAL"@ =~= "VK_"@ + upper_seq(key_name(k).skip(6)));
        },
        Key::NumpadDivide => {
            reveal_strlit("VK_DIVIDE");
            assert("VK_DIVIDE"@ =~= "VK_"@ + upper_seq(key_name(k).skip(6)));
        },
        Key::F1 => {
            reveal_strlit("VK_F1");
            assert("VK_F1"@ =~= "VK_"@ + upper_seq(key_name(k)));
        },
        Key::F2 => {
            reveal_strlit("VK_F2");
            assert("VK_F2"@ =~= "VK_"@ + upper_seq(key_name(k)));
        },
        Key::F3 => {
            reveal_strlit("VK_F3");
            assert("VK_F3"@ =~= "VK_"@ + upper_seq(key_name(k)));
        },
        Key::F4 => {
            reveal_strlit("VK_F4");
            assert("VK_F4"@ =~= "VK_"@ + upper_seq(key_name(k)));
        },
        Key::F5 => {
            reveal_strlit("VK_F5");
            assert("VK_F5"@ =~= "VK_"@ + upper_seq(key_name(k)));
        },
        Key::F6 => {
            reveal_strlit("VK_F6");
            assert("VK_F6"@ =~= "VK_"@ + upper_seq(key_name(k)));
        },
        Key::F7 => {
            reveal_strlit("VK_F7");
            assert("VK_F7"@ =~= "VK_"@ + upper_seq(key_name(k)));
        },
        Key::F8 => {
            reveal_strlit("VK_F8");
            assert("VK_F8"@ =~= "VK_"@ + upper_seq(key_name(k)));
        },
        Key::F9 => {
            reveal_strlit("VK_F9");
            assert("VK_F9"@ =~= "VK_"@ + upper_seq(key_name(k)));
        },
        Key::F10 => {
            reveal_strlit("VK_F10");
            assert("VK_F10"@ =~= "VK_"@ + upper_seq(key_name(k)));
        },
        Key::F11 => {
            reveal_strlit("VK_F11");
            assert("VK_F11"@ =~= "VK_"@ + upper_seq(key_name(k)));
        },
        Key::F12 => {
            reveal_strlit("VK_F12");
            assert("VK_F12"@ =~= "VK_"@ + upper_seq(key_name(k)));
        },
        Key::F13 => {
            reveal_strlit("VK_F13");
            assert("VK_F13"@ =~= "VK_"@ + upper_seq(key_name(k)));
        },
        Key::F14 => {
            reveal_strlit("VK_F14");
            assert("VK_F14"@ =~= "VK_"@ + upper_seq(key_name(k)));
        },
        Key::F15 => {
            reveal_strlit("VK_F15");
            assert("VK_F15"@ =~= "VK_"@ + upper_seq(key_name(k)));
        },
        Key::F16 => {
            reveal_strlit("VK_F16");
            assert("VK_F16"@ =~= "VK_"@ + upper_seq(key_name(k)));
        },
        Key::F17 => {
            reveal_strlit("VK_F17");
            assert("VK_F17"@ =~= "VK_"@ + upper_seq(key_name(k)));
        },
        Key::F18 => {
            reveal_strlit("VK_F18");
            assert("VK_F18"@ =~= "VK_"@ + upper_seq(key_name(k)));
        },
        Key::F19 => {
            reveal_strlit("VK_F19");
            assert("VK_F19"@ =~= "VK_"@ + upper_seq(key_name(k)));
        },
        Key::F20 => {
            reveal_strlit("VK_F20");
            assert("VK_F20"@ =~= "VK_"@ + upper_seq(key_name(k)));
        },
        Key::F21 => {
            reveal_strlit("VK_F21");
            assert("VK_F21"@ =~= "VK_"@ + upper_seq(key_name(k)));
        },
        Key::F22 => {
            reveal_strlit("VK_F22");
            assert("VK_F22"@ =~= "VK_"@ + upper_seq(key_name(k)));
        },
        Key::F23 => {
            reveal_strlit("VK_F23");
            assert("VK_F23"@ =~= "VK_"@ + upper_seq(key_name(k)));
        },
        Key::F24 => {
            reveal_strlit("VK_F24");
            assert("VK_F24"@ =~= "VK_"@ + upper_seq(key_name(k)));
        },
    }
}

/// Different keys other than characters have different Windows virtual keys.
pub proof fn law_windows_vk_names_distinct(a: Key, b: Key)
    requires
        !(a is Char),
        !(b is Char),
        windows_vk_name(a) == windows_vk_name(b),
    ensures
        a == b,
{
    lemma_windows_vk_chars(a);
    lemma_windows_vk_chars(b);
    let na = windows_vk_chars(a);
    let nb = windows_vk_chars(b);
    assert(na.len() == nb.len());
    if na.len() > 3 {
        assert(na[3] == nb[3]);
    }
    if na.len() > 4 {
        assert(na[4] == nb[4]);
    }
    if na.len() > 5 {
        assert(na[5] == nb[5]);
    }
    if na.len() > 6 {
        assert(na[6] == nb[6]);
    }
    if na.len() > 7 {
        assert(na[7] == nb[7]);
    }
    if na.len() > 8 {
        assert(na[8] == nb[8]);
    }
    if na.len() > 9 {
        assert(na[9] == nb[9]);
    }
    if na.len() > 10 {
        assert(na[10] == nb[10]);
    }
    if na.len() > 11 {
        assert(na[11] == nb[11]);
    }
    if na.len() > 12 {
        assert(na[12] == nb[12]);
    }
}

/// The GTK key value of a key other than a character is the `gdkkeysyms.h`
/// name of the key: its name in the key notation, with `KP_` in place of the
/// `Numpad` prefix of a keypad key, an underscore after the `Page` of PageUp
/// and PageDown, and `BackSpace` for Backspace.
pub proof fn law_gtk_key_names(k: Key)
    requires
        !(k is Char),
    ensures
        gtk_key_name(k) == Some(
            match k {
                Key::Backspace => "BackSpace"@,
                Key::PageUp | Key::PageDown => key_name(k).take(4) + seq!['_'] + key_name(k).skip(4),
                _ => if is_numpad(k) {
                    "KP_"@ + key_name(k).skip(6)
                } else {
                    key_name(k)
                },
            },
        ),
{
    reveal_strlit("KP_");
    match k {
        Key::Char(_) => {},
        Key::Backspace => {
            reveal_strlit("BackSpace");
            assert("BackSpace"@ =~= "BackSpace"@);
        },
        Key::Tab => {
            reveal_strlit("Tab");
            assert("Tab"@ =~= key_name(k));
        },
        Key::Return => {
            reveal_strlit("Return");
            assert("Return"@ =~= key_name(k));
        },
        Key::Escape => {
            reveal_strlit("Escape");
            assert("Escape"@ =~= key_name(k));
        },
        Key::PageUp => {
            reveal_strlit("Page_Up");
            assert("Page_Up"@ =~= key_name(k).take(4) + seq!['_'] + key_name(k).skip(4));
        },
        Key::PageDown => {
            reveal_strlit("Page_Down");
            assert("Page_Down"@ =~= key_name(k).take(4) + seq!['_'] + key_name(k).skip(4));
        },
        Key::End => {
            reveal_strlit("End");
            assert("End"@ =~= key_name(k));
        },
        Key::Home => {
            reveal_strlit("Home");
            assert("Home"@ =~= key_name(k));
        },
        Key::Left => {
            reveal_strlit("Left");
            assert("Left"@ =~= key_name(k));
        },
        Key::Up => {
            reveal_strlit("Up");
            assert("Up"@ =~= key_name(k));
        },
        Key::Right => {
            reveal_strlit("Right");
            assert("Right"@ =~= key_name(k));
        },
        Key::Down => {
            reveal_strlit("Down");
            assert("Down"@ =~= key_name(k));
        },
        Key::Insert => {
            reveal_strlit("Insert");
            assert("Insert"@ =~= key_name(k));
        },
        Key::Delete => {
            reveal_strlit("Delete");
            assert("Delete"@ =~= key_name(k));
        },
        Key::Numpad0 => {
            reveal_strlit("KP_0");
            assert("KP_0"@ =~= "KP_"@ + key_name(k).skip(6));
        },
        Key::Numpad1 => {
            reveal_strlit("KP_1");
            assert("KP_1"@ =~= "KP_"@ + key_name(k).skip(6));
        },
        Key::Numpad2 => {
            reveal_strlit("KP_2");
            assert("KP_2"@ =~= "KP_"@ + key_name(k).skip(6));
        },
        Key::Numpad3 => {
            reveal_strlit("KP_3");
            assert("KP_3"@ =~= "KP_"@ + key_name(k).skip(6));
        },
        Key::Numpad4 => {
            reveal_strlit("KP_4");
            assert("KP_4"@ =~= "KP_"@ + key_name(k).skip(6));
        },
        Key::Numpad5 => {
            reveal_strlit("KP_5");
            assert("KP_5"@ =~= "KP_"@ + key_name(k).skip(6));
        },
        Key::Numpad6 => {
            reveal_strlit("KP_6");
            assert("KP_6"@ =~= "KP_"@ + key_name(k).skip(6));
        },
        Key::Numpad7 => {
            reveal_strlit("KP_7");
            assert("KP_7"@ =~= "KP_"@ + key_name(k).skip(6));
        },
        Key::Numpad8 => {
            reveal_strlit("KP_8");
            assert("KP_8"@ =~= "KP_"@ + key_name(k).skip(6));
        },
        Key::Numpad9 => {
            reveal_strlit("KP_9");
            assert("KP_9"@ =~= "KP_"@ + key_name(k).skip(6));
        },
        Key::NumpadMultiply => {
            reveal_strlit("KP_Multiply");
            assert("KP_Multiply"@ =~= "KP_"@ + key_name(k).skip(6));
        },
        Key::NumpadAdd => {
            reveal_strlit("KP_Add");
            assert("KP_Add"@ =~= "KP_"@ + key_name(k).skip(6));
        },
        Key::NumpadSeparator => {
            reveal_strlit("KP_Separator");
            assert("KP_Separator"@ =~= "KP_"@ + key_name(k).skip(6));
        },
        Key::NumpadSubtract => {
            reveal_strlit("KP_Subtract");
            assert("KP_Subtract"@ =~= "KP_"@ + key_name(k).skip(6));
        },
        Key::NumpadDecimal => {
            reveal_strlit("KP_Decimal");
            assert("KP_Decimal"@ =~= "KP_"@ + key_name(k).skip(6));
        },
        Key::NumpadDivide => {
            reveal_strlit("KP_Divide");
            assert("KP_Divide"@ =~= "KP_"@ + key_name(k).skip(6));
        },
        Key::F1 => {
            reveal_strlit("F1");
            assert("F1"@ =~= key_name(k));
        },
        Key::F2 => {
            reveal_strlit("F2");
            assert("F2"@ =~= key_name(k));
        },
        Key::F3 => {
            reveal_strlit("F3");
            assert("F3"@ =~= key_name(k));
        },
        Key::F4 => {
            reveal_strlit("F4");
            assert("F4"@ =~= key_name(k));
        },
        Key::F5 => {
            reveal_strlit("F5");
            assert("F5"@ =~= key_name(k));
        },
        Key::F6 => {
            reveal_strlit("F6");
            assert("F6"@ =~= key_name(k));
        },
        Key::F7 => {
            reveal_strlit("F7");
            assert("F7"@ =~= key_name(k));
        },
        Key::F8 => {
            reveal_strlit("F8");
            assert("F8"@ =~= key_name(k));
        },
        Key::F9 => {
            reveal_strlit("F9");
            assert("F9"@ =~= key_name(k));
        },
        Key::F10 => {
            reveal_strlit("F10");
            assert("F10"@ =~= key_name(k));
        },
        Key::F11 => {
            reveal_strlit("F11");
            assert("F11"@ =~= key_name(k));
        },
        Key::F12 => {
            reveal_strlit("F12");
            assert("F12"@ =~= key_name(k));
        },
        Key::F13 => {
            reveal_strlit("F13");
            assert("F13"@ =~= key_name(k));
        },
        Key::F14 => {
            reveal_strlit("F14");
            assert("F14"@ =~= key_name(k));
        },
        Key::F15 => {
            reveal_strlit("F15");
            assert("F15"@ =~= key_name(k));
        },
        Key::F16 => {
            reveal_strlit("F16");
            assert("F16"@ =~= key_name(k));
        },
        Key::F17 => {
            reveal_strlit("F17");
            assert("F17"@ =~= key_name(k));
        },
        Key::F18 => {
            reveal_strlit("F18");
            assert("F18"@ =~= key_name(k));
        },
        Key::F19 => {
            reveal_strlit("F19");
            assert("F19"@ =~= key_name(k));
        },
        Key::F20 => {
            reveal_strlit("F20");
            assert("F20"@ =~= key_name(k));
        },
        Key::F21 => {
            reveal_strlit("F21");
            assert("F21"@ =~= key_name(k));
        },
        Key::F22 => {
            reveal_strlit("F22");
            assert("F22"@ =~= key_name(k));
        },
        Key::F23 => {
            reveal_strlit("F23");
            assert("F23"@ =~= key_name(k));
        },
        Key::F24 => {
            reveal_strlit("F24");
            assert("F24"@ =~= key_name(k));
        },
    }
}

/// Different keys other than characters have different GTK key values.
pub proof fn law_gtk_key_names_distinct(a: Key, b: Key)
    requires
        !(a is Char),
        !(b is Char),
        gtk_key_name(a) == gtk_key_name(b),
    ensures
        a == b,
{
    lemma_gtk_key_chars(a);
    lemma_gtk_key_chars(b);
    let na = gtk_key_chars(a);
    let nb = gtk_key_chars(b);
    assert(na.len() == nb.len());
    if na.len() > 0 {
        assert(na[0] == nb[0]);
    }
    if na.len() > 1 {
        assert(na[1] == nb[1]);
    }
    if na.len() > 2 {
        assert(na[2] == nb[2]);
    }
    if na.len() > 3 {
        assert(na[3] == nb[3]);
    }
    if na.len() > 4 {
        assert(na[4] == nb[4]);
    }
    if na.len() > 5 {
        assert(na[5] == nb[5]);
    }
    if na.len() > 6 {
        assert(na[6] == nb[6]);
    }
    if na.len() > 7 {
        assert(na[7] == nb[7]);
    }
    if na.len() > 8 {
        assert(na[8] == nb[8]);
    }
    if na.len() > 9 {
        assert(na[9] == nb[9]);
    }
    if na.len() > 10 {
        assert(na[10] == nb[10]);
    }
    if na.len() > 11 {
        assert(na[11] == nb[11]);
    }
}

} // verus!
