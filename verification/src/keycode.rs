//! A platform-neutral key notation.
use vstd::prelude::*;

verus! {

broadcast use vstd::string::axiom_spec_iter;

/// A key.
#[derive(Debug, Clone, Copy, PartialEq, Eq, Structural)]
pub enum Key {
    /// A character without any key modifiers applied. Does not include the
    /// inputs by a numeric keypad.
    Char(char),
    Backspace,
    Tab,
    Return,
    Escape,
    PageUp,
    PageDown,
    End,
    Home,
    Left,
    Up,
    Right,
    Down,
    Insert,
    Delete,
    Numpad0,
    Numpad1,
    Numpad2,
    Numpad3,
    Numpad4,
    Numpad5,
    Numpad6,
    Numpad7,
    Numpad8,
    Numpad9,
    NumpadMultiply,
    NumpadAdd,
    NumpadSeparator,
    NumpadSubtract,
    NumpadDecimal,
    NumpadDivide,
    F1,
    F2,
    F3,
    F4,
    F5,
    F6,
    F7,
    F8,
    F9,
    F10,
    F11,
    F12,
    F13,
    F14,
    F15,
    F16,
    F17,
    F18,
    F19,
    F20,
    F21,
    F22,
    F23,
    F24,
}

/// The name of a key other than `Key::Char` in the key notation.
pub open spec fn key_name(k: Key) -> Seq<char> {
    match k {
        Key::Char(_) => Seq::empty(),
        Key::Backspace => seq!['B', 'a', 'c', 'k', 's', 'p', 'a', 'c', 'e'],
        Key::Tab => seq!['T', 'a', 'b'],
        Key::Return => seq!['R', 'e', 't', 'u', 'r', 'n'],
        Key::Escape => seq!['E', 's', 'c', 'a', 'p', 'e'],
        Key::PageUp => seq!['P', 'a', 'g', 'e', 'U', 'p'],
        Key::PageDown => seq!['P', 'a', 'g', 'e', 'D', 'o', 'w', 'n'],
        Key::End => seq!['E', 'n', 'd'],
        Key::Home => seq!['H', 'o', 'm', 'e'],
        Key::Left => seq!['L', 'e', 'f', 't'],
        Key::Up => seq!['U', 'p'],
        Key::Right => seq!['R', 'i', 'g', 'h', 't'],
        Key::Down => seq!['D', 'o', 'w', 'n'],
        Key::Insert => seq!['I', 'n', 's', 'e', 'r', 't'],
        Key::Delete => seq!['D', 'e', 'l', 'e', 't', 'e'],
        Key::Numpad0 => seq!['N', 'u', 'm', 'p', 'a', 'd', '0'],
        Key::Numpad1 => seq!['N', 'u', 'm', 'p', 'a', 'd', '1'],
        Key::Numpad2 => seq!['N', 'u', 'm', 'p', 'a', 'd', '2'],
        Key::Numpad3 => seq!['N', 'u', 'm', 'p', 'a', 'd', '3'],
        Key::Numpad4 => seq!['N', 'u', 'm', 'p', 'a', 'd', '4'],
        Key::Numpad5 => seq!['N', 'u', 'm', 'p', 'a', 'd', '5'],
        Key::Numpad6 => seq!['N', 'u', 'm', 'p', 'a', 'd', '6'],
        Key::Numpad7 => seq!['N', 'u', 'm', 'p', 'a', 'd', '7'],
        Key::Numpad8 => seq!['N', 'u', 'm', 'p', 'a', 'd', '8'],
        Key::Numpad9 => seq!['N', 'u', 'm', 'p', 'a', 'd', '9'],
        Key::NumpadMultiply => seq!['N', 'u', 'm', 'p', 'a', 'd', 'M', 'u', 'l', 't', 'i', 'p', 'l', 'y'],
        Key::NumpadAdd => seq!['N', 'u', 'm', 'p', 'a', 'd', 'A', 'd', 'd'],
        Key::NumpadSeparator => seq!['N', 'u', 'm', 'p', 'a', 'd', 'S', 'e', 'p', 'a', 'r', 'a', 't', 'o', 'r'],
        Key::NumpadSubtract => seq!['N', 'u', 'm', 'p', 'a', 'd', 'S', 'u', 'b', 't', 'r', 'a', 'c', 't'],
        Key::NumpadDecimal => seq!['N', 'u', 'm', 'p', 'a', 'd', 'D', 'e', 'c', 'i', 'm', 'a', 'l'],
        Key::NumpadDivide => seq!['N', 'u', 'm', 'p', 'a', 'd', 'D', 'i', 'v', 'i', 'd', 'e'],
        Key::F1 => seq!['F', '1'],
        Key::F2 => seq!['F', '2'],
        Key::F3 => seq!['F', '3'],
        Key::F4 => seq!['F', '4'],
        Key::F5 => seq!['F', '5'],
        Key::F6 => seq!['F', '6'],
        Key::F7 => seq!['F', '7'],
        Key::F8 => seq!['F', '8'],
        Key::F9 => seq!['F', '9'],
        Key::F10 => seq!['F', '1', '0'],
        Key::F11 => seq!['F', '1', '1'],
        Key::F12 => seq!['F', '1', '2'],
        Key::F13 => seq!['F', '1', '3'],
        Key::F14 => seq!['F', '1', '4'],
        Key::F15 => seq!['F', '1', '5'],
        Key::F16 => seq!['F', '1', '6'],
        Key::F17 => seq!['F', '1', '7'],
        Key::F18 => seq!['F', '1', '8'],
        Key::F19 => seq!['F', '1', '9'],
        Key::F20 => seq!['F', '2', '0'],
        Key::F21 => seq!['F', '2', '1'],
        Key::F22 => seq!['F', '2', '2'],
        Key::F23 => seq!['F', '2', '3'],
        Key::F24 => seq!['F', '2', '4'],
    }
}

/// The key named `s`, if any.
pub open spec fn key_of_name(s: Seq<char>) -> Option<Key> {
    if exists|k: Key| !(k is Char) && key_name(k) == s {
        Some(choose|k: Key| !(k is Char) && key_name(k) == s)
    } else {
        None
    }
}

/// Different keys have different names, so a name determines its key.
pub proof fn law_key_names_distinct(a: Key, b: Key)
    requires
        !(a is Char),
        !(b is Char),
        key_name(a) == key_name(b),
    ensures
        a == b,
{
    let na = key_name(a);
    let nb = key_name(b);
    assert(na.len() == nb.len());
    assert(na[0] == nb[0]);
    if na.len() > 1 {
        assert(na[1] == nb[1]);
    }
    if na.len() > 2 {
        assert(na[2] == nb[2]);
    }
    if na.len() > 6 {
        assert(na[6] == nb[6]);
    }
    if na.len() > 7 {
        assert(na[7] == nb[7]);
    }
    if na.len() > 8 {
        assert(na[8] == nb[8]);
    }
}

/// The characters of `s`.
pub fn str_chars(s: &str) -> (v: Vec<char>)
    ensures
        v@ == s@,
{
    let mut v: Vec<char> = Vec::new();
    for c in it: s.chars()
        invariant
            v@ == it.seq().take(it.index() as int),
    {
        v.push(c);
    }
    v
}

/// `s` equals the literal `lit`.
fn chars_eq(s: &Vec<char>, lit: &[char]) -> (r: bool)
    ensures
        r == (s@ == lit@),
{
    if s.len() != lit.len() {
        return false;
    }
    let mut i: usize = 0;
    while i < s.len()
        invariant
            i <= s.len(),
            s.len() == lit.len(),
            forall|j: int| 0 <= j < i ==> s@[j] == lit@[j],
        decreases s.len() - i,
    {
        if s[i] != lit[i] {
            return false;
        }
        i += 1;
    }
    proof {
        assert(s@ =~= lit@);
    }
    true
}

/// The key whose name is `s`.
pub fn key_from_name(s: &Vec<char>) -> (r: Option<Key>)
    ensures
        match r {
            Some(k) => !(k is Char) && key_name(k) == s@,
            None => forall|k: Key| !(k is Char) ==> key_name(k) != s@,
        },
{
    if chars_eq(s, &['B', 'a', 'c', 'k', 's', 'p', 'a', 'c', 'e']) {
        return Some(Key::Backspace);
    }
    if chars_eq(s, &['T', 'a', 'b']) {
        return Some(Key::Tab);
    }
    if chars_eq(s, &['R', 'e', 't', 'u', 'r', 'n']) {
        return Some(Key::Return);
    }
    if chars_eq(s, &['E', 's', 'c', 'a', 'p', 'e']) {
        return Some(Key::Escape);
    }
    if chars_eq(s, &['P', 'a', 'g', 'e', 'U', 'p']) {
        return Some(Key::PageUp);
    }
    if chars_eq(s, &['P', 'a', 'g', 'e', 'D', 'o', 'w', 'n']) {
        return Some(Key::PageDown);
    }
    if chars_eq(s, &['E', 'n', 'd']) {
        return Some(Key::End);
    }
    if chars_eq(s, &['H', 'o', 'm', 'e']) {
        return Some(Key::Home);
    }
    if chars_eq(s, &['L', 'e', 'f', 't']) {
        return Some(Key::Left);
    }
    if chars_eq(s, &['U', 'p']) {
        return Some(Key::Up);
    }
    if chars_eq(s, &['R', 'i', 'g', 'h', 't']) {
        return Some(Key::Right);
    }
    if chars_eq(s, &['D', 'o', 'w', 'n']) {
        return Some(Key::Down);
    }
    if chars_eq(s, &['I', 'n', 's', 'e', 'r', 't']) {
        return Some(Key::Insert);
    }
    if chars_eq(s, &['D', 'e', 'l', 'e', 't', 'e']) {
        return Some(Key::Delete);
    }
    if chars_eq(s, &['N', 'u', 'm', 'p', 'a', 'd', '0']) {
        return Some(Key::Numpad0);
    }
    if chars_eq(s, &['N', 'u', 'm', 'p', 'a', 'd', '1']) {
        return Some(Key::Numpad1);
    }
    if chars_eq(s, &['N', 'u', 'm', 'p', 'a', 'd', '2']) {
        return Some(Key::Numpad2);
    }
    if chars_eq(s, &['N', 'u', 'm', 'p', 'a', 'd', '3']) {
        return Some(Key::Numpad3);
    }
    if chars_eq(s, &['N', 'u', 'm', 'p', 'a', 'd', '4']) {
        return Some(Key::Numpad4);
    }
    if chars_eq(s, &['N', 'u', 'm', 'p', 'a', 'd', '5']) {
        return Some(Key::Numpad5);
    }
    if chars_eq(s, &['N', 'u', 'm', 'p', 'a', 'd', '6']) {
        return Some(Key::Numpad6);
    }
    if chars_eq(s, &['N', 'u', 'm', 'p', 'a', 'd', '7']) {
        return Some(Key::Numpad7);
    }
    if chars_eq(s, &['N', 'u', 'm', 'p', 'a', 'd', '8']) {
        return Some(Key::Numpad8);
    }
    if chars_eq(s, &['N', 'u', 'm', 'p', 'a', 'd', '9']) {
        return Some(Key::Numpad9);
    }
    if chars_eq(s, &['N', 'u', 'm', 'p', 'a', 'd', 'M', 'u', 'l', 't', 'i', 'p', 'l', 'y']) {
        return Some(Key::NumpadMultiply);
    }
    if chars_eq(s, &['N', 'u', 'm', 'p', 'a', 'd', 'A', 'd', 'd']) {
        return Some(Key::NumpadAdd);
    }
    if chars_eq(s, &['N', 'u', 'm', 'p', 'a', 'd', 'S', 'e', 'p', 'a', 'r', 'a', 't', 'o', 'r']) {
        return Some(Key::NumpadSeparator);
    }
    if chars_eq(s, &['N', 'u', 'm', 'p', 'a', 'd', 'S', 'u', 'b', 't', 'r', 'a', 'c', 't']) {
        return Some(Key::NumpadSubtract);
    }
    if chars_eq(s, &['N', 'u', 'm', 'p', 'a', 'd', 'D', 'e', 'c', 'i', 'm', 'a', 'l']) {
        return Some(Key::NumpadDecimal);
    }
    if chars_eq(s, &['N', 'u', 'm', 'p', 'a', 'd', 'D', 'i', 'v', 'i', 'd', 'e']) {
        return Some(Key::NumpadDivide);
    }
    if chars_eq(s, &['F', '1']) {
        return Some(Key::F1);
    }
    if chars_eq(s, &['F', '2']) {
        return Some(Key::F2);
    }
    if chars_eq(s, &['F', '3']) {
        return Some(Key::F3);
    }
    if chars_eq(s, &['F', '4']) {
        return Some(Key::F4);
    }
    if chars_eq(s, &['F', '5']) {
        return Some(Key::F5);
    }
    if chars_eq(s, &['F', '6']) {
        return Some(Key::F6);
    }
    if chars_eq(s, &['F', '7']) {
        return Some(Key::F7);
    }
    if chars_eq(s, &['F', '8']) {
        return Some(Key::F8);
    }
    if chars_eq(s, &['F', '9']) {
        return Some(Key::F9);
    }
    if chars_eq(s, &['F', '1', '0']) {
        return Some(Key::F10);
    }
    if chars_eq(s, &['F', '1', '1']) {
        return Some(Key::F11);
    }
    if chars_eq(s, &['F', '1', '2']) {
        return Some(Key::F12);
    }
    if chars_eq(s, &['F', '1', '3']) {
        return Some(Key::F13);
    }
    if chars_eq(s, &['F', '1', '4']) {
        return Some(Key::F14);
    }
    if chars_eq(s, &['F', '1', '5']) {
        return Some(Key::F15);
    }
    if chars_eq(s, &['F', '1', '6']) {
        return Some(Key::F16);
    }
    if chars_eq(s, &['F', '1', '7']) {
        return Some(Key::F17);
    }
    if chars_eq(s, &['F', '1', '8']) {
        return Some(Key::F18);
    }
    if chars_eq(s, &['F', '1', '9']) {
        return Some(Key::F19);
    }
    if chars_eq(s, &['F', '2', '0']) {
        return Some(Key::F20);
    }
    if chars_eq(s, &['F', '2', '1']) {
        return Some(Key::F21);
    }
    if chars_eq(s, &['F', '2', '2']) {
        return Some(Key::F22);
    }
    if chars_eq(s, &['F', '2', '3']) {
        return Some(Key::F23);
    }
    if chars_eq(s, &['F', '2', '4']) {
        return Some(Key::F24);
    }
    proof {
        assert forall|k: Key| !(k is Char) implies key_name(k) != s@ by {
            match k {
                Key::Char(_) => {},
                _ => {},
            }
        }
    }
    None
}

/// Key modifiers.
#[derive(Debug, Clone, Copy, PartialEq, Eq, Structural)]
pub struct ModFlags(pub u8);

impl ModFlags {
    /// The Shift key.
    pub fn shift() -> (r: ModFlags)
        ensures
            r.0 == 1,
    {
        ModFlags(1)
    }

    /// The Control key.
    pub fn control() -> (r: ModFlags)
        ensures
            r.0 == 2,
    {
        ModFlags(2)
    }

    /// The Alt (Option) key.
    pub fn alt() -> (r: ModFlags)
        ensures
            r.0 == 4,
    {
        ModFlags(4)
    }

    /// The Super (Command) key.
    pub fn super_key() -> (r: ModFlags)
        ensures
            r.0 == 8,
    {
        ModFlags(8)
    }

    /// No modifier.
    pub fn empty() -> (r: ModFlags)
        ensures
            r.0 == 0,
    {
        ModFlags(0)
    }

    /// Every modifier of `other` is in `self`.
    pub fn contains(self, other: ModFlags) -> (r: bool)
        ensures
            r == (self.0 & other.0 == other.0),
    {
        self.0 & other.0 == other.0
    }

    /// The modifiers of either.
    pub fn union(self, other: ModFlags) -> (r: ModFlags)
        ensures
            r.0 == self.0 | other.0,
    {
        ModFlags(self.0 | other.0)
    }
}

/// A key with modifiers.
#[derive(Debug, Clone, Copy, PartialEq, Eq, Structural)]
pub struct KeyPattern {
    pub key: Key,
    pub mod_flags: ModFlags,
}

/// The prefix of the Shift modifier.
pub open spec fn shift_prefix() -> Seq<char> {
    seq!['S', 'h', 'i', 'f', 't', '+']
}

/// The prefix of the Control modifier.
pub open spec fn ctrl_prefix() -> Seq<char> {
    seq!['C', 't', 'r', 'l', '+']
}

/// The prefix of the Alt modifier.
pub open spec fn alt_prefix() -> Seq<char> {
    seq!['A', 'l', 't', '+']
}

/// The prefix of the Super modifier.
pub open spec fn super_prefix() -> Seq<char> {
    seq!['S', 'u', 'p', 'e', 'r', '+']
}

/// `s` starts with `p`.
pub open spec fn has_prefix(s: Seq<char>, p: Seq<char>) -> bool {
    s.len() >= p.len() && s.take(p.len() as int) == p
}

/// Strip the modifier prefixes (`Shift+`, `Ctrl+`, `Alt+`, `Super+`) off the
/// front of `s`, adding their flags to `flags`.
pub open spec fn strip_modifiers(s: Seq<char>, flags: u8) -> (u8, Seq<char>)
    decreases s.len(),
{
    if has_prefix(s, shift_prefix()) {
        strip_modifiers(s.skip(6), flags | 1)
    } else if has_prefix(s, ctrl_prefix()) {
        strip_modifiers(s.skip(5), flags | 2)
    } else if has_prefix(s, alt_prefix()) {
        strip_modifiers(s.skip(4), flags | 4)
    } else if has_prefix(s, super_prefix()) {
        strip_modifiers(s.skip(6), flags | 8)
    } else {
        (flags, s)
    }
}

/// `char::to_ascii_lowercase`.
pub open spec fn ascii_lower(c: char) -> char {
    if 'A' <= c <= 'Z' {
        ((c as u32) + 32) as char
    } else {
        c
    }
}

/// The message `format!("Unknown key: {:?}", s)` for the characters `s`.
pub uninterp spec fn unknown_key_text(s: Seq<char>) -> Seq<char>;

/// The message for a pattern without a key.
pub open spec fn missing_key_text() -> Seq<char> {
    "Key symbol is missing"@
}

/// What `KeyPattern::from_str` gives for the characters `s`.
pub open spec fn parse_key_pattern(s: Seq<char>) -> Result<KeyPattern, Seq<char>> {
    let (flags, rest) = strip_modifiers(s, 0);
    match key_of_name(rest) {
        Some(k) => Ok(KeyPattern { key: k, mod_flags: ModFlags(flags) }),
        None => if rest.len() >= 2 {
            Err(unknown_key_text(rest))
        } else if rest.len() == 0 {
            Err(missing_key_text())
        } else {
            Ok(KeyPattern { key: Key::Char(ascii_lower(rest[0])), mod_flags: ModFlags(flags) })
        },
    }
}

/// Calls `format!` to build the message `Unknown key: {:?}` for the
/// characters `rest` collected into a `String`. The text is named, not
/// stated.
#[verifier::external_body]
fn unknown_key_message(rest: &Vec<char>) -> (m: String)
    ensures
        m@ == unknown_key_text(rest@),
{
    format!("Unknown key: {:?}", rest.iter().collect::<String>())
}

/// `v[start..]` starts with `lit`.
fn starts_with_at(v: &Vec<char>, start: usize, lit: &[char]) -> (r: bool)
    requires
        start <= v.len(),
    ensures
        r == has_prefix(v@.skip(start as int), lit@),
{
    if v.len() - start < lit.len() {
        return false;
    }
    let mut i: usize = 0;
    while i < lit.len()
        invariant
            start <= v.len(),
            v.len() - start >= lit.len(),
            i <= lit.len(),
            forall|j: int| 0 <= j < i ==> v@[start + j] == lit@[j],
        decreases lit.len() - i,
    {
        if v[start + i] != lit[i] {
            proof {
                assert(v@.skip(start as int).take(lit@.len() as int)[i as int] != lit@[i as int]);
            }
            return false;
        }
        i += 1;
    }
    proof {
        assert(v@.skip(start as int).take(lit@.len() as int) =~= lit@);
    }
    true
}

/// `char::to_ascii_lowercase`.
pub fn to_ascii_lowercase(c: char) -> (r: char)
    ensures
        r == ascii_lower(c),
{
    if 'A' <= c && c <= 'Z' {
        ((c as u8) + 32) as char
    } else {
        c
    }
}

impl KeyPattern {
    /// Parse the key notation, such as `Ctrl+Shift+a` or `Alt+F4`.
    ///
    /// A pattern that is not a key name but a single character stands for
    /// that character, converted to lower case.
    pub fn from_str(s: &str) -> (r: Result<KeyPattern, String>)
        ensures
            match (r, parse_key_pattern(s@)) {
                (Ok(p), Ok(q)) => p == q,
                (Err(e), Err(f)) => e@ == f,
                _ => false,
            },
    {
        let chars = str_chars(s);
        let mut flags: u8 = 0;
        let mut pos: usize = 0;
        proof {
            assert(chars@.skip(0) =~= chars@);
        }
        loop
            invariant
                pos <= chars.len(),
                chars@ == s@,
                strip_modifiers(chars@.skip(pos as int), flags) == strip_modifiers(s@, 0),
            ensures
                pos <= chars.len(),
                strip_modifiers(s@, 0) == (flags, chars@.skip(pos as int)),
            decreases chars.len() - pos,
        {
            let ghost rest = chars@.skip(pos as int);
            if starts_with_at(&chars, pos, &['S', 'h', 'i', 'f', 't', '+']) {
                proof {
                    assert(chars@.skip(pos as int).skip(6) =~= chars@.skip(pos + 6));
                }
                flags = flags | 1;
                pos = pos + 6;
            } else if starts_with_at(&chars, pos, &['C', 't', 'r', 'l', '+']) {
                proof {
                    assert(chars@.skip(pos as int).skip(5) =~= chars@.skip(pos + 5));
                }
                flags = flags | 2;
                pos = pos + 5;
            } else if starts_with_at(&chars, pos, &['A', 'l', 't', '+']) {
                proof {
                    assert(chars@.skip(pos as int).skip(4) =~= chars@.skip(pos + 4));
                }
                flags = flags | 4;
                pos = pos + 4;
            } else if starts_with_at(&chars, pos, &['S', 'u', 'p', 'e', 'r', '+']) {
                proof {
                    assert(chars@.skip(pos as int).skip(6) =~= chars@.skip(pos + 6));
                }
                flags = flags | 8;
                pos = pos + 6;
            } else {
                break;
            }
        }
        let mut rest: Vec<char> = Vec::new();
        let mut i: usize = pos;
        while i < chars.len()
            invariant
                pos <= i <= chars.len(),
                rest@ == chars@.subrange(pos as int, i as int),
            decreases chars.len() - i,
        {
            rest.push(chars[i]);
            i += 1;
        }
        proof {
            assert(rest@ =~= chars@.skip(pos as int));
        }
        let mod_flags = ModFlags(flags);
        match key_from_name(&rest) {
            Some(key) => {
                proof {
                    assert(key_of_name(rest@) == Some(key)) by {
                        let k2 = choose|k: Key| !(k is Char) && key_name(k) == rest@;
                        law_key_names_distinct(k2, key);
                    }
                }
                Ok(KeyPattern { key, mod_flags })
            },
            None => {
                if rest.len() >= 2 {
                    Err(unknown_key_message(&rest))
                } else if rest.len() == 0 {
                    Err("Key symbol is missing".to_owned())
                } else {
                    Ok(KeyPattern { key: Key::Char(to_ascii_lowercase(rest[0])), mod_flags })
                }
            },
        }
    }
}

/// A key's name, without modifiers, parses back to that key.
pub proof fn law_key_name_parses(k: Key)
    requires
        !(k is Char),
    ensures
        parse_key_pattern(key_name(k)) == Ok::<KeyPattern, Seq<char>>(
            KeyPattern { key: k, mod_flags: ModFlags(0) },
        ),
{
    let n = key_name(k);
    assert(!has_prefix(n, shift_prefix()) && !has_prefix(n, ctrl_prefix()) && !has_prefix(
        n,
        alt_prefix(),
    ) && !has_prefix(n, super_prefix())) by {
        if n.len() >= 4 {
            assert(n.take(4)[3] != '+');
        }
        if n.len() >= 5 {
            assert(n.take(5)[4] != '+');
        }
        if n.len() >= 6 {
            assert(n.take(6)[5] != '+');
        }
    }
    assert(strip_modifiers(n, 0) == (0u8, n));
    assert(exists|k2: Key| !(k2 is Char) && key_name(k2) == n);
    let k2 = choose|k2: Key| !(k2 is Char) && key_name(k2) == n;
    law_key_names_distinct(k2, k);
}

/// Every key name has at least two characters, so a single character never
/// names a key.
proof fn lemma_key_names_long(k: Key)
    requires
        !(k is Char),
    ensures
        key_name(k).len() >= 2,
{
}

/// A single character is no key name.
proof fn lemma_single_char_unnamed(c: char)
    ensures
        key_of_name(seq![c]) is None,
{
    if exists|k: Key| !(k is Char) && key_name(k) == seq![c] {
        let k = choose|k: Key| !(k is Char) && key_name(k) == seq![c];
        lemma_key_names_long(k);
    }
}

proof fn lemma_or_assoc(f: u8, b: u8, x: u8)
    ensures
        (f | b) | x == f | (b | x),
{
    assert((f | b) | x == f | (b | x)) by (bit_vector);
}

proof fn lemma_or_zero(f: u8)
    ensures
        f | 0 == f,
{
    assert(f | 0 == f) by (bit_vector);
}

proof fn lemma_zero_or(b: u8)
    ensures
        0u8 | b == b,
{
    assert(0u8 | b == b) by (bit_vector);
}

proof fn lemma_or_comm(a: u8, b: u8)
    ensures
        a | b == b | a,
{
    assert(a | b == b | a) by (bit_vector);
}

/// Stripping modifiers with some flags already set adds them to what
/// stripping from none gives.
proof fn lemma_strip_flags(s: Seq<char>, f: u8)
    ensures
        strip_modifiers(s, f) == ((f | strip_modifiers(s, 0).0) as u8, strip_modifiers(s, 0).1),
    decreases s.len(),
{
    if has_prefix(s, shift_prefix()) {
        lemma_strip_flags(s.skip(6), f | 1);
        lemma_strip_flags(s.skip(6), 1);
        lemma_zero_or(1);
        let x = strip_modifiers(s.skip(6), 0).0;
        lemma_or_assoc(f, 1, x);
    } else if has_prefix(s, ctrl_prefix()) {
        lemma_strip_flags(s.skip(5), f | 2);
        lemma_strip_flags(s.skip(5), 2);
        lemma_zero_or(2);
        let x = strip_modifiers(s.skip(5), 0).0;
        lemma_or_assoc(f, 2, x);
    } else if has_prefix(s, alt_prefix()) {
        lemma_strip_flags(s.skip(4), f | 4);
        lemma_strip_flags(s.skip(4), 4);
        lemma_zero_or(4);
        let x = strip_modifiers(s.skip(4), 0).0;
        lemma_or_assoc(f, 4, x);
    } else if has_prefix(s, super_prefix()) {
        lemma_strip_flags(s.skip(6), f | 8);
        lemma_strip_flags(s.skip(6), 8);
        lemma_zero_or(8);
        let x = strip_modifiers(s.skip(6), 0).0;
        lemma_or_assoc(f, 8, x);
    } else {
        lemma_or_zero(f);
    }
}

/// A modifier prefix (`Shift+`, `Ctrl+`, `Alt+` or `Super+`, with its flag
/// `bit`) in front of a pattern adds its flag and changes nothing else: the
/// key, or the error, stays the same.
pub proof fn law_modifier_prefix_keeps_key(m: Seq<char>, bit: u8, s: Seq<char>)
    requires
        (m == shift_prefix() && bit == 1) || (m == ctrl_prefix() && bit == 2) || (m == alt_prefix() && bit
            == 4) || (m == super_prefix() && bit == 8),
    ensures
        match (parse_key_pattern(m + s), parse_key_pattern(s)) {
            (Ok(p), Ok(q)) => p.key == q.key && p.mod_flags.0 == q.mod_flags.0 | bit,
            (Err(e), Err(f)) => e == f,
            _ => false,
        },
{
    let t = m + s;
    assert(t.take(m.len() as int) =~= m);
    assert(t.skip(m.len() as int) =~= s);
    if m == ctrl_prefix() {
        assert(!has_prefix(t, shift_prefix())) by {
            if t.len() >= 6 {
                assert(t.take(6)[0] == 'C');
            }
        }
    }
    if m == alt_prefix() {
        assert(!has_prefix(t, shift_prefix())) by {
            if t.len() >= 6 {
                assert(t.take(6)[0] == 'A');
            }
        }
        assert(!has_prefix(t, ctrl_prefix())) by {
            if t.len() >= 5 {
                assert(t.take(5)[0] == 'A');
            }
        }
    }
    if m == super_prefix() {
        assert(!has_prefix(t, shift_prefix())) by {
            assert(t.take(6)[1] == 'u');
        }
        assert(!has_prefix(t, ctrl_prefix())) by {
            assert(t.take(5)[0] == 'S');
        }
        assert(!has_prefix(t, alt_prefix())) by {
            assert(t.take(4)[0] == 'S');
        }
    }
    lemma_zero_or(bit);
    assert(strip_modifiers(t, 0) == strip_modifiers(s, bit));
    lemma_strip_flags(s, bit);
    lemma_or_comm(bit, strip_modifiers(s, 0).0);
}

/// A pattern that is a single character stands for that character, with an
/// upper-case ASCII letter turned into its lower-case form.
pub proof fn law_single_char_pattern(c: char)
    ensures
        parse_key_pattern(seq![c]) == Ok::<KeyPattern, Seq<char>>(
            KeyPattern {
                key: Key::Char(
                    if 'A' <= c <= 'Z' {
                        ((c as u32) + 32) as char
                    } else {
                        c
                    },
                ),
                mod_flags: ModFlags(0),
            },
        ),
{
    let t = seq![c];
    assert(!has_prefix(t, shift_prefix()) && !has_prefix(t, ctrl_prefix()) && !has_prefix(t, alt_prefix())
        && !has_prefix(t, super_prefix()));
    assert(strip_modifiers(t, 0) == (0u8, t));
    lemma_single_char_unnamed(c);
}

/// A parsed pattern never holds an upper-case ASCII letter: letters are
/// matched without regard to case.
pub proof fn law_parsed_char_is_lower(s: Seq<char>)
    ensures
        parse_key_pattern(s) matches Ok(p) ==> (p.key matches Key::Char(c) ==> !('A' <= c <= 'Z')),
{
    let rest = strip_modifiers(s, 0).1;
    if let Some(k) = key_of_name(rest) {
        assert(exists|k2: Key| !(k2 is Char) && key_name(k2) == rest);
    }
}

} // verus!
