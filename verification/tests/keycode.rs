use tcw3_pal::keycode::{key_from_name, str_chars, to_ascii_lowercase, Key, KeyPattern, ModFlags};

fn pat(key: Key, flags: u8) -> KeyPattern {
    KeyPattern { key, mod_flags: ModFlags(flags) }
}

#[test]
fn parses_plain_keys() {
    assert_eq!(KeyPattern::from_str("Left"), Ok(pat(Key::Left, 0)));
    assert_eq!(KeyPattern::from_str("F24"), Ok(pat(Key::F24, 0)));
    assert_eq!(KeyPattern::from_str("NumpadMultiply"), Ok(pat(Key::NumpadMultiply, 0)));
    assert_eq!(KeyPattern::from_str("Backspace"), Ok(pat(Key::Backspace, 0)));
}

#[test]
fn parses_modifiers_in_any_order() {
    assert_eq!(KeyPattern::from_str("Ctrl+Shift+Tab"), Ok(pat(Key::Tab, 3)));
    assert_eq!(KeyPattern::from_str("Shift+Ctrl+Tab"), Ok(pat(Key::Tab, 3)));
    assert_eq!(KeyPattern::from_str("Super+Alt+F4"), Ok(pat(Key::F4, 12)));
    assert_eq!(KeyPattern::from_str("Shift+Shift+Up"), Ok(pat(Key::Up, 1)));
}

#[test]
fn single_characters_are_lowercased() {
    assert_eq!(KeyPattern::from_str("Ctrl+S"), Ok(pat(Key::Char('s'), 2)));
    assert_eq!(KeyPattern::from_str("a"), Ok(pat(Key::Char('a'), 0)));
    assert_eq!(KeyPattern::from_str("+"), Ok(pat(Key::Char('+'), 0)));
    assert_eq!(KeyPattern::from_str("é"), Ok(pat(Key::Char('é'), 0)));
}

#[test]
fn reports_unknown_and_missing_keys() {
    assert_eq!(KeyPattern::from_str("Ctrl+Foo"), Err("Unknown key: \"Foo\"".to_owned()));
    assert_eq!(KeyPattern::from_str("Ctrl+"), Err("Key symbol is missing".to_owned()));
    assert_eq!(KeyPattern::from_str(""), Err("Key symbol is missing".to_owned()));
    assert_eq!(KeyPattern::from_str("left"), Err("Unknown key: \"left\"".to_owned()));
}

#[test]
fn key_names_round_trip() {
    for k in [Key::Home, Key::PageDown, Key::Numpad7, Key::NumpadSeparator, Key::F10] {
        let name = format!("{:?}", k);
        assert_eq!(key_from_name(&name.chars().collect()), Some(k));
        assert_eq!(KeyPattern::from_str(&name), Ok(pat(k, 0)));
    }
    assert_eq!(key_from_name(&"Char".chars().collect()), None);
}

#[test]
fn helpers() {
    assert_eq!(str_chars("héllo"), vec!['h', 'é', 'l', 'l', 'o']);
    assert_eq!(to_ascii_lowercase('Q'), 'q');
    assert_eq!(to_ascii_lowercase('q'), 'q');
    assert_eq!(to_ascii_lowercase('Ä'), 'Ä');
    let f = ModFlags::shift().union(ModFlags::alt());
    assert_eq!(f, ModFlags(5));
    assert!(f.contains(ModFlags::alt()));
    assert!(!f.contains(ModFlags::control()));
    assert!(f.contains(ModFlags::empty()));
    assert_eq!(ModFlags::super_key(), ModFlags(8));
}
