use tcw3_pal::accel::{
    gtk_compress_mod_flags, gtk_key_binding, macos_key_binding, windows_key_binding, AccelError,
    GtkAccelTable, GtkActionKeyBinding, GtkKeyval, MacosKeyBinding, WindowsKey, GTK_MOD_CONTROL,
    GTK_MOD_META, GTK_MOD_SHIFT, GTK_MOD_SUPER,
};
use tcw3_pal::keycode::{Key, KeyPattern, ModFlags};

fn pat(s: &str) -> KeyPattern {
    KeyPattern::from_str(s).unwrap()
}

#[test]
fn macos_bindings() {
    assert_eq!(
        macos_key_binding(pat("Ctrl+s")),
        Ok(MacosKeyBinding { mod_mask: 0x1e, mod_flags: 0x04, charcode: 0x73 })
    );
    // Keypad disambiguation
    assert_eq!(
        macos_key_binding(pat("Numpad1")),
        Ok(MacosKeyBinding { mod_mask: 0x3e, mod_flags: 0x20, charcode: 0x31 })
    );
    assert_eq!(
        macos_key_binding(pat("1")),
        Ok(MacosKeyBinding { mod_mask: 0x3e, mod_flags: 0, charcode: 0x31 })
    );
    assert_eq!(
        macos_key_binding(pat("Shift+Tab")),
        Ok(MacosKeyBinding { mod_mask: 0x1e, mod_flags: 0x02, charcode: 0x19 })
    );
    assert_eq!(
        macos_key_binding(pat("Super+Alt+F1")),
        Ok(MacosKeyBinding { mod_mask: 0x1e, mod_flags: 0x18, charcode: 0xf704 })
    );
    assert_eq!(macos_key_binding(pat("😀")), Err(AccelError::OutOfBmp));
}

#[test]
fn windows_bindings() {
    let b = windows_key_binding(pat("Ctrl+Shift+z")).unwrap();
    assert_eq!(b.flags, vec!["MOD_SHIFT", "MOD_CONTROL"]);
    assert!(matches!(b.key, WindowsKey::Code(0x5a)));
    let b = windows_key_binding(pat("Alt+PageUp")).unwrap();
    assert_eq!(b.flags, vec!["MOD_MENU"]);
    assert!(matches!(b.key, WindowsKey::Vk("VK_PRIOR")));
    let b = windows_key_binding(pat("7")).unwrap();
    assert!(b.flags.is_empty());
    assert!(matches!(b.key, WindowsKey::Code(0x37)));
    assert!(matches!(windows_key_binding(pat("Super+a")), Err(AccelError::SuperUnsupported)));
    assert!(matches!(
        windows_key_binding(pat("+")),
        Err(AccelError::UnsupportedKey(Key::Char('+')))
    ));
}

#[test]
fn gtk_bindings() {
    let b = gtk_key_binding(pat("Super+Alt+q")).unwrap();
    assert_eq!(b.mod_flags, vec!["MOD_META", "MOD_SUPER"]);
    assert_eq!(b.keyvals.len(), 2);
    assert!(matches!(b.keyvals[0], GtkKeyval::Letter('q')));
    assert!(matches!(b.keyvals[1], GtkKeyval::Letter('Q')));
    let b = gtk_key_binding(pat("Shift+ ")).unwrap();
    assert_eq!(b.mod_flags, vec!["MOD_SHIFT"]);
    assert!(matches!(b.keyvals[..], [GtkKeyval::Name("space")]));
    let b = gtk_key_binding(pat("NumpadDecimal")).unwrap();
    assert!(matches!(b.keyvals[..], [GtkKeyval::Name("KP_Decimal")]));
    assert!(matches!(
        gtk_key_binding(KeyPattern { key: Key::Char('1'), mod_flags: ModFlags(0) }),
        Err(AccelError::UnsupportedKey(Key::Char('1')))
    ));
}

#[test]
fn macos_flags_lie_within_mask() {
    let names = [
        "a", "1", "*", "/", "Numpad0", "Numpad9", "NumpadMultiply", "NumpadDivide", "Tab", "F5",
        "Left", "Return",
    ];
    for name in names.iter() {
        for flags in 0..16u8 {
            let mut p = pat(name);
            p.mod_flags = ModFlags(flags);
            let b = macos_key_binding(p).unwrap();
            assert_eq!(b.mod_flags & !b.mod_mask, 0, "{} {}", name, flags);
        }
    }
}

#[test]
fn gtk_mod_flags_compress_gdk_masks() {
    // GDK_SHIFT_MASK, GDK_CONTROL_MASK, GDK_SUPER_MASK, GDK_META_MASK
    assert_eq!(gtk_compress_mod_flags(1 << 0), GTK_MOD_SHIFT);
    assert_eq!(gtk_compress_mod_flags(1 << 2), GTK_MOD_CONTROL);
    assert_eq!(gtk_compress_mod_flags(1 << 26), GTK_MOD_SUPER);
    assert_eq!(gtk_compress_mod_flags(1 << 28), GTK_MOD_META);
    // Lock, Mod1 and button masks are dropped.
    assert_eq!(gtk_compress_mod_flags((1 << 1) | (1 << 3) | (1 << 8)), 0);
    assert_eq!(
        gtk_compress_mod_flags((1 << 0) | (1 << 2) | (1 << 1)),
        GTK_MOD_SHIFT | GTK_MOD_CONTROL
    );
}

#[test]
fn gtk_accel_table_finds_the_first_exact_match() {
    let table = GtkAccelTable {
        key: vec![
            GtkActionKeyBinding { action: 1, mod_flags: 0, keyval: 0xff08 },
            GtkActionKeyBinding { action: 2, mod_flags: GTK_MOD_CONTROL, keyval: 0xff08 },
            GtkActionKeyBinding { action: 3, mod_flags: GTK_MOD_CONTROL, keyval: 0xff08 },
        ],
    };
    assert_eq!(table.find_action_with_key(0xff08, 0), Some(1));
    assert_eq!(table.find_action_with_key(0xff08, GTK_MOD_CONTROL), Some(2));
    assert_eq!(table.find_action_with_key(0xffff, 0), None);
}
