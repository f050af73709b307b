use katnip::binds::{resolvable_key_name, ResolvedBinds};
use katnip::input::{key_action, BTN_LEFT};
use katnip::keybinds::{Action, KeybindTable, Mods};

#[test]
fn resolves_default_chords() {
    let mut table = KeybindTable::new();
    table
        .insert("SUPER+Return", Action::Exec("term".into()))
        .expect("valid");
    table
        .insert("SUPER+q", Action::CloseFocused)
        .expect("valid");

    // Raw keysyms libxkbcommon gives the key names: Return = 0xff0d,
    // q = 'q' as u32.
    let resolved = ResolvedBinds::build(&table, &vec![0xff0d, b'q' as u32]);
    assert_eq!(resolved.len(), 2);

    let logo = Mods {
        logo: true,
        ..Default::default()
    };
    assert_eq!(
        resolved.lookup(&logo, 0xff0d),
        Some(&Action::Exec("term".into()))
    );
    assert_eq!(
        resolved.lookup(&logo, b'q' as u32),
        Some(&Action::CloseFocused)
    );
    assert_eq!(resolved.lookup(&logo, 0), None);
}

#[test]
fn unknown_key_names_are_skipped() {
    let mut table = KeybindTable::new();
    table.insert("SUPER+nosuchkeyname", Action::Quit).expect("valid");
    table.insert("SUPER+F1", Action::Quit).expect("valid");
    // The unknown name resolves to NoSymbol (0); F1 is 0xffbe.
    let resolved = ResolvedBinds::build(&table, &vec![0, 0xffbe]);
    assert_eq!(resolved.len(), 1);
    let logo = Mods {
        logo: true,
        ..Default::default()
    };
    // XKB_KEY_F1
    assert_eq!(resolved.lookup(&logo, 0xffbe), Some(&Action::Quit));
}

#[test]
fn only_presses_fire_binds() {
    let mut table = KeybindTable::new();
    table.insert("SUPER+q", Action::CloseFocused).expect("valid");
    let resolved = ResolvedBinds::build(&table, &vec![b'q' as u32]);
    let logo = Mods {
        logo: true,
        ..Default::default()
    };
    assert_eq!(key_action(&resolved, true, logo, b'q' as u32), Some(Action::CloseFocused));
    assert_eq!(key_action(&resolved, false, logo, b'q' as u32), None);
    assert_eq!(key_action(&resolved, true, Mods::default(), b'q' as u32), None);
    assert_eq!(BTN_LEFT, 0x110);
}

#[test]
fn later_chords_with_the_same_keysym_win() {
    let mut table = KeybindTable::new();
    table.insert("SUPER+Return", Action::Quit).expect("valid");
    table.insert("SUPER+KP_Enter", Action::CloseFocused).expect("valid");
    // Two names that resolve to the same keysym: the later chord wins.
    let resolved = ResolvedBinds::build(&table, &vec![0xff0d, 0xff0d]);
    assert_eq!(resolved.len(), 1);
    let logo = Mods {
        logo: true,
        ..Default::default()
    };
    assert_eq!(resolved.lookup(&logo, 0xff0d), Some(&Action::CloseFocused));
}

#[test]
fn key_names_with_nul_never_bind() {
    assert!(resolvable_key_name("Return"));
    assert!(!resolvable_key_name("q\u{0}"));
    let mut table = KeybindTable::new();
    table.insert("SUPER+q\u{0}", Action::Quit).expect("valid");
    table.insert("ALT+F4", Action::CloseFocused).expect("valid");
    let resolved = ResolvedBinds::build(&table, &vec![b'q' as u32, 0xffc1]);
    assert_eq!(resolved.len(), 1);
    let logo = Mods { logo: true, ..Default::default() };
    assert_eq!(resolved.lookup(&logo, b'q' as u32), None);
    let alt = Mods { alt: true, ..Default::default() };
    assert_eq!(resolved.lookup(&alt, 0xffc1), Some(&Action::CloseFocused));
}
