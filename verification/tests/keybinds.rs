use katnip::keybinds::{Action, KeybindTable, Mods};

#[test]
fn parses_simple_chord() {
    let (mods, key) = Mods::parse_chord("SUPER+Return").expect("valid");
    assert!(mods.logo);
    assert!(!mods.shift);
    assert_eq!(key, "return");
}

#[test]
fn parses_multi_modifier_chord() {
    let (mods, key) = Mods::parse_chord("SUPER+SHIFT+1").expect("valid");
    assert!(mods.logo && mods.shift);
    assert!(!mods.ctrl);
    assert_eq!(key, "1");
}

#[test]
fn case_and_alias_insensitive() {
    let a = Mods::parse_chord("mod4+Q");
    let b = Mods::parse_chord("SuPeR+q");
    assert_eq!(a, b);
}

#[test]
fn rejects_unknown_modifier() {
    assert!(Mods::parse_chord("HYPER+q").is_none());
    assert!(Mods::parse_chord("").is_none());
    assert!(Mods::parse_chord("SUPER+").is_none());
}

#[test]
fn table_lookup_is_exact_on_mods_and_key() {
    let mut table = KeybindTable::new();
    table
        .insert("SUPER+Return", Action::Exec("term".into()))
        .expect("valid spec");
    table
        .insert("SUPER+q", Action::CloseFocused)
        .expect("valid spec");

    let logo_only = Mods {
        logo: true,
        ..Default::default()
    };
    assert_eq!(
        table.lookup(&logo_only, "RETURN"),
        Some(&Action::Exec("term".into()))
    );
    assert_eq!(table.lookup(&logo_only, "q"), Some(&Action::CloseFocused));

    let no_mods = Mods::default();
    assert_eq!(table.lookup(&no_mods, "return"), None);
    assert_eq!(table.lookup(&logo_only, "w"), None);

    let logo_shift = Mods {
        logo: true,
        shift: true,
        ..Default::default()
    };
    assert_eq!(table.lookup(&logo_shift, "return"), None);
}

#[test]
fn later_insert_replaces_earlier() {
    let mut table = KeybindTable::new();
    table
        .insert("SUPER+q", Action::CloseFocused)
        .expect("valid spec");
    table.insert("SUPER+q", Action::Quit).expect("valid spec");
    assert_eq!(table.len(), 1);
    let logo = Mods {
        logo: true,
        ..Default::default()
    };
    assert_eq!(table.lookup(&logo, "q"), Some(&Action::Quit));
}

#[test]
fn modifier_aliases_parse() {
    let (m, k) = Mods::parse_chord("ctrl+alt+shift+super+x").expect("valid");
    assert!(m.ctrl && m.alt && m.shift && m.logo);
    assert_eq!(k, "x");
    let (m, k) = Mods::parse_chord(" Control + Mod1 + mod4 + T ").expect("valid");
    assert!(m.ctrl && m.alt && m.logo && !m.shift);
    assert_eq!(k, "t");
    assert!(Mods::parse_chord("win+t").is_none());
    let (m, k) = Mods::parse_chord("F5").expect("valid");
    assert_eq!(m, Mods::none());
    assert_eq!(k, "f5");
}

#[test]
fn invalid_insert_reports_spec() {
    let mut table = KeybindTable::new();
    let err = table
        .insert("BANANA+q", Action::Quit)
        .expect_err("unknown modifier");
    assert_eq!(err, "invalid keybind spec \"BANANA+q\"");
    assert!(table.is_empty());
    assert_eq!(table.len(), 0);
}

#[test]
fn chords_keep_insertion_order() {
    let mut table = KeybindTable::new();
    table.insert("SUPER+a", Action::Quit).expect("valid");
    table.insert("SUPER+b", Action::CloseFocused).expect("valid");
    table.insert("SUPER+a", Action::ToggleFloating).expect("valid");
    let chords = table.chords();
    assert_eq!(chords.len(), 2);
    assert_eq!(chords[0].1, "b");
    assert_eq!(chords[1].1, "a");
    assert_eq!(chords[1].2, Action::ToggleFloating);
}
