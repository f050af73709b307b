use katnip::keybinds::{Action, KeybindTable, Mods};
use katnip::plugins::{
    add_plugin_binds, bind_errors, check_abi, native_plugin_name, validate_chord_and_action, LoadedPlugin,
    NativeRegistration, PluginRegistration, KATNIP_ABI_VERSION,
};

#[test]
fn binds_are_validated_chord_first() {
    assert_eq!(validate_chord_and_action("SUPER+T", "exec foot"), Ok(()));
    assert_eq!(
        validate_chord_and_action("HYPER+T", "explode"),
        Err("invalid chord spec \"HYPER+T\"".to_string())
    );
    assert_eq!(
        validate_chord_and_action("SUPER+T", "explode"),
        Err("unknown action \"explode\"".to_string())
    );
}

#[test]
fn bad_binds_are_reported_per_plugin() {
    let binds = vec![
        ("SUPER+T".to_string(), "exec foot".to_string()),
        ("SUPER+".to_string(), "close".to_string()),
        ("SUPER+X".to_string(), "workspace 0".to_string()),
    ];
    assert_eq!(
        bind_errors("/p/a.rhai", &binds),
        vec![
            "/p/a.rhai: invalid chord spec \"SUPER+\"".to_string(),
            "/p/a.rhai: unknown action \"workspace 0\"".to_string(),
        ]
    );
    assert!(bind_errors("/p/a.rhai", &Vec::new()).is_empty());
}

#[test]
fn native_names_drop_lib_prefixes() {
    assert_eq!(native_plugin_name(Some("libfoo.so")), "foo");
    assert_eq!(native_plugin_name(Some("liblibbar.so")), "bar");
    assert_eq!(native_plugin_name(Some("baz.dylib")), "baz");
    assert_eq!(native_plugin_name(Some("lib.so")), "");
    assert_eq!(native_plugin_name(Some("libx.tar.so")), "x.tar");
    assert_eq!(native_plugin_name(Some("plain")), "plain");
    assert_eq!(native_plugin_name(None), "plugin");
}

#[test]
fn abi_versions_must_match() {
    assert_eq!(KATNIP_ABI_VERSION, 1);
    assert_eq!(check_abi(1), Ok(()));
    assert_eq!(
        check_abi(7),
        Err("ABI mismatch: plugin reports 7, host expects 1".to_string())
    );
}

#[test]
fn registrations_start_empty() {
    assert!(PluginRegistration::new().binds.is_empty());
    assert!(NativeRegistration::new().binds.is_empty());
    let p = LoadedPlugin {
        name: "x".into(),
        path: "/p/x.rhai".into(),
    };
    assert_eq!(p.clone().name, "x");
}

#[test]
fn plugin_binds_join_the_table() {
    let mut table = KeybindTable::new();
    table.insert("SUPER+t", Action::Quit).expect("valid");
    let binds = vec![
        ("SUPER+T".to_string(), "exec foot".to_string()),
        ("BANANA+x".to_string(), "close".to_string()),
        ("SUPER+y".to_string(), "explode".to_string()),
        ("ALT+z".to_string(), "close".to_string()),
    ];
    add_plugin_binds(&mut table, &binds);
    assert_eq!(table.len(), 2);
    let logo = Mods { logo: true, ..Default::default() };
    assert_eq!(table.lookup(&logo, "t"), Some(&Action::Exec("foot".into())));
    let alt = Mods { alt: true, ..Default::default() };
    assert_eq!(table.lookup(&alt, "z"), Some(&Action::CloseFocused));
    assert_eq!(table.lookup(&logo, "y"), None);
}
