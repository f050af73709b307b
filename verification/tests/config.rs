use katnip::config::{keys_ascending, parse_action, startup, BarRaw, Config, ConfigError, ConfigRaw, GeneralRaw};
use katnip::keybinds::{Action, Mods};

fn empty_raw() -> ConfigRaw {
    ConfigRaw {
        general: GeneralRaw {
            outer_gap: None,
            inner_gap: None,
            border_width: None,
            terminal: None,
        },
        bar: BarRaw {
            enabled: None,
            height: None,
        },
        env: Vec::new(),
        keybinds: Vec::new(),
        autostart_exec: None,
    }
}

fn pair(a: &str, b: &str) -> (String, String) {
    (a.to_string(), b.to_string())
}

#[test]
fn action_grammar() {
    assert_eq!(
        parse_action("exec lumiterm -e luminousity"),
        Some(Action::Exec("lumiterm -e luminousity".into()))
    );
    assert_eq!(parse_action("close"), Some(Action::CloseFocused));
    assert_eq!(parse_action("toggle-floating"), Some(Action::ToggleFloating));
    assert_eq!(parse_action("quit"), Some(Action::Quit));
    assert_eq!(parse_action("workspace 3"), Some(Action::FocusWorkspace(2)));
    assert_eq!(
        parse_action("move-to-workspace 9"),
        Some(Action::MoveToWorkspace(8))
    );
    assert_eq!(parse_action("workspace 0"), None);
    assert_eq!(parse_action("exec"), None);
    assert_eq!(parse_action("explode"), None);
}

#[test]
fn default_keybinds_resolve_into_table() {
    let table = Config::with_defaults()
        .keybind_table()
        .expect("defaults valid");
    assert!(table.len() >= 5);
}

#[test]
fn parses_full_config() {
    let mut raw = empty_raw();
    raw.general = GeneralRaw {
        outer_gap: Some(12),
        inner_gap: Some(4),
        border_width: Some(3),
        terminal: Some("foot".into()),
    };
    raw.env = vec![pair("SHELL", "/usr/bin/lush")];
    // Ordered by chord, as the file's sorted map gives them.
    raw.keybinds = vec![
        pair("SUPER+2", "workspace 2"),
        pair("SUPER+Q", "close"),
        pair("SUPER+Return", "exec foot"),
    ];
    raw.autostart_exec = Some(vec!["waybar".into(), "swaybg -c #101014".into()]);
    let cfg = Config::from_raw(raw).expect("valid config");

    assert_eq!(cfg.general.outer_gap, 12);
    assert_eq!(cfg.general.inner_gap, 4);
    assert_eq!(cfg.general.border_width, 3);
    assert_eq!(cfg.general.terminal, "foot");
    assert_eq!(
        cfg.env.iter().find(|(k, _)| k == "SHELL").map(|(_, v)| v.as_str()),
        Some("/usr/bin/lush")
    );
    assert_eq!(cfg.keybinds.len(), 3);
    assert_eq!(cfg.autostart.len(), 2);
}

#[test]
fn missing_fields_fall_back_to_defaults() {
    let mut raw = empty_raw();
    raw.general.terminal = Some("alacritty".into());
    let cfg = Config::from_raw(raw).expect("valid");
    assert_eq!(cfg.general.terminal, "alacritty");
    assert_eq!(cfg.general.outer_gap, 8);
    assert!(cfg.autostart.is_empty());
}

#[test]
fn empty_file_yields_defaults() {
    let cfg = Config::from_raw(empty_raw()).expect("valid");
    assert_eq!(cfg.general.border_width, 2);
    assert!(cfg.keybinds.is_empty());
}

#[test]
fn gaps_out_of_range_rejected() {
    let mut raw = empty_raw();
    raw.general.outer_gap = Some(-1);
    assert!(Config::from_raw(raw).is_err());
    let mut raw = empty_raw();
    raw.general.inner_gap = Some(9999);
    assert!(Config::from_raw(raw).is_err());
}

#[test]
fn empty_terminal_rejected() {
    let mut raw = empty_raw();
    raw.general.terminal = Some(" ".into());
    assert!(Config::from_raw(raw).is_err());
}

#[test]
fn bad_chord_reports_entry() {
    let mut raw = empty_raw();
    raw.keybinds = vec![pair("BANANA+q", "close")];
    let cfg = Config::from_raw(raw).expect("parses");
    let err = cfg.keybind_table().expect_err("bad chord must fail");
    assert!(err.message().contains("invalid keybind spec"), "{err:?}");
}

#[test]
fn validation_messages_are_exact() {
    let mut raw = empty_raw();
    raw.general.outer_gap = Some(-1);
    assert_eq!(
        Config::from_raw(raw).unwrap_err(),
        ConfigError::Validation("general.outer_gap must be between 0 and 512, got -1".into())
    );
    let mut raw = empty_raw();
    raw.general.outer_gap = Some(0);
    raw.general.inner_gap = Some(513);
    assert_eq!(
        Config::from_raw(raw).unwrap_err(),
        ConfigError::Validation("general.inner_gap must be between 0 and 512, got 513".into())
    );
    let mut raw = empty_raw();
    raw.general.terminal = Some("\t \n".into());
    assert_eq!(
        Config::from_raw(raw).unwrap_err(),
        ConfigError::Validation("general.terminal must not be empty".into())
    );
}

#[test]
fn gap_bounds_are_inclusive_and_border_clamps() {
    let mut raw = empty_raw();
    raw.general.outer_gap = Some(512);
    raw.general.inner_gap = Some(0);
    raw.general.border_width = Some(-5);
    let cfg = Config::from_raw(raw).expect("valid");
    assert_eq!(cfg.general.outer_gap, 512);
    assert_eq!(cfg.general.inner_gap, 0);
    assert_eq!(cfg.general.border_width, 0);
}

#[test]
fn bar_section_overrides_defaults() {
    let cfg = Config::from_raw(empty_raw()).expect("valid");
    assert!(cfg.bar.enabled);
    assert_eq!(cfg.bar.height, 28);
    let mut raw = empty_raw();
    raw.bar = BarRaw {
        enabled: Some(false),
        height: Some(40),
    };
    let cfg = Config::from_raw(raw).expect("valid");
    assert!(!cfg.bar.enabled);
    assert_eq!(cfg.bar.height, 40);
}

#[test]
fn defaults_are_the_documented_ones() {
    let cfg = Config::with_defaults();
    assert_eq!(cfg.general.outer_gap, 8);
    assert_eq!(cfg.general.inner_gap, 8);
    assert_eq!(cfg.general.border_width, 2);
    assert_eq!(cfg.general.terminal, "lumiterm");
    assert_eq!(cfg.keybinds.len(), 5);
    assert_eq!(cfg.keybinds[0], pair("SUPER+Return", "exec lumiterm"));
    assert_eq!(cfg.env[1], pair("TERMINAL", "lumiterm"));
}

#[test]
fn table_errors_name_the_first_bad_entry() {
    let mut raw = empty_raw();
    raw.keybinds = vec![
        pair("SUPER+a", "close"),
        pair("SUPER+b", "explode"),
        pair("ZAP+c", "close"),
    ];
    let cfg = Config::from_raw(raw).expect("valid");
    assert_eq!(
        cfg.keybind_table().unwrap_err(),
        ConfigError::Validation("unknown action \"explode\"".into())
    );
    let mut raw = empty_raw();
    // "SUPER+A" sorts before "SUPER+a"; the later entry wins.
    raw.keybinds = vec![pair("SUPER+A", "quit"), pair("SUPER+a", "close")];
    let table = Config::from_raw(raw).unwrap().keybind_table().expect("valid");
    assert_eq!(table.len(), 1);
    let logo = Mods {
        logo: true,
        ..Default::default()
    };
    assert_eq!(table.lookup(&logo, "a"), Some(&Action::CloseFocused));
}

#[test]
fn error_messages_render_like_display() {
    assert_eq!(
        ConfigError::Io("/x".into(), "denied".into()).message(),
        "failed to read /x: denied"
    );
    assert_eq!(
        ConfigError::Parse("bad".into()).message(),
        "config syntax error: bad"
    );
    assert_eq!(ConfigError::Validation("v".into()).message(), "v");
}

#[test]
fn action_grammar_edge_cases() {
    assert_eq!(parse_action("  EXEC   foo  bar "), Some(Action::Exec("foo  bar".into())));
    assert_eq!(parse_action("killwindow"), Some(Action::CloseFocused));
    assert_eq!(parse_action("float"), Some(Action::ToggleFloating));
    assert_eq!(parse_action("exit"), Some(Action::Quit));
    assert_eq!(parse_action("close now"), None);
    assert_eq!(parse_action("workspace +4"), Some(Action::FocusWorkspace(3)));
    assert_eq!(parse_action("workspace x"), None);
    assert_eq!(parse_action("workspace 9"), Some(Action::FocusWorkspace(8)));
    assert_eq!(parse_action("workspace 10"), None);
    assert_eq!(parse_action("move-to-workspace 12"), None);
    assert_eq!(parse_action(""), None);
}

#[test]
fn map_sections_must_be_ordered_by_key() {
    assert!(keys_ascending(&vec![]));
    assert!(keys_ascending(&vec![pair("SHELL", "a"), pair("TERMINAL", "b"), pair("XDG", "c")]));
    assert!(!keys_ascending(&vec![pair("TERMINAL", "b"), pair("SHELL", "a")]));
    assert!(!keys_ascending(&vec![pair("SHELL", "a"), pair("SHELL", "b")]));
    assert!(keys_ascending(&Config::with_defaults().env));
}

#[test]
fn startup_falls_back_to_defaults() {
    // A configuration that failed to load: the built-in one and its table.
    let (cfg, table) = startup(Err(ConfigError::Parse("bad".into())));
    assert_eq!(cfg.general.terminal, "lumiterm");
    assert_eq!(table.expect("defaults valid").len(), 5);
    // A configuration without keybinds: the built-in table.
    let (cfg, table) = startup(Ok(Config::from_raw(empty_raw()).expect("valid")));
    assert!(cfg.keybinds.is_empty());
    assert_eq!(table.expect("defaults valid").len(), 5);
    // A bad entry stops the start.
    let mut raw = empty_raw();
    raw.keybinds = vec![pair("SUPER+q", "explode")];
    let (_, table) = startup(Ok(Config::from_raw(raw).expect("valid")));
    assert_eq!(table.unwrap_err(), ConfigError::Validation("unknown action \"explode\"".into()));
    // Configured keybinds are used as they are.
    let mut raw = empty_raw();
    raw.keybinds = vec![pair("SUPER+q", "close")];
    let (_, table) = startup(Ok(Config::from_raw(raw).expect("valid")));
    assert_eq!(table.expect("valid").len(), 1);
}
