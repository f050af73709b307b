use katnip::order::{sort_strings, str_less};
use katnip::paths::{
    default_config_path, extension, font_dirs, has_extension, path_join, plugin_dir, runtime_dir,
    select_by_extension, socket_path,
};

#[test]
fn join_follows_pathbuf_push() {
    assert_eq!(path_join("/run/user/1000", "katnip"), "/run/user/1000/katnip");
    assert_eq!(path_join("/tmp/", "katnip"), "/tmp/katnip");
    assert_eq!(path_join("", "katnip"), "katnip");
    assert_eq!(path_join("/tmp", "/abs"), "/abs");
}

#[test]
fn runtime_and_socket_paths() {
    assert_eq!(runtime_dir(Some("/run/user/1000")), "/run/user/1000/katnip");
    assert_eq!(runtime_dir(None), "/tmp/katnip");
    assert_eq!(
        socket_path(Some("/run/user/1000"), "wayland-1"),
        "/run/user/1000/katnip/wayland-1.sock"
    );
    assert_eq!(socket_path(None, "wayland-0"), "/tmp/katnip/wayland-0.sock");
}

#[test]
fn config_and_plugin_locations() {
    assert_eq!(
        default_config_path(Some("/cfg"), Some("/home/u")),
        "/cfg/katnip/katnip.conf.toml"
    );
    assert_eq!(
        default_config_path(Some(""), Some("/home/u")),
        "/home/u/.config/katnip/katnip.conf.toml"
    );
    assert_eq!(
        default_config_path(None, None),
        ".config/katnip/katnip.conf.toml"
    );
    assert_eq!(plugin_dir(None, Some("/home/u")), "/home/u/.config/katnip/plugins");
}

#[test]
fn font_directories_in_priority_order() {
    assert_eq!(
        font_dirs(Some("/home/u"), None),
        vec![
            "/home/u/.local/share/fonts",
            "/home/u/.fonts",
            "/usr/share/fonts",
            "/usr/local/share/fonts"
        ]
    );
    assert_eq!(
        font_dirs(Some("/home/u"), Some("/data")),
        vec!["/data/fonts", "/home/u/.fonts", "/usr/share/fonts", "/usr/local/share/fonts"]
    );
    assert_eq!(
        font_dirs(None, Some("")),
        vec!["/usr/share/fonts", "/usr/local/share/fonts"]
    );
}

#[test]
fn extensions_follow_path_extension() {
    assert_eq!(extension("a.rhai").as_deref(), Some("rhai"));
    assert_eq!(extension("a.b.so").as_deref(), Some("so"));
    assert_eq!(extension("foo.").as_deref(), Some(""));
    assert_eq!(extension(".rhai"), None);
    assert_eq!(extension("noext"), None);
    assert_eq!(extension(".."), None);
    assert!(has_extension("x.so", &["so", "dylib"]));
    assert!(has_extension("x.dylib", &["so", "dylib"]));
    assert!(!has_extension("x.rhai", &["so", "dylib"]));
}

#[test]
fn selection_filters_and_sorts() {
    let names: Vec<String> = ["zeta.rhai", "notes.txt", "alpha.rhai", "Beta.rhai", ".rhai"]
        .iter()
        .map(|s| s.to_string())
        .collect();
    assert_eq!(
        select_by_extension(&names, &["rhai"]),
        vec!["Beta.rhai", "alpha.rhai", "zeta.rhai"]
    );
}

#[test]
fn string_order_is_lexicographic() {
    assert!(str_less("a", "b"));
    assert!(str_less("a", "ab"));
    assert!(!str_less("ab", "a"));
    assert!(!str_less("a", "a"));
    assert!(str_less("Z", "a"));
    assert_eq!(
        sort_strings(vec!["b".into(), "a".into(), "c".into(), "a".into()]),
        vec!["a", "a", "b", "c"]
    );
}

#[test]
fn sorting_permutations_gives_one_order() {
    let a = sort_strings(vec!["b.sock".into(), "a.sock".into(), "b.sock".into()]);
    let b = sort_strings(vec!["b.sock".into(), "b.sock".into(), "a.sock".into()]);
    assert_eq!(a, b);
    assert_eq!(a, vec!["a.sock".to_string(), "b.sock".to_string(), "b.sock".to_string()]);
}
