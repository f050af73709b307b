use katnip::ipc::{parse_request, select_socket, Query, Request};
use katnip::keybinds::Action;

fn reply(line: &str) -> String {
    match parse_request(line) {
        Request::Reply(s) => s,
        other => panic!("expected a reply, got {other:?}"),
    }
}

#[test]
fn basic_commands() {
    assert_eq!(reply("ping"), "pong");
    assert_eq!(reply("  ping \r"), "pong");
    assert!(matches!(parse_request("version"), Request::Version));
    assert_eq!(reply(""), "ERR empty command");
    assert_eq!(reply("   "), "ERR empty command");
}

#[test]
fn dispatch_parses_actions() {
    match parse_request("dispatch workspace 3") {
        Request::Dispatch(a) => assert_eq!(a, Action::FocusWorkspace(2)),
        other => panic!("{other:?}"),
    }
    match parse_request("dispatch exec foot -e top") {
        Request::Dispatch(a) => assert_eq!(a, Action::Exec("foot -e top".into())),
        other => panic!("{other:?}"),
    }
    assert_eq!(reply("dispatch explode"), "ERR unknown action \"explode\"");
    assert_eq!(reply("dispatch"), "ERR unknown action \"\"");
}

#[test]
fn get_queries() {
    assert!(matches!(parse_request("get workspaces"), Request::Get(Query::Workspaces)));
    assert!(matches!(parse_request("get   windows "), Request::Get(Query::Windows)));
    assert!(matches!(
        parse_request("get activewindow"),
        Request::Get(Query::ActiveWindow)
    ));
    assert_eq!(
        reply("get monitors"),
        "ERR unknown get query \"monitors\" (try: workspaces, windows, activewindow)"
    );
}

#[test]
fn unknown_verbs_are_refused() {
    assert_eq!(
        reply("PING"),
        "ERR unknown command \"PING\" (try: ping, version, dispatch <action>, get <workspaces|windows|activewindow>)"
    );
}

#[test]
fn socket_selection() {
    let names = |v: &[&str]| v.iter().map(|s| s.to_string()).collect::<Vec<String>>();
    assert_eq!(
        select_socket(Some("/x/y.sock"), "/run/katnip", &names(&[])),
        Ok("/x/y.sock".to_string())
    );
    assert_eq!(
        select_socket(None, "/run/katnip", &names(&["wayland-1.sock", "notes"])),
        Ok("/run/katnip/wayland-1.sock".to_string())
    );
    assert_eq!(
        select_socket(None, "/run/katnip", &names(&["notes"])),
        Err("no Katnip socket found in /run/katnip (is Katnip running?)".to_string())
    );
    assert_eq!(
        select_socket(None, "/r", &names(&["b.sock", "a.sock"])),
        Err("multiple Katnip instances found; pick one via KATNIP_SOCKET: [\"/r/a.sock\", \"/r/b.sock\"]".to_string())
    );
}
