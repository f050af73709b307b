use katnip::bar::{
    clock_x, draws_text, label_positions, text_top, title_max_width, title_x,
    truncation_candidates, workspace_label, BarInfo,
};
use katnip::wm::Workspaces;

#[test]
fn bar_info_follows_the_focus() {
    let mut wm = Workspaces::new();
    let info = BarInfo::from_state(&wm, Some("ignored".into()));
    assert_eq!(info.active_workspace, 0);
    assert_eq!(info.title, None);
    wm.add_tile(4);
    let info = BarInfo::from_state(&wm, Some("Terminal".into()));
    assert_eq!(info.title.as_deref(), Some("Terminal"));
    let info = BarInfo::from_state(&wm, None);
    assert_eq!(info.title.as_deref(), Some(""));
}

#[test]
fn labels_and_positions() {
    assert_eq!(workspace_label(0), "1");
    assert_eq!(workspace_label(8), "9");
    assert_eq!(label_positions(&vec![7, 8, 9]), vec![10, 27, 45]);
    assert_eq!(text_top(28, 16), 6);
    assert_eq!(text_top(10, 16), 0);
    assert_eq!(text_top(29, 16), 6);
}

#[test]
fn title_and_clock_placement() {
    assert_eq!(title_max_width(1000), 500);
    assert_eq!(title_x(1000, 200), Some(400));
    assert_eq!(title_x(1000, 501), None);
    assert_eq!(title_x(10, 10), None);
    assert_eq!(clock_x(1000, 40), 950);
    assert!(draws_text("12:00", 0));
    assert!(!draws_text("", 5));
    assert!(!draws_text("x", -1));
}

#[test]
fn truncation_tries_shorter_titles() {
    assert_eq!(
        truncation_candidates("abcd"),
        vec!["abcd", "abc\u{2026}", "ab\u{2026}", "a\u{2026}", "\u{2026}"]
    );
    assert_eq!(truncation_candidates("a"), vec!["a", "\u{2026}"]);
    assert_eq!(truncation_candidates(""), vec!["", "\u{2026}"]);
}
