use katnip::layout::{Point, Rect};
use katnip::wm::{
    arrange_in_range, commit_resize, Cleanup, LayoutMetrics, Placement, Workspaces,
    WORKSPACE_COUNT,
};

const METRICS: LayoutMetrics = LayoutMetrics {
    outer_gap: 8,
    inner_gap: 8,
    border_width: 2,
};

fn output() -> Rect {
    Rect::new(0, 0, 1920, 1080)
}

#[test]
fn new_windows_join_the_active_workspace_and_take_focus() {
    let mut wm = Workspaces::new();
    assert_eq!(wm.active_workspace(), 0);
    assert_eq!(wm.focused_window(), None);
    wm.add_tile(1);
    wm.add_tile(2);
    assert_eq!(wm.active_windows(), vec![1, 2]);
    assert_eq!(wm.focused_window(), Some(2));
    assert!(wm.contains_window(1));
    assert!(!wm.contains_window(3));
}

#[test]
fn switching_workspaces_refocuses_on_arrival() {
    let mut wm = Workspaces::new();
    wm.add_tile(1);
    assert!(!wm.switch_workspace(0));
    assert!(wm.switch_workspace(3));
    assert_eq!(wm.active_workspace(), 3);
    assert_eq!(wm.focused_window(), None);
    assert!(wm.active_windows().is_empty());
    assert!(wm.switch_workspace(0));
    assert_eq!(wm.focused_window(), Some(1));
    // A workspace without focus but with tiles focuses its last tile.
    wm.add_tile(2);
    wm.focus_window(None);
    assert!(wm.switch_workspace(1));
    assert!(wm.switch_workspace(0));
    assert_eq!(wm.focused_window(), Some(2));
}

#[test]
fn moving_the_focused_window_keeps_it_managed() {
    let mut wm = Workspaces::new();
    wm.add_tile(1);
    wm.add_tile(2);
    assert!(!wm.move_focused_to_workspace(0));
    assert!(wm.move_focused_to_workspace(4));
    assert_eq!(wm.active_windows(), vec![1]);
    assert_eq!(wm.focused_window(), None);
    assert!(wm.contains_window(2));
    // Nothing focused: nothing moves.
    assert!(!wm.move_focused_to_workspace(5));
    assert!(wm.switch_workspace(4));
    assert_eq!(wm.active_windows(), vec![2]);
    // The moved tile arrived without focus; arrival focuses it.
    assert_eq!(wm.focused_window(), Some(2));
    let entry = wm.window_entry(2).expect("managed");
    assert_eq!(entry.workspace, 4);
    assert!(entry.mapped);
    assert!(entry.focused);
}

#[test]
fn toggling_floating_places_under_pointer_and_back() {
    let mut wm = Workspaces::new();
    assert!(!wm.toggle_focused_floating(Point { x: 0, y: 0 }, (0, 0), 8));
    wm.add_tile(1);
    wm.add_tile(2);
    wm.focus_window(Some(1));
    assert!(wm.toggle_focused_floating(Point { x: 500, y: 400 }, (300, 200), 8));
    assert!(wm.is_floating(1));
    assert_eq!(wm.active_tiles()[0].float_loc, Some(Point { x: 350, y: 300 }));
    // No size yet: 640x480 is assumed; the outer gap bounds the corner.
    wm.focus_window(Some(2));
    assert!(wm.toggle_focused_floating(Point { x: 10, y: 10 }, (0, 0), 8));
    assert_eq!(wm.active_tiles()[1].float_loc, Some(Point { x: 8, y: 8 }));
    // Back to tiling: the window goes last.
    wm.focus_window(Some(1));
    assert!(wm.toggle_focused_floating(Point { x: 0, y: 0 }, (0, 0), 8));
    assert!(!wm.is_floating(1));
    assert_eq!(wm.active_windows(), vec![2, 1]);
}

#[test]
fn dragged_floats_remember_their_position() {
    let mut wm = Workspaces::new();
    wm.add_tile(1);
    wm.update_float_loc(1, Point { x: 5, y: 5 });
    assert_eq!(wm.active_tiles()[0].float_loc, None);
    assert!(wm.ensure_floating_at(1, Point { x: 20, y: 30 }));
    assert!(!wm.ensure_floating_at(1, Point { x: 0, y: 0 }));
    assert!(!wm.ensure_floating_at(9, Point { x: 0, y: 0 }));
    wm.update_float_loc(1, Point { x: 40, y: 50 });
    assert_eq!(wm.active_tiles()[0].float_loc, Some(Point { x: 40, y: 50 }));
    // Also on a workspace that is not visible.
    assert!(wm.move_focused_to_workspace(2));
    assert!(wm.switch_workspace(2));
    assert!(wm.ensure_floating_at(1, Point { x: 1, y: 1 }));
    assert!(wm.switch_workspace(0));
    wm.update_float_loc(1, Point { x: 7, y: 9 });
    assert!(wm.switch_workspace(2));
    assert_eq!(wm.active_tiles()[0].float_loc, Some(Point { x: 7, y: 9 }));
}

#[test]
fn cleanup_removes_dead_windows_and_refocuses() {
    let mut wm = Workspaces::new();
    wm.add_tile(1);
    wm.add_tile(2);
    wm.add_tile(3);
    assert_eq!(wm.cleanup_dead(&vec![7]), Cleanup::Unchanged);
    assert_eq!(wm.cleanup_dead(&vec![1]), Cleanup::Kept);
    assert_eq!(wm.active_windows(), vec![2, 3]);
    assert_eq!(wm.focused_window(), Some(3));
    assert_eq!(wm.cleanup_dead(&vec![3]), Cleanup::Refocused);
    assert_eq!(wm.focused_window(), Some(2));
    assert_eq!(wm.cleanup_dead(&vec![2]), Cleanup::Refocused);
    assert_eq!(wm.focused_window(), None);
    assert!(!wm.contains_window(2));
}

#[test]
fn arrange_tiles_and_centres_new_floats() {
    let mut wm = Workspaces::new();
    wm.add_tile(1);
    wm.add_tile(2);
    wm.add_tile(3);
    wm.focus_window(Some(3));
    assert!(wm.toggle_focused_floating(Point { x: 100, y: 100 }, (10, 10), 8));
    let placements = wm.arrange(output(), METRICS, 28, &vec![(0, 0), (0, 0), (10, 10)]);
    // usable = (8, 36, 1904, 1036); two tiles side by side with gap 8.
    assert_eq!(
        placements,
        vec![
            Placement::Tiled {
                window: 1,
                loc: Point { x: 10, y: 38 },
                w: 944,
                h: 1032
            },
            Placement::Tiled {
                window: 2,
                loc: Point { x: 966, y: 38 },
                w: 944,
                h: 1032
            },
            Placement::Floating {
                window: 3,
                loc: Point { x: 95, y: 95 }
            },
        ]
    );
}

#[test]
fn arrange_keeps_stored_float_positions() {
    let mut wm = Workspaces::new();
    wm.add_tile(1);
    assert!(wm.ensure_floating_at(1, Point { x: 3, y: 3 }));
    wm.add_tile(2);
    assert_eq!(wm.active_tiles().len(), 2);
    // A float placed before arranging keeps its stored spot.
    let p = wm.arrange(output(), METRICS, 0, &vec![(100, 100), (0, 0)]);
    assert_eq!(p[0], Placement::Floating { window: 1, loc: Point { x: 3, y: 3 } });
    assert_eq!(
        p[1],
        Placement::Tiled {
            window: 2,
            loc: Point { x: 10, y: 10 },
            w: 1900,
            h: 1060
        }
    );
}

#[test]
fn window_entries_cover_every_workspace() {
    let mut wm = Workspaces::new();
    wm.add_tile(1);
    assert!(wm.switch_workspace(1));
    wm.add_tile(2);
    let all = wm.all_windows();
    assert_eq!(all.len(), 2);
    assert_eq!(all[0].window, 1);
    assert_eq!(all[0].workspace, 0);
    assert!(!all[0].mapped);
    assert!(all[0].focused);
    assert_eq!(all[1].window, 2);
    assert!(all[1].mapped);
    assert!(wm.window_entry(5).is_none());
    assert_eq!(WORKSPACE_COUNT, 9);
}

#[test]
fn arrange_skips_tiles_without_a_slot() {
    let mut wm = Workspaces::new();
    wm.add_tile(1);
    wm.add_tile(2);
    // A usable area of zero size has no slots at all.
    let p = wm.arrange(Rect::new(0, 0, 10, 10), METRICS, 0, &vec![(0, 0), (0, 0)]);
    assert!(p.is_empty());
}

#[test]
fn activation_follows_focus() {
    let mut wm = Workspaces::new();
    wm.add_tile(1);
    wm.add_tile(2);
    assert_eq!(wm.activation(), vec![(1, false), (2, true)]);
    wm.focus_window(None);
    assert_eq!(wm.activation(), vec![(1, false), (2, false)]);
}

#[test]
fn commits_rearrange_on_size_changes() {
    assert_eq!(commit_resize(Some((10, 10)), (10, 10)), None);
    assert_eq!(commit_resize(None, (10, 10)), Some(true));
    assert_eq!(commit_resize(Some((0, 0)), (10, 10)), Some(true));
    assert_eq!(commit_resize(Some((5, 5)), (10, 10)), Some(false));
    assert_eq!(commit_resize(None, (0, 10)), Some(false));
}

#[test]
fn arrange_range_check() {
    let wm = Workspaces::new();
    assert!(arrange_in_range(output(), METRICS, 28, wm.tiled_count()));
    assert!(arrange_in_range(output(), METRICS, 28, 12));
    let huge = Rect::new(i32::MAX - 10, 0, 100, 100);
    assert!(!arrange_in_range(huge, METRICS, 0, 1));
    let wide_border = LayoutMetrics {
        outer_gap: 0,
        inner_gap: 0,
        border_width: i32::MAX / 2 + 1,
    };
    assert!(!arrange_in_range(output(), wide_border, 0, 1));
}

#[test]
fn focus_requests_off_the_active_workspace_are_refused() {
    let mut wm = Workspaces::new();
    wm.add_tile(1);
    assert!(wm.move_focused_to_workspace(2));
    wm.add_tile(2);
    assert!(!wm.focus_window(Some(1)));
    assert_eq!(wm.focused_window(), Some(2));
    assert!(!wm.focus_window(Some(99)));
    assert!(wm.focus_window(None));
    assert_eq!(wm.focused_window(), None);
    assert!(wm.focus_window(Some(2)));
    assert_eq!(wm.focused_window(), Some(2));
}
