use katnip::grabs::{edges_for_point, handle_commit, resize_size, ResizeEdge, ResizeState};
use katnip::layout::{Point, Rect};

#[test]
fn edges_follow_the_nearest_quadrant() {
    let r = Rect::new(100, 100, 200, 100);
    let tl = edges_for_point(&r, 120, 110);
    assert!(tl.top && tl.left && !tl.bottom && !tl.right);
    let br = edges_for_point(&r, 250, 180);
    assert!(br.bottom && br.right && !br.top && !br.left);
    // The middle counts as right and bottom.
    let mid = edges_for_point(&r, 200, 150);
    assert!(mid.right && mid.bottom);
    assert_eq!(tl.bits(), 0b0101);
    assert_eq!(br.bits(), 0b1010);
}

#[test]
fn edge_sets_combine() {
    let top = ResizeEdge {
        top: true,
        ..ResizeEdge::empty()
    };
    let left = ResizeEdge {
        left: true,
        ..ResizeEdge::empty()
    };
    let tl = top.union(left);
    assert!(tl.intersects(&top));
    assert!(!top.intersects(&left));
    assert_eq!(ResizeEdge::empty().bits(), 0);
}

#[test]
fn resize_respects_client_limits() {
    let initial = Rect::new(0, 0, 400, 300);
    let right = ResizeEdge {
        right: true,
        ..ResizeEdge::empty()
    };
    // Only the dragged axis changes.
    assert_eq!(resize_size(right, initial, (500, 999), (0, 0), (0, 0)), (500, 300));
    // Minimum (and at least 1) and maximum apply.
    assert_eq!(resize_size(right, initial, (-20, 0), (0, 0), (0, 0)), (1, 300));
    assert_eq!(resize_size(right, initial, (50, 0), (100, 0), (0, 0)), (100, 300));
    assert_eq!(resize_size(right, initial, (900, 0), (0, 0), (600, 0)), (600, 300));
    let all = ResizeEdge {
        top: true,
        left: true,
        bottom: false,
        right: false,
    };
    assert_eq!(resize_size(all, initial, (10, 20), (0, 0), (0, 0)), (10, 20));
}

#[test]
fn commit_fixes_position_after_top_left_resize() {
    let edges = ResizeEdge {
        top: true,
        left: true,
        bottom: false,
        right: false,
    };
    let initial = Rect::new(100, 100, 400, 300);
    let mut state = ResizeState::start(edges, initial);
    // While resizing, each commit keeps the far edge fixed.
    assert_eq!(
        handle_commit(&mut state, Point { x: 0, y: 0 }, 350, 250),
        Some(Point { x: 150, y: 150 })
    );
    assert_eq!(state, ResizeState::start(edges, initial));
    state = ResizeState::finish(edges, initial);
    assert_eq!(
        handle_commit(&mut state, Point { x: 0, y: 0 }, 300, 300),
        Some(Point { x: 200, y: 100 })
    );
    assert_eq!(state, ResizeState::Idle);
    assert_eq!(handle_commit(&mut state, Point { x: 0, y: 0 }, 1, 1), None);
}

#[test]
fn commit_leaves_bottom_right_resizes_in_place() {
    let edges = ResizeEdge {
        top: false,
        left: false,
        bottom: true,
        right: true,
    };
    let mut state = ResizeState::finish(edges, Rect::new(0, 0, 10, 10));
    assert_eq!(handle_commit(&mut state, Point { x: 5, y: 5 }, 20, 20), None);
    assert_eq!(state, ResizeState::Idle);
    let top_only = ResizeEdge {
        top: true,
        left: false,
        bottom: false,
        right: true,
    };
    let mut state = ResizeState::start(top_only, Rect::new(10, 10, 100, 100));
    assert_eq!(
        handle_commit(&mut state, Point { x: 3, y: 4 }, 120, 80),
        Some(Point { x: 3, y: 30 })
    );
}
