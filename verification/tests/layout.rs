use katnip::layout::{dwindle, dwindle_in_range, Rect};

const SCREEN: Rect = Rect { x: 0, y: 0, w: 1920, h: 1080 };

#[test]
fn zero_windows_is_empty() {
    assert!(dwindle(SCREEN, 0, 8).is_empty());
}

#[test]
fn single_window_fills_usable_area() {
    let usable = SCREEN.shrink(10);
    assert_eq!(dwindle(usable, 1, 8), vec![usable]);
}

#[test]
fn produces_requested_count() {
    for count in 1..=9usize {
        assert_eq!(dwindle(SCREEN.shrink(10), count, 8).len(), count);
    }
}

#[test]
fn tiles_never_overlap() {
    for count in 1..=12usize {
        let tiles = dwindle(SCREEN.shrink(10), count, 8);
        for (i, a) in tiles.iter().enumerate() {
            for b in tiles.iter().skip(i + 1) {
                assert!(!a.intersects(b), "count={count}: {a:?} overlaps {b:?}");
            }
        }
    }
}

#[test]
fn tiles_stay_inside_usable_area() {
    let usable = SCREEN.shrink(10);
    for count in 1..=12usize {
        for tile in dwindle(usable, count, 8) {
            assert!(
                usable.contains_rect(&tile),
                "count={count}: tile {tile:?} escapes usable {usable:?}"
            );
            assert!(tile.w > 0 && tile.h > 0, "degenerate tile {tile:?}");
        }
    }
}

#[test]
fn inner_gaps_are_respected() {
    let usable = SCREEN.shrink(20);
    let gap = 10;
    let tiles = dwindle(usable, 4, gap);
    for (i, a) in tiles.iter().enumerate() {
        for b in tiles.iter().skip(i + 1) {
            let overlap_y = a.y < b.bottom() && b.y < a.bottom();
            let overlap_x = a.x < b.right() && b.x < a.right();
            if overlap_x && overlap_y {
                panic!("tiles {a:?} and {b:?} intersect");
            }
            if overlap_x {
                let dist = if a.bottom() <= b.y {
                    b.y - a.bottom()
                } else {
                    a.y - b.bottom()
                };
                assert!(
                    dist >= gap / 2,
                    "vertical gap {dist} < {gap}/2 between {a:?} {b:?}"
                );
            }
            if overlap_y {
                let dist = if a.right() <= b.x {
                    b.x - a.right()
                } else {
                    a.x - b.right()
                };
                assert!(
                    dist >= gap / 2,
                    "horizontal gap {dist} < {gap}/2 between {a:?} {b:?}"
                );
            }
        }
    }
}

#[test]
fn degenerate_areas_yield_nothing() {
    assert!(dwindle(Rect::new(0, 0, 0, 500), 3, 8).is_empty());
    assert!(dwindle(Rect::new(0, 0, 500, 0), 3, 8).is_empty());
}

#[test]
fn first_window_is_left_half_on_wide_screen() {
    let usable = SCREEN.shrink(10);
    let tiles = dwindle(usable, 2, 0);
    assert_eq!(tiles[0].y, usable.y);
    assert_eq!(tiles[1].y, usable.y);
    assert_eq!(tiles[0].w, tiles[1].w);
    assert!(tiles[0].right() <= tiles[1].x || tiles[1].right() <= tiles[0].x);
}

#[test]
fn shrink_insets_every_side_and_clamps() {
    assert_eq!(SCREEN.shrink(10), Rect::new(10, 10, 1900, 1060));
    assert_eq!(Rect::new(5, 5, 6, 30).shrink(4), Rect::new(9, 9, 0, 22));
    assert_eq!(Rect::new(0, 0, 10, 10).shrink(-2), Rect::new(-2, -2, 14, 14));
}

#[test]
fn edges_and_overlap_tests() {
    let a = Rect::new(0, 0, 10, 10);
    let b = Rect::new(10, 0, 10, 10);
    let c = Rect::new(9, 9, 5, 5);
    assert_eq!(a.right(), 10);
    assert_eq!(a.bottom(), 10);
    assert!(!a.intersects(&b));
    assert!(a.intersects(&c));
    assert!(c.intersects(&a));
    assert!(SCREEN.contains_rect(&a));
    assert!(!a.contains_rect(&c));
    assert!(a.contains_rect(&a));
}

#[test]
fn dwindle_exact_split_of_three() {
    // Wide area: two windows share the left 2/3, one takes the rest.
    let tiles = dwindle(Rect::new(0, 0, 1000, 500), 3, 10);
    assert_eq!(
        tiles,
        vec![
            Rect::new(0, 0, 325, 500),
            Rect::new(335, 0, 326, 500),
            Rect::new(671, 0, 329, 500),
        ]
    );
}

#[test]
fn dwindle_tall_area_splits_horizontally() {
    let tiles = dwindle(Rect::new(0, 0, 400, 1000), 2, 0);
    assert_eq!(tiles, vec![Rect::new(0, 0, 400, 500), Rect::new(0, 500, 400, 500)]);
}

#[test]
fn dwindle_count_law_on_a_square() {
    // Both sides have room for every window: exactly `count` tiles.
    for count in 1..=20usize {
        let tiles = dwindle(Rect::new(0, 0, 400, 400), count, 4);
        assert_eq!(tiles.len(), count);
    }
}

#[test]
fn dwindle_too_small_still_gives_every_window_a_tile() {
    // A 3-pixel-wide area cannot hold 8 non-empty tiles with a 4px gap:
    // every window still gets a tile, some of them empty, all inside.
    let area = Rect::new(0, 0, 3, 3);
    let tiles = dwindle(area, 8, 4);
    assert_eq!(tiles.len(), 8);
    assert!(tiles.iter().any(|t| t.w == 0 || t.h == 0));
    for t in &tiles {
        assert!(area.contains_rect(t));
    }
    for (i, a) in tiles.iter().enumerate() {
        for b in tiles.iter().skip(i + 1) {
            assert!(!a.intersects(b));
        }
    }
}

#[test]
fn ordinary_screens_are_in_range() {
    assert!(dwindle_in_range(SCREEN.shrink(10), 9, 8));
    assert!(dwindle_in_range(SCREEN, 0, 8));
    assert!(dwindle_in_range(SCREEN, 1, i32::MAX));
}

#[test]
fn overflowing_gap_is_out_of_range() {
    let wide = Rect { x: i32::MAX - 10, y: 0, w: 20, h: 10 };
    assert!(!dwindle_in_range(wide, 2, 8));
}

#[test]
fn gap_wider_than_area_keeps_every_window() {
    let tiles = dwindle(Rect { x: 0, y: 0, w: 10, h: 10 }, 2, 20);
    assert_eq!(
        tiles,
        vec![Rect { x: 0, y: 0, w: 0, h: 10 }, Rect { x: 10, y: 0, w: 0, h: 10 }]
    );
}

#[test]
fn moving_the_area_moves_every_tile() {
    let base = dwindle(SCREEN.shrink(10), 5, 8);
    let moved_area = Rect { x: 110, y: -40, w: 1900, h: 1060 };
    let moved = dwindle(moved_area, 5, 8);
    let expected: Vec<Rect> =
        base.iter().map(|r| Rect { x: r.x + 100, y: r.y - 50, w: r.w, h: r.h }).collect();
    assert_eq!(moved, expected);
}

#[test]
fn without_gaps_tiles_cover_the_area() {
    for count in 1..=12usize {
        let area = Rect::new(5, 7, 1913, 1061);
        let tiles = dwindle(area, count, 0);
        let total: i64 = tiles.iter().map(|t| t.w as i64 * t.h as i64).sum();
        assert_eq!(total, 1913 * 1061);
    }
}
