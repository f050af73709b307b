use katnip::input::{
    action_effect, click, move_grab_ends, terminal_candidates, Click, Effect, BTN_LEFT, BTN_RIGHT,
};
use katnip::keybinds::Action;
use katnip::layout::{Point, Rect};
use katnip::output::{
    blit_glyph, border_rect, find_font, first_free_crtc, info_listening, next_output_x,
    preferred_mode, select_backend, used_crtcs, vanished, BackendChoice, RasterText,
};

#[test]
fn backend_choice() {
    let args = |v: &[&str]| v.iter().map(|s| s.to_string()).collect::<Vec<String>>();
    assert_eq!(select_backend(&args(&[]), None), BackendChoice::Nested);
    assert_eq!(select_backend(&args(&["--drm"]), None), BackendChoice::Drm);
    assert_eq!(select_backend(&args(&["-v"]), Some("drm")), BackendChoice::Drm);
    assert_eq!(select_backend(&args(&["-v"]), Some("winit")), BackendChoice::Nested);
}

#[test]
fn startup_line() {
    assert_eq!(info_listening("wayland-1"), "listening on WAYLAND_DISPLAY=wayland-1");
}

#[test]
fn borders_wrap_mapped_windows() {
    assert_eq!(
        border_rect(Point { x: 10, y: 20 }, 100, 50, 2),
        Some(Rect::new(8, 18, 104, 54))
    );
    assert_eq!(border_rect(Point { x: 10, y: 20 }, 0, 50, 2), None);
}

#[test]
fn font_choice_prefers_known_families() {
    let files = |v: &[&str]| v.iter().map(|s| s.to_string()).collect::<Vec<String>>();
    assert_eq!(find_font(&files(&[])), None);
    assert_eq!(
        find_font(&files(&["/f/Serif.ttf", "/f/Hack-Regular.ttf", "/f/JetBrainsMono-Regular.ttf"])),
        Some("/f/JetBrainsMono-Regular.ttf".to_string())
    );
    assert_eq!(
        find_font(&files(&["/f/Serif.ttf", "/f/SomeMONO.otf"])),
        Some("/f/SomeMONO.otf".to_string())
    );
    assert_eq!(
        find_font(&files(&["/f/Serif.ttf", "/f/Sans.ttf"])),
        Some("/f/Serif.ttf".to_string())
    );
}

#[test]
fn blank_raster_is_transparent() {
    let r = RasterText::blank(3, 2);
    assert_eq!(r.rgba.len(), 24);
    assert!(r.rgba.iter().all(|b| *b == 0));
}

#[test]
fn clicks_decide_focus_and_grabs() {
    assert_eq!(click(false, false, true, BTN_LEFT, Some(1)), Click::Nothing);
    assert_eq!(click(true, true, true, BTN_LEFT, Some(1)), Click::Nothing);
    assert_eq!(click(true, false, true, BTN_LEFT, Some(1)), Click::StartMove(1));
    assert_eq!(click(true, false, true, BTN_RIGHT, Some(1)), Click::StartResize(1));
    assert_eq!(click(true, false, false, BTN_LEFT, Some(1)), Click::Focus(Some(1)));
    assert_eq!(click(true, false, true, 0x112, Some(1)), Click::Focus(Some(1)));
    assert_eq!(click(true, false, true, BTN_LEFT, None), Click::Focus(None));
    assert!(move_grab_ends(&vec![0x111]));
    assert!(!move_grab_ends(&vec![0x111, BTN_LEFT]));
}

#[test]
fn actions_map_to_effects() {
    assert_eq!(action_effect(&Action::Exec("terminal".into())), Effect::SpawnTerminal);
    assert_eq!(
        action_effect(&Action::Exec("foot".into())),
        Effect::Shell("foot".into())
    );
    assert_eq!(action_effect(&Action::FocusWorkspace(3)), Effect::FocusWorkspace(3));
    assert_eq!(action_effect(&Action::Quit), Effect::Quit);
}

#[test]
fn terminal_candidates_dedup_neighbours() {
    assert_eq!(
        terminal_candidates(Some("kitty"), "foot"),
        vec!["kitty", "foot", "alacritty", "kitty"]
    );
    assert_eq!(
        terminal_candidates(Some("foot"), "foot"),
        vec!["foot", "alacritty", "kitty"]
    );
    assert_eq!(
        terminal_candidates(None, "lumiterm"),
        vec!["lumiterm", "foot", "alacritty", "kitty"]
    );
}

#[test]
fn glyph_blit_paints_covered_pixels_only() {
    let mut rgba = vec![9u8; 4 * 2 * 4];
    let coverage = vec![255u8, 0, 128, 10];
    blit_glyph(&mut rgba, 4, 2, 0, 1, 2, 2, &coverage, [10, 20, 30, 200]);
    let mut want = vec![9u8; 32];
    want[4..8].copy_from_slice(&[10, 20, 30, 200]);
    want[20..24].copy_from_slice(&[10, 20, 30, 100]);
    want[24..28].copy_from_slice(&[10, 20, 30, 7]);
    assert_eq!(rgba, want);
}

#[test]
fn glyph_blit_clips_at_the_image_edges() {
    let mut rgba = vec![0u8; 4 * 2 * 4];
    let coverage = vec![255u8, 255, 255, 255];
    blit_glyph(&mut rgba, 4, 2, -1, 3, 2, 2, &coverage, [1, 2, 3, 255]);
    let mut want = vec![0u8; 32];
    want[12..16].copy_from_slice(&[1, 2, 3, 255]);
    assert_eq!(rgba, want);
}

#[test]
fn crtc_and_connector_bookkeeping() {
    assert_eq!(first_free_crtc(&vec![3, 4, 5], &vec![3, 5]), Some(4));
    assert_eq!(first_free_crtc(&vec![3], &vec![3]), None);
    assert_eq!(first_free_crtc(&vec![], &vec![]), None);
    assert_eq!(vanished(&vec![1, 2, 3], &vec![2]), vec![1, 3]);
    assert_eq!(preferred_mode(&vec![false, true, true]), 1);
    assert_eq!(preferred_mode(&vec![false, false]), 0);
    assert_eq!(next_output_x(&vec![1920, 1280]), 3200);
    assert_eq!(next_output_x(&vec![]), 0);
}

#[test]
fn used_crtcs_leave_out_the_connectors_own() {
    let known = vec![(1u32, 10u32), (2, 20)];
    let surfaces = vec![10u32, 20];
    assert_eq!(used_crtcs(&known, &surfaces, Some(1)), vec![20, 20]);
    assert_eq!(used_crtcs(&known, &surfaces, None), vec![10, 20, 10, 20]);
    assert_eq!(used_crtcs(&known, &surfaces, Some(7)), vec![10, 20, 10, 20]);
    // A live connector may keep its own CRTC.
    let used = used_crtcs(&known, &surfaces, Some(2));
    assert_eq!(first_free_crtc(&vec![20, 30], &used), Some(20));
}
