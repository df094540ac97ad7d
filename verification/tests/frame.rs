use rmenu::frame::{panel_left, plan_frame, surface_height, thumb_rect, PAD, TOP_MARGIN};
use rmenu::menu::MenuState;
use rmenu::render::CORNER_RADIUS;

fn menu_with(query: &str, total: usize, sel: usize) -> MenuState {
    let mut m = MenuState::new(total);
    m.query = query.to_string();
    m.sel = sel;
    m
}

#[test]
fn empty_query_shows_only_the_input_bar() {
    let m = menu_with("", 10, 0);
    let p = plan_frame(&m, 3, 0, 24);
    assert_eq!(p.visible, 0);
    assert!(p.rows.is_empty());
    assert_eq!(p.top, 3, "the scroll offset is kept while collapsed");
    assert_eq!(p.target_h, 24);
}

#[test]
fn typed_query_lists_rows_around_the_selection() {
    let m = menu_with("x", 100, 12);
    let p = plan_frame(&m, 0, 10, 24);
    assert_eq!(p.visible, 10);
    assert_eq!(p.top, 4, "one row of context below the selection");
    assert_eq!(p.rows.len(), 10);
    assert_eq!(p.rows[0], (4, false));
    assert_eq!(p.rows[8], (12, true));
    assert_eq!(p.rows[9], (13, false));
    assert_eq!(p.target_h, 24 * 11);
}

#[test]
fn short_lists_show_every_match() {
    let m = menu_with("x", 4, 1);
    let p = plan_frame(&m, 0, 0, 20);
    assert_eq!(p.visible, 4);
    assert_eq!(p.rows, vec![(0, false), (1, true), (2, false), (3, false)]);
    assert_eq!(p.target_h, 100);
}

#[test]
fn panel_is_centered_on_the_output() {
    assert_eq!(panel_left(Some(1920), 640), 640);
    assert_eq!(panel_left(Some(641), 640), 0);
    assert_eq!(panel_left(Some(500), 640), 0, "narrow output: flush left");
    assert_eq!(panel_left(None, 640), 0);
}

#[test]
fn surface_height_rounds_up_to_logical_pixels() {
    assert_eq!(surface_height(48, 2), 24);
    assert_eq!(surface_height(49, 2), 25);
    assert_eq!(surface_height(24, 1), 24);
}

#[test]
fn scroll_indicator_sits_in_the_right_padding() {
    // 640 px wide at scale 1: a 3 px bar centered in the 12 px padding.
    let r = thumb_rect(640, 24 * 11, 24, 10, 100, 0, 1);
    assert_eq!(r, Some((640 - 12 + 4, 24, 3, 24)));
    assert_eq!(thumb_rect(640, 24 * 11, 24, 10, 10, 0, 1), None, "everything fits");
    let r2 = thumb_rect(1280, 48 * 11, 48, 10, 100, 90, 2).expect("overflows");
    assert_eq!(r2.0, 1280 - 24 + 9);
    assert_eq!(r2.1 + r2.3, 48 * 11, "scrolled to the end, the bar ends at the bottom");
}

#[test]
fn spacing_follows_eye_comfort_rules() {
    assert!(PAD >= CORNER_RADIUS, "PAD {PAD} < radius {CORNER_RADIUS}");
    assert!(TOP_MARGIN >= 32, "top margin too tight");
}
