use rmenu::items::Item;
use rmenu::menu::{
    finish_plan, row_capacity, text_aa, valid_lines, valid_width, viewport_top, visible_rows, Done, Key,
    Finish, MenuState, Mods, MAX_LINES, MAX_VISIBLE, MAX_WIDTH,
};
use rmenu::render::Subpixel;

fn sample_items() -> Vec<Item> {
    ["firefox", "alacritty", "libreoffice"]
        .iter()
        .map(|s| Item {
            lc: s.to_lowercase(),
            text: s.to_string(),
            value: s.to_string(),
            extra: String::new(),
        })
        .collect()
}

fn mods(ctrl: bool, shift: bool) -> Mods {
    Mods { ctrl, shift }
}

/// Key press with default modifiers; `visible=3` mirrors the 3-item sample list.
fn key(m: &mut MenuState, items: &[Item], k: Key, u: Option<&str>) {
    m.on_key(k, u.map(String::from), Mods::default(), items, false, 3);
}

/// Any printable key: only its text matters.
fn type_key(m: &mut MenuState, items: &[Item], c: char) {
    key(m, items, Key::Other, Some(&c.to_string()));
}

fn ctrl_key(m: &mut MenuState, items: &[Item], text: &str) {
    m.on_key(Key::Other, Some(text.into()), mods(true, false), items, false, 3);
}

#[test]
fn subpixel_aa_is_only_used_at_scale_one() {
    assert_eq!(text_aa(1), Subpixel::Rgb, "1× displays get the sharper mode");
    assert_eq!(text_aa(2), Subpixel::Gray, "HiDPI does not need it (and pays for it)");
}

#[test]
fn width_and_lines_bounds_are_validated() {
    assert!(valid_width(640) && valid_width(1) && valid_width(MAX_WIDTH));
    assert!(!valid_width(0), "zero width would make a degenerate buffer");
    assert!(!valid_width(MAX_WIDTH + 1));
    assert!(valid_lines(0) && valid_lines(MAX_LINES), "0 means auto");
    assert!(!valid_lines(MAX_LINES + 1));
}

#[test]
fn viewport_keeps_the_selection_in_view_with_context() {
    assert_eq!(viewport_top(9, 0, 10, 10), 0);
    assert_eq!(viewport_top(9, 0, 10, 100), 1);
    assert_eq!(viewport_top(19, 1, 10, 100), 11);
    assert_eq!(viewport_top(10, 20, 10, 100), 9);
    assert_eq!(viewport_top(12, 5, 10, 100), 5);
    assert_eq!(viewport_top(0, 0, 0, 100), 0);
    assert_eq!(viewport_top(3, 0, 10, 4), 0);
    assert_eq!(viewport_top(0, 50, 10, 3), 0);
}

#[test]
fn row_capacity_and_visible_rows_follow_the_line_limit() {
    assert_eq!(visible_rows(5, 100), 5);
    assert_eq!(visible_rows(5, 2), 2);
    assert_eq!(visible_rows(0, 1000), MAX_VISIBLE);
    assert_eq!(visible_rows(0, 7), 7);
    assert_eq!(row_capacity(0), MAX_VISIBLE);
    assert_eq!(row_capacity(10), 10);
}

#[test]
fn escape_cancels() {
    let items = sample_items();
    let mut m = MenuState::new(items.len());
    assert!(m.done.is_none());
    key(&mut m, &items, Key::Escape, None);
    assert_eq!(m.done, Some(Done::Cancel));
}

#[test]
fn enter_selects_highlighted_value() {
    let items = sample_items();
    let mut m = MenuState::new(items.len());
    type_key(&mut m, &items, 'f');
    key(&mut m, &items, Key::Return, None);
    assert_eq!(m.done, Some(Done::Select("firefox".into())));
}

#[test]
fn enter_with_empty_query_cancels() {
    let items = sample_items();
    let mut m = MenuState::new(items.len());
    key(&mut m, &items, Key::Return, None);
    assert_eq!(m.done, Some(Done::Cancel));
}

#[test]
fn typing_filters_and_enter_picks_only_match() {
    let items = sample_items();
    let mut m = MenuState::new(items.len());
    type_key(&mut m, &items, 'l');
    type_key(&mut m, &items, 'i');
    assert_eq!(m.matches.len(), 1);
    key(&mut m, &items, Key::Return, None);
    assert_eq!(m.done, Some(Done::Select("libreoffice".into())));
}

#[test]
fn enter_with_no_match_echoes_query() {
    let items = sample_items();
    let mut m = MenuState::new(items.len());
    type_key(&mut m, &items, 'z');
    assert!(m.matches.is_empty());
    key(&mut m, &items, Key::Return, None);
    assert_eq!(m.done, Some(Done::Select("z".into())));
}

#[test]
fn unbound_ctrl_chords_do_not_garbble_query() {
    let items = sample_items();
    let mut m = MenuState::new(items.len());
    ctrl_key(&mut m, &items, "\u{1}");
    ctrl_key(&mut m, &items, "\u{16}");
    assert_eq!(m.query, "");
    assert_eq!(m.matches.len(), 3);
}

#[test]
fn backspace_restores_matches() {
    let items = sample_items();
    let mut m = MenuState::new(items.len());
    type_key(&mut m, &items, 'a');
    assert_eq!(m.matches.len(), 1);
    key(&mut m, &items, Key::BackSpace, None);
    assert_eq!(m.matches.len(), 3);
}

#[test]
fn arrows_move_selection_within_bounds() {
    let items = sample_items();
    let mut m = MenuState::new(items.len());
    type_key(&mut m, &items, 'i');
    key(&mut m, &items, Key::Up, None);
    assert_eq!(m.sel, 0);
    key(&mut m, &items, Key::Down, None);
    assert_eq!(m.sel, 1);
    key(&mut m, &items, Key::Down, None);
    key(&mut m, &items, Key::Down, None);
    assert_eq!(m.sel, 2);
    key(&mut m, &items, Key::Return, None);
    assert_eq!(m.done, Some(Done::Select("libreoffice".into())));
}

#[test]
fn ctrl_n_p_move_selection() {
    let items = sample_items();
    let mut m = MenuState::new(items.len());
    type_key(&mut m, &items, 'i');
    ctrl_key(&mut m, &items, "\u{10}");
    assert_eq!(m.sel, 0);
    ctrl_key(&mut m, &items, "\u{e}");
    assert_eq!(m.sel, 1);
    ctrl_key(&mut m, &items, "\u{10}");
    assert_eq!(m.sel, 0);
    ctrl_key(&mut m, &items, "\u{e}");
    ctrl_key(&mut m, &items, "\u{e}");
    assert_eq!(m.sel, 2);
}

#[test]
fn page_keys_jump_by_visible_rows() {
    let items = sample_items();
    let mut m = MenuState::new(items.len());
    m.on_key(Key::PageDown, None, mods(false, false), &items, false, 2);
    assert_eq!(m.sel, 2);
    m.on_key(Key::PageUp, None, mods(false, false), &items, false, 2);
    assert_eq!(m.sel, 0);
    m.on_key(Key::PageUp, None, mods(false, false), &items, false, 2);
    assert_eq!(m.sel, 0);
}

#[test]
fn home_end_jump_selection() {
    let items = sample_items();
    let mut m = MenuState::new(items.len());
    key(&mut m, &items, Key::Down, None);
    key(&mut m, &items, Key::Home, None);
    assert_eq!(m.sel, 0);
    key(&mut m, &items, Key::End, None);
    assert_eq!(m.sel, 2);
    key(&mut m, &items, Key::End, None);
    assert_eq!(m.sel, 2);
}

#[test]
fn ctrl_c_cancels() {
    let items = sample_items();
    let mut m = MenuState::new(items.len());
    type_key(&mut m, &items, 'a');
    ctrl_key(&mut m, &items, "\u{3}");
    assert_eq!(m.done, Some(Done::Cancel));
}

#[test]
fn ctrl_g_cancels_too() {
    let items = sample_items();
    let mut m = MenuState::new(items.len());
    ctrl_key(&mut m, &items, "\u{7}");
    assert_eq!(m.done, Some(Done::Cancel));
}

#[test]
fn ctrl_u_clears_query() {
    let items = sample_items();
    let mut m = MenuState::new(items.len());
    type_key(&mut m, &items, 'f');
    ctrl_key(&mut m, &items, "\u{15}");
    assert_eq!(m.query, "");
    assert_eq!(m.matches.len(), 3);
}

#[test]
fn ctrl_w_kills_last_word_readline_style() {
    let items = sample_items();
    let mut m = MenuState::new(items.len());
    for c in ['a', 'b', ' ', 'c', 'd'] {
        type_key(&mut m, &items, c);
    }
    ctrl_key(&mut m, &items, "\u{17}");
    assert_eq!(m.query, "ab");
}

#[test]
fn ctrl_w_on_trailing_space_kills_word_and_separator() {
    let items = sample_items();
    let mut m = MenuState::new(items.len());
    for c in ['a', 'b', ' ', 'c', 'd', ' '] {
        type_key(&mut m, &items, c);
    }
    ctrl_key(&mut m, &items, "\u{17}");
    assert_eq!(m.query, "ab");
}

#[test]
fn ctrl_h_backspaces() {
    let items = sample_items();
    let mut m = MenuState::new(items.len());
    type_key(&mut m, &items, 'l');
    ctrl_key(&mut m, &items, "\u{8}");
    assert_eq!(m.query, "");
    assert_eq!(m.matches.len(), 3);
}

#[test]
fn ctrl_j_enters_like_return() {
    let items = sample_items();
    let mut m = MenuState::new(items.len());
    type_key(&mut m, &items, 'l');
    ctrl_key(&mut m, &items, "\u{a}");
    assert_eq!(m.done, Some(Done::Select("libreoffice".into())));
}

#[test]
fn shift_return_submits_typed_text() {
    let items = sample_items();
    let mut m = MenuState::new(items.len());
    type_key(&mut m, &items, 'i');
    m.on_key(Key::Return, None, mods(false, true), &items, false, 3);
    assert_eq!(m.done, Some(Done::Select("i".into())));
}

#[test]
fn ctrl_return_picks_and_continues() {
    let items = sample_items();
    let mut m = MenuState::new(items.len());
    type_key(&mut m, &items, 'i');
    let ctrl = mods(true, false);
    m.on_key(Key::Return, None, ctrl, &items, false, 3);
    assert_eq!(m.picked, vec!["firefox".to_string()]);
    assert!(m.done.is_none());
    assert_eq!(m.sel, 1);
    m.on_key(Key::Return, None, ctrl, &items, false, 3);
    assert_eq!(m.sel, 2);
    m.on_key(Key::Return, None, ctrl, &items, false, 3);
    assert_eq!(m.sel, 2);
    assert_eq!(
        m.picked,
        vec!["firefox".to_string(), "alacritty".to_string(), "libreoffice".to_string()]
    );
}

#[test]
fn tab_completes_highlighted_item_into_query() {
    let items = sample_items();
    let mut m = MenuState::new(items.len());
    type_key(&mut m, &items, 'o');
    key(&mut m, &items, Key::Down, None);
    key(&mut m, &items, Key::Tab, None);
    assert_eq!(m.query, "libreoffice");
    assert_eq!(m.matches.len(), 1);
    assert_eq!(m.sel, 0);
    key(&mut m, &items, Key::Return, None);
    assert_eq!(m.done, Some(Done::Select("libreoffice".into())));
}

#[test]
fn tab_with_hidden_list_fills_first_item() {
    let items = sample_items();
    let mut m = MenuState::new(items.len());
    key(&mut m, &items, Key::Tab, None);
    assert_eq!(m.query, "firefox");
    key(&mut m, &items, Key::Return, None);
    assert_eq!(m.done, Some(Done::Select("firefox".into())));
}

#[test]
fn tab_with_no_match_is_noop() {
    let items = sample_items();
    let mut m = MenuState::new(items.len());
    type_key(&mut m, &items, 'z');
    key(&mut m, &items, Key::Tab, None);
    assert_eq!(m.query, "z");
    assert!(m.matches.is_empty());
}

#[test]
fn streamed_items_keep_the_highlight_steady() {
    let mut items = sample_items();
    let mut m = MenuState::new(items.len());
    type_key(&mut m, &items, 'i');
    key(&mut m, &items, Key::Down, None);
    key(&mut m, &items, Key::Down, None);
    assert_eq!(m.sel, 2);
    let mut no_items = false;
    let fresh = vec![rmenu::items::parse("vim")];
    let changed = m.sync_items(&mut items, fresh, false, &mut no_items, false);
    assert!(changed);
    assert_eq!(items.len(), 4);
    assert_eq!(m.matches.len(), 4);
    assert_eq!(m.sel, 2, "the highlight does not jump back to the top");
    assert!(m.done.is_none() && !no_items);
    let unchanged = m.sync_items(&mut items, Vec::new(), true, &mut no_items, false);
    assert!(!unchanged && m.done.is_none(), "input ended with items: keep running");
}

#[test]
fn input_ending_without_items_cancels() {
    let mut items: Vec<Item> = Vec::new();
    let mut m = MenuState::new(0);
    let mut no_items = false;
    assert!(!m.sync_items(&mut items, Vec::new(), false, &mut no_items, false));
    assert!(m.done.is_none());
    m.sync_items(&mut items, Vec::new(), true, &mut no_items, false);
    assert!(no_items);
    assert_eq!(m.done, Some(Done::Cancel));
}

#[test]
fn finishing_prints_launches_or_fails() {
    assert_eq!(finish_plan(Some(Done::Select("x".into())), false, false), Finish::Print("x".into()));
    assert_eq!(finish_plan(Some(Done::Select("x".into())), false, true), Finish::Launch("x".into()));
    assert_eq!(finish_plan(Some(Done::Cancel), false, false), Finish::Fail);
    assert_eq!(finish_plan(None, false, true), Finish::Fail);
    assert_eq!(finish_plan(Some(Done::Select("x".into())), true, false), Finish::NoItems);
}

#[test]
fn one_row_viewport_shows_the_selected_row() {
    assert_eq!(viewport_top(0, 0, 1, 5), 0);
    assert_eq!(viewport_top(3, 0, 1, 10), 3);
    assert_eq!(viewport_top(3, 7, 1, 10), 3);
    assert_eq!(viewport_top(4, 3, 2, 10), 3);
    assert_eq!(viewport_top(4, 4, 2, 10), 4);
}

#[test]
fn viewport_does_not_move_when_redrawn_with_the_same_selection() {
    for visible in 1..6usize {
        for sel in 0..12usize {
            for top in 0..14usize {
                let t = viewport_top(sel, top, visible, 12);
                assert!(t <= sel && sel < t + visible);
                assert_eq!(viewport_top(sel, t, visible, 12), t);
            }
        }
    }
}
