use sgash::console::{Effect, Screen};
use sgash::text::cstr;
use sgash::windows::{bring_window_to_top, move_window, window, windowlist, windownode};

fn scr() -> Screen {
    Screen { cursor_x: 0, cursor_y: 0, cursor_width: 8, cursor_height: 16, screen_width: 640, bg_color: 0x123456, fg_color: 0xFFFFFF }
}

fn win(name: &str, x: u32, y: u32) -> window {
    window::new(cstr::from_str(name), x, y, 20, 10, true)
}

#[test]
fn new_window_parts() {
    let w = window::new(cstr::from_str("W"), 1, 2, 3, 4, false);
    assert_eq!((w.x, w.y, w.width, w.height, w.visible), (1, 2, 3, 4, false));
}

#[test]
fn mov_and_set_visible() {
    let mut w = win("W", 1, 2);
    w.mov(7, 9);
    w.set_visible(false);
    assert_eq!((w.x, w.y, w.visible), (7, 9, false));
}

#[test]
fn draw_geometry() {
    let w = window::new(cstr::from_str("Hi"), 100, 50, 20, 10, true);
    let mut out = Vec::new();
    w.draw(&scr(), &mut out);
    assert_eq!(
        out,
        vec![
            Effect::FillBox(100, 50, 20, 10, 0x777777),
            Effect::DrawBox(99, 49, 22, 12, 0),
            Effect::DrawFrame(94, 44, 32, 22, 5, 0x666666),
            Effect::FillBox(94, 29, 32, 15, 0x666666),
            Effect::DrawBox(93, 28, 34, 39, 0),
            Effect::DrawBox(110, 32, 12, 12, 0),
            Effect::DrawLine(110, 32, 122, 44, 0),
            Effect::DrawLine(122, 32, 110, 44, 0),
            Effect::DrawBox(94, 32, 12, 12, 0),
            Effect::DrawLine(96, 41, 105, 41, 0),
            Effect::DrawCharAt(b'H', 100, 31, 0),
            Effect::DrawCharAt(b'i', 108, 31, 0),
        ]
    );
}

#[test]
fn hidden_window_draws_nothing() {
    let w = window::new(cstr::from_str("Hi"), 100, 50, 20, 10, false);
    let mut out = Vec::new();
    w.draw(&scr(), &mut out);
    assert!(out.is_empty());
}

#[test]
fn draw_wraps_near_zero() {
    let w = window::new(cstr::new(4), 3, 5, 20, 10, true);
    let mut out = Vec::new();
    w.draw(&scr(), &mut out);
    assert_eq!(out[1], Effect::DrawBox(2, 4, 22, 12, 0));
    assert_eq!(out[4], Effect::DrawBox(3u32.wrapping_sub(7), 5u32.wrapping_sub(22), 34, 39, 0));
}

#[test]
fn blank_fills_with_background() {
    let w = window::new(cstr::from_str("Hi"), 100, 50, 20, 10, true);
    let mut out = Vec::new();
    w.blank(&scr(), &mut out);
    assert_eq!(out, vec![Effect::FillBox(93, 28, 34, 39, 0x123456)]);
}

#[test]
fn cursor_within_bounds() {
    let w = window::new(cstr::from_str("Hi"), 100, 50, 20, 10, true);
    let mut s = scr();
    s.cursor_x = 90;
    s.cursor_y = 30;
    assert!(w.cursor_within(&s));
    s.cursor_x = 85;
    assert!(!w.cursor_within(&s));
    s.cursor_x = 131;
    assert!(s.cursor_x < 132);
    assert!(w.cursor_within(&s));
    s.cursor_x = 132;
    assert!(!w.cursor_within(&s));
    s.cursor_x = 100;
    s.cursor_y = 67;
    assert!(!w.cursor_within(&s));
}

#[test]
fn windownode_new_has_no_next() {
    let n = windownode::new(win("a", 1, 1));
    assert!(n.next.is_none());
}

#[test]
fn add_front_and_back_refuse_duplicates() {
    let mut wl = windowlist::new();
    assert!(wl.is_empty());
    assert!(wl.add_win_front(win("a", 1, 1)));
    assert!(wl.add_win_back(win("b", 2, 2)));
    assert!(wl.add_win_front(win("c", 3, 3)));
    assert!(!wl.add_win_front(win("a", 9, 9)));
    assert!(!wl.add_win_back(win("b", 9, 9)));
    assert_eq!(wl.get_bot().x, 3);
    assert_eq!(wl.get_windownode(&cstr::from_str("a")).unwrap().win.x, 1);
    assert!(wl.get_windownode(&cstr::from_str("zz")).is_none());
}

#[test]
fn bring_to_top_moves_the_window_last() {
    let mut wl = windowlist::new();
    wl.add_win_back(win("a", 1, 1));
    wl.add_win_back(win("b", 2, 2));
    wl.add_win_back(win("c", 3, 3));
    assert!(wl.bring_to_top(&cstr::from_str("a")));
    assert_eq!(wl.get_bot().x, 2);
    let mut out = Vec::new();
    wl.draw_all(&scr(), &mut out);
    let xs: Vec<u32> = out
        .iter()
        .filter_map(|e| match e {
            Effect::FillBox(x, _, 20, 10, 0x777777) => Some(*x),
            _ => None,
        })
        .collect();
    assert_eq!(xs, vec![2, 3, 1]);
    assert!(!wl.bring_to_top(&cstr::from_str("zz")));
}

#[test]
fn bring_to_top_of_the_only_window() {
    let mut wl = windowlist::new();
    wl.add_win_back(win("a", 1, 1));
    assert!(wl.bring_to_top(&cstr::from_str("a")));
    assert_eq!(wl.get_bot().x, 1);
    assert!(!windowlist::new().bring_to_top(&cstr::from_str("a")));
}

#[test]
fn remove_win_blanks_the_window_below() {
    let mut wl = windowlist::new();
    wl.add_win_back(win("a", 100, 100));
    wl.add_win_back(win("b", 200, 200));
    let mut out = Vec::new();
    assert!(wl.remove_win(&cstr::from_str("b"), &scr(), &mut out));
    assert_eq!(out, vec![Effect::FillBox(93, 78, 34, 39, 0x123456)]);
    out.clear();
    assert!(wl.remove_win(&cstr::from_str("a"), &scr(), &mut out));
    assert_eq!(out, vec![Effect::FillBox(93, 78, 34, 39, 0x123456)]);
    assert!(wl.is_empty());
    out.clear();
    assert!(!wl.remove_win(&cstr::from_str("a"), &scr(), &mut out));
    assert!(out.is_empty());
}

#[test]
fn cursor_over_some_window() {
    let mut wl = windowlist::new();
    let mut s = scr();
    s.cursor_x = 500;
    s.cursor_y = 500;
    assert!(!wl.cursor_over_window(&s));
    wl.add_win_back(window::new(cstr::from_str("a"), 100, 50, 20, 10, true));
    assert!(!wl.cursor_over_window(&s));
    s.cursor_x = 100;
    s.cursor_y = 50;
    assert!(wl.cursor_over_window(&s));
}

#[test]
fn move_window_blanks_moves_and_redraws() {
    let mut wl = windowlist::new();
    wl.add_win_back(window::new(cstr::from_str("a"), 100, 50, 20, 10, true));
    let mut out = Vec::new();
    move_window(&mut wl, &cstr::from_str("a"), 110, 60, &scr(), &mut out);
    assert_eq!(out[0], Effect::FillBox(93, 28, 34, 39, 0x123456));
    assert_eq!(out[1], Effect::FillBox(110, 60, 20, 10, 0x777777));
    assert_eq!(wl.get_bot().x, 110);
    assert_eq!(wl.get_bot().y, 60);
}

#[test]
fn bring_window_to_top_redraws() {
    let mut wl = windowlist::new();
    wl.add_win_back(window::new(cstr::from_str("a"), 100, 50, 20, 10, true));
    wl.add_win_back(window::new(cstr::from_str("b"), 200, 50, 20, 10, false));
    let mut out = Vec::new();
    bring_window_to_top(&mut wl, &cstr::from_str("a"), &scr(), &mut out);
    assert_eq!(wl.get_bot().x, 200);
    assert_eq!(out[0], Effect::FillBox(100, 50, 20, 10, 0x777777));
    assert_eq!(out.len(), 11);
}
