use sgash::console::{drawchar, drawchar_at_coord, drawcstr, drawcstr_at_coord, drawstr, putbytes, putchar, putcstr, putstr, Effect, Screen};
use sgash::text::cstr;

fn scr() -> Screen {
    Screen { cursor_x: 0, cursor_y: 0, cursor_width: 8, cursor_height: 16, screen_width: 24, bg_color: 0, fg_color: 0xABCDEF }
}

#[test]
fn put_functions_write_bytes() {
    let mut out = Vec::new();
    putchar(b'x', &mut out);
    putstr("yz", &mut out);
    putcstr(&cstr::from_str("w"), &mut out);
    putbytes(&[1u8, 2u8], &mut out);
    assert_eq!(
        out,
        vec![
            Effect::PutChar(b'x'),
            Effect::PutChar(b'y'),
            Effect::PutChar(b'z'),
            Effect::PutChar(b'w'),
            Effect::PutChar(1),
            Effect::PutChar(2),
        ]
    );
}

#[test]
fn drawchar_advances_the_cursor() {
    let mut s = scr();
    let mut out = Vec::new();
    drawchar(&mut s, b'a', &mut out);
    assert_eq!((s.cursor_x, s.cursor_y), (8, 0));
    assert_eq!(
        out,
        vec![Effect::Restore, Effect::DrawChar(b'a'), Effect::MoveCursorTo(8, 0), Effect::Backup, Effect::DrawCursor]
    );
}

#[test]
fn drawchar_wraps_at_the_edge() {
    let mut s = scr();
    s.cursor_x = 16;
    let mut out = Vec::new();
    drawchar(&mut s, b'a', &mut out);
    assert_eq!((s.cursor_x, s.cursor_y), (0, 16));
    assert!(s.cursor_x < s.screen_width);
}

#[test]
fn drawchar_new_line() {
    let mut s = scr();
    s.cursor_x = 8;
    s.cursor_y = 32;
    let mut out = Vec::new();
    drawchar(&mut s, b'\n', &mut out);
    assert_eq!((s.cursor_x, s.cursor_y), (0, 48));
    assert_eq!(out, vec![Effect::MoveCursorTo(0, 48)]);
}

#[test]
fn drawstr_cycles_colours_and_restores() {
    let mut s = scr();
    let mut out = Vec::new();
    drawstr("abcde", &mut s, &mut out);
    let colours: Vec<u32> = out
        .iter()
        .filter_map(|e| match e {
            Effect::SetFg(c) => Some(*c),
            _ => None,
        })
        .collect();
    assert_eq!(colours, vec![0x99AAFF66, 0xAAFF6699, 0xFF6699AA, 0x6699AAFF, 0x99AAFF66, 0xABCDEF]);
    assert_eq!((s.cursor_x, s.cursor_y), (16, 16));
}

#[test]
fn drawcstr_draws_each_byte() {
    let mut s = scr();
    let mut out = Vec::new();
    drawcstr(&cstr::from_str("ab"), &mut s, &mut out);
    assert_eq!(out.len(), 10);
    assert_eq!(out[1], Effect::DrawChar(b'a'));
    assert_eq!(out[6], Effect::DrawChar(b'b'));
    assert_eq!(s.cursor_x, 16);
}

#[test]
fn drawcstr_at_coord_places_cells() {
    let mut out = Vec::new();
    drawcstr_at_coord(&cstr::from_str("xyz"), 10, 20, 5, 8, &mut out);
    assert_eq!(
        out,
        vec![Effect::DrawCharAt(b'x', 10, 20, 5), Effect::DrawCharAt(b'y', 18, 20, 5), Effect::DrawCharAt(b'z', 26, 20, 5)]
    );
    let mut one = Vec::new();
    drawchar_at_coord(b'q', 1, 2, 3, &mut one);
    assert_eq!(one, vec![Effect::DrawCharAt(b'q', 1, 2, 3)]);
}

#[test]
fn string_output_stops_at_four_zero_bytes() {
    let s = cstr::from_str("ok\0\0\0\0no");
    let mut out = Vec::new();
    putcstr(&s, &mut out);
    assert_eq!(out, vec![Effect::PutChar(b'o'), Effect::PutChar(b'k')]);
    let mut out = Vec::new();
    drawcstr_at_coord(&s, 10, 20, 7, 8, &mut out);
    assert_eq!(out, vec![Effect::DrawCharAt(b'o', 10, 20, 7), Effect::DrawCharAt(b'k', 18, 20, 7)]);
    let mut out = Vec::new();
    let mut sc = scr();
    drawcstr(&s, &mut sc, &mut out);
    assert_eq!(out.iter().filter(|e| matches!(e, Effect::DrawChar(_))).count(), 2);
}

#[test]
fn a_lone_zero_byte_is_written_out() {
    let s = cstr::from_str("a\0b");
    let mut out = Vec::new();
    putcstr(&s, &mut out);
    assert_eq!(out, vec![Effect::PutChar(b'a'), Effect::PutChar(0), Effect::PutChar(b'b')]);
}

#[test]
fn drawcstr_takes_a_new_line_only_where_the_text_ends_after_it() {
    let mut s = scr();
    let mut out = Vec::new();
    drawcstr(&cstr::from_str("a\n"), &mut s, &mut out);
    assert_eq!(out.last(), Some(&Effect::MoveCursorTo(0, 16)));
    assert_eq!((s.cursor_x, s.cursor_y), (0, 16));

    let mut s = scr();
    let mut out = Vec::new();
    drawcstr(&cstr::from_str("a\nb"), &mut s, &mut out);
    assert_eq!(out.iter().filter(|e| matches!(e, Effect::DrawChar(_))).count(), 3);
    assert_eq!(out[6], Effect::DrawChar(b'\n'));
    assert_eq!((s.cursor_x, s.cursor_y), (0, 16));

    let mut s = scr();
    let mut out = Vec::new();
    drawcstr(&cstr::from_str("\n\0\0\0b"), &mut s, &mut out);
    assert_eq!(out[0], Effect::MoveCursorTo(0, 16));
}
