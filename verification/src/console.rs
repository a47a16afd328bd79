use vstd::prelude::*;
use vstd::string::StringSliceAdditionalSpecFns;
use crate::text::{cstr, text_of};

verus! {

/// What the kernel's screen and serial port hold that the shell reads: the text
/// cursor, the size of a character cell, the width of the screen and the two colours.
#[derive(Clone, Copy, Debug, PartialEq, Eq, Structural)]
pub struct Screen {
    pub cursor_x: u32,
    pub cursor_y: u32,
    pub cursor_width: u32,
    pub cursor_height: u32,
    pub screen_width: u32,
    pub bg_color: u32,
    pub fg_color: u32,
}

/// One thing for the kernel's devices to do, in the order the shell asks for them.
#[derive(Clone, Copy, Debug, PartialEq, Eq, Structural)]
pub enum Effect {
    /// Write a byte to the serial port.
    PutChar(u8),
    /// Fill a box: x, y, width, height, colour.
    FillBox(u32, u32, u32, u32, u32),
    /// Draw the outline of a box: x, y, width, height, colour.
    DrawBox(u32, u32, u32, u32, u32),
    /// Draw a frame: x, y, width, height, thickness, colour.
    DrawFrame(u32, u32, u32, u32, u32, u32),
    /// Draw a line: x1, y1, x2, y2, colour.
    DrawLine(u32, u32, u32, u32, u32),
    /// Draw a character at a place: the byte, x, y, colour.
    DrawCharAt(u8, u32, u32, u32),
    /// Draw a character at the text cursor.
    DrawChar(u8),
    /// Set the foreground colour.
    SetFg(u32),
    /// Put the text cursor at x, y.
    MoveCursorTo(u32, u32),
    /// Put back what the cursor covered.
    Restore,
    /// Keep what the cursor is about to cover.
    Backup,
    DrawCursor,
    BlankCursor,
    CursorUp,
    CursorDown,
    CursorRight,
    CursorLeft,
}

/// Writing the bytes `s` to the serial port.
pub open spec fn text(s: Seq<u8>) -> Seq<Effect> {
    Seq::new(s.len(), |i: int| Effect::PutChar(s[i]))
}

/// Writes a byte to the serial port.
pub fn putchar(key: u8, out: &mut Vec<Effect>)
    ensures
        final(out)@ == old(out)@ + text(seq![key]),
{
    out.push(Effect::PutChar(key));
    assert(final(out)@ =~= old(out)@ + text(seq![key]));
}

/// Writes bytes to the serial port.
pub fn putbytes(s: &[u8], out: &mut Vec<Effect>)
    ensures
        final(out)@ == old(out)@ + text(s@),
{
    let mut i: usize = 0;
    while i < s.len()
        invariant
            i <= s@.len(),
            out@ == old(out)@ + text(s@.take(i as int)),
        decreases s@.len() - i,
    {
        out.push(Effect::PutChar(s[i]));
        i += 1;
        assert(out@ =~= old(out)@ + text(s@.take(i as int)));
    }
    assert(s@.take(s@.len() as int) =~= s@);
}

/// Writes the bytes of `msg` to the serial port.
pub fn putstr(msg: &str, out: &mut Vec<Effect>)
    ensures
        final(out)@ == old(out)@ + text(msg.spec_bytes()),
{
    putbytes(msg.as_bytes(), out);
}

/// Writes the text of a string to the serial port.
pub fn putcstr(s: &cstr, out: &mut Vec<Effect>)
    ensures
        final(out)@ == old(out)@ + text(text_of(s@)),
{
    let t = s.content();
    let n = t.len();
    let mut i: usize = 0;
    while i < n
        invariant
            i <= n,
            n == t@.len(),
            out@ == old(out)@ + text(t@.take(i as int)),
        decreases n - i,
    {
        out.push(Effect::PutChar(t.byte_at(i)));
        i += 1;
        assert(out@ =~= old(out)@ + text(t@.take(i as int)));
    }
    assert(t@.take(n as int) =~= t@);
}

/// Where the text cursor goes after drawing `c`, `nl` telling whether the character
/// drawn is a new line: a new line goes to the start of the next line; any other
/// character moves one cell right, and past the edge of the screen to the next line.
pub open spec fn after_key(s: Screen, nl: bool) -> Screen {
    if nl {
        Screen { cursor_x: 0, cursor_y: s.cursor_y.wrapping_add(s.cursor_height), ..s }
    } else {
        let x = s.cursor_x.wrapping_add(s.cursor_width);
        if x >= s.screen_width {
            Screen {
                cursor_x: (x - s.screen_width) as u32,
                cursor_y: s.cursor_y.wrapping_add(s.cursor_height),
                ..s
            }
        } else {
            Screen { cursor_x: x, ..s }
        }
    }
}

/// What drawing the byte `c` at the cursor asks of the devices, `nl` telling whether
/// the character drawn is a new line.
pub open spec fn key_effects_at(s: Screen, c: u8, nl: bool) -> Seq<Effect> {
    let t = after_key(s, nl);
    if nl {
        seq![Effect::MoveCursorTo(t.cursor_x, t.cursor_y)]
    } else {
        seq![
            Effect::Restore,
            Effect::DrawChar(c),
            Effect::MoveCursorTo(t.cursor_x, t.cursor_y),
            Effect::Backup,
            Effect::DrawCursor,
        ]
    }
}

/// Where the text cursor goes after drawing the byte `c`: a new line where it is one.
pub open spec fn after_char(s: Screen, c: u8) -> Screen {
    after_key(s, c == 10)
}

/// What drawing the byte `c` at the cursor asks of the devices.
pub open spec fn char_effects(s: Screen, c: u8) -> Seq<Effect> {
    key_effects_at(s, c, c == 10)
}

fn draw_key(scr: &mut Screen, x: u8, nl: bool, out: &mut Vec<Effect>)
    ensures
        *final(scr) == after_key(*old(scr), nl),
        final(out)@ == old(out)@ + key_effects_at(*old(scr), x, nl),
{
    if nl {
        scr.cursor_y = scr.cursor_y.wrapping_add(scr.cursor_height);
        scr.cursor_x = 0;
        out.push(Effect::MoveCursorTo(scr.cursor_x, scr.cursor_y));
        assert(final(out)@ =~= old(out)@ + key_effects_at(*old(scr), x, nl));
        return;
    }
    out.push(Effect::Restore);
    out.push(Effect::DrawChar(x));
    scr.cursor_x = scr.cursor_x.wrapping_add(scr.cursor_width);
    if scr.cursor_x >= scr.screen_width {
        scr.cursor_x = scr.cursor_x - scr.screen_width;
        scr.cursor_y = scr.cursor_y.wrapping_add(scr.cursor_height);
    }
    out.push(Effect::MoveCursorTo(scr.cursor_x, scr.cursor_y));
    out.push(Effect::Backup);
    out.push(Effect::DrawCursor);
    assert(final(out)@ =~= old(out)@ + key_effects_at(*old(scr), x, nl));
}

/// Draws `x` at the text cursor and moves the cursor on.
pub fn drawchar(scr: &mut Screen, x: u8, out: &mut Vec<Effect>)
    ensures
        *final(scr) == after_char(*old(scr), x),
        final(out)@ == old(out)@ + char_effects(*old(scr), x),
{
    draw_key(scr, x, x == 10, out);
}

/// Drawing a character keeps the cursor on the screen: where it was left of the edge,
/// a cell is no wider than the screen and the sum does not wrap, it stays left of the edge.
pub proof fn lemma_cursor_stays_on_screen(s: Screen, c: u8)
    requires
        s.cursor_x < s.screen_width,
        s.cursor_width <= s.screen_width,
        s.cursor_x + s.cursor_width <= u32::MAX,
    ensures
        after_char(s, c).cursor_x < s.screen_width,
{
}

/// The colour after `x` in the cycle of `drawstr`: its bytes turned left by one.
pub open spec fn next_color(x: u32) -> u32 {
    ((x << 8u32) + (x >> 24u32)) as u32
}

/// The colours of `drawstr` come round again after four characters.
pub proof fn lemma_color_cycle(x: u32)
    ensures
        next_color(next_color(next_color(next_color(x)))) == x,
{
    let a = next_color(x);
    let b = next_color(a);
    let c = next_color(b);
    let d = next_color(c);
    assert(a == ((x << 8u32) | (x >> 24u32))) by (bit_vector)
        requires a == ((x << 8u32) + (x >> 24u32)) as u32;
    assert(b == ((a << 8u32) | (a >> 24u32))) by (bit_vector)
        requires b == ((a << 8u32) + (a >> 24u32)) as u32;
    assert(c == ((b << 8u32) | (b >> 24u32))) by (bit_vector)
        requires c == ((b << 8u32) + (b >> 24u32)) as u32;
    assert(d == ((c << 8u32) | (c >> 24u32))) by (bit_vector)
        requires d == ((c << 8u32) + (c >> 24u32)) as u32;
    assert(d == x) by (bit_vector)
        requires
            a == ((x << 8u32) | (x >> 24u32)),
            b == ((a << 8u32) | (a >> 24u32)),
            c == ((b << 8u32) | (b >> 24u32)),
            d == ((c << 8u32) | (c >> 24u32)),
    ;
}

/// Drawing bytes `s` at the cursor, each in the next colour of the cycle that
/// follows `color`: the screen after it, the colour it ends on, and the effects.
pub open spec fn color_run(scr: Screen, color: u32, s: Seq<u8>) -> (Screen, u32, Seq<Effect>)
    decreases s.len(),
{
    if s.len() == 0 {
        (scr, color, Seq::empty())
    } else {
        let (sc, c, fx) = color_run(scr, color, s.drop_last());
        let n = next_color(c);
        (after_char(sc, s.last()), n, fx + seq![Effect::SetFg(n)] + char_effects(sc, s.last()))
    }
}

/// The colour `drawstr` starts its cycle from.
pub const DRAWSTR_COLOR: u32 = 0x6699AAFF;

fn draw_colored(scr: &mut Screen, s: &[u8], out: &mut Vec<Effect>)
    ensures
        *final(scr) == color_run(*old(scr), DRAWSTR_COLOR, s@).0,
        final(out)@ == old(out)@ + color_run(*old(scr), DRAWSTR_COLOR, s@).2,
{
    let mut x: u32 = DRAWSTR_COLOR;
    let mut i: usize = 0;
    while i < s.len()
        invariant
            i <= s@.len(),
            *scr == color_run(*old(scr), DRAWSTR_COLOR, s@.take(i as int)).0,
            x == color_run(*old(scr), DRAWSTR_COLOR, s@.take(i as int)).1,
            out@ == old(out)@ + color_run(*old(scr), DRAWSTR_COLOR, s@.take(i as int)).2,
        decreases s@.len() - i,
    {
        let hi: u32 = x << 8u32;
        let lo: u32 = x >> 24u32;
        assert(hi as int + lo as int <= 0xffff_ffff) by (bit_vector)
            requires
                hi == x << 8u32,
                lo == x >> 24u32,
        ;
        x = hi + lo;
        out.push(Effect::SetFg(x));
        proof {
            assert(s@.take(i as int + 1).drop_last() =~= s@.take(i as int));
        }
        drawchar(scr, s[i], out);
        i += 1;
        proof {
            let t = s@.take(i as int);
            assert(t.last() == s@[i as int - 1]);
        }
    }
    assert(s@.take(s@.len() as int) =~= s@);
}

/// Draws `msg` at the cursor in a cycle of colours, then puts the colour back.
pub fn drawstr(msg: &str, scr: &mut Screen, out: &mut Vec<Effect>)
    ensures
        *final(scr) == color_run(*old(scr), DRAWSTR_COLOR, msg.spec_bytes()).0,
        final(out)@ == old(out)@ + color_run(*old(scr), DRAWSTR_COLOR, msg.spec_bytes()).2
            + seq![Effect::SetFg(old(scr).fg_color)],
{
    let old_fg = scr.fg_color;
    draw_colored(scr, msg.as_bytes(), out);
    out.push(Effect::SetFg(old_fg));
}

/// Whether the character read at place `i` of the text `s` is a new line: the text is
/// read one four-byte `char` at a time, so the byte there must be a new line and the
/// three after it zero (bytes past the end counting as zero).
pub open spec fn newline_at(s: Seq<u8>, i: int) -> bool {
    &&& s[i] == 10
    &&& forall|j: int| i < j < i + 4 && j < s.len() ==> #[trigger] s[j] == 0
}

/// Drawing the first `n` bytes of the text `s` at the cursor one after the other.
pub open spec fn plain_run(scr: Screen, s: Seq<u8>, n: int) -> (Screen, Seq<Effect>)
    decreases n,
{
    if n <= 0 {
        (scr, Seq::empty())
    } else {
        let (sc, fx) = plain_run(scr, s, n - 1);
        (after_key(sc, newline_at(s, n - 1)), fx + key_effects_at(sc, s[n - 1], newline_at(s, n - 1)))
    }
}

/// Draws the text of a string at the cursor.
pub fn drawcstr(s: &cstr, scr: &mut Screen, out: &mut Vec<Effect>)
    ensures
        *final(scr) == plain_run(*old(scr), text_of(s@), text_of(s@).len() as int).0,
        final(out)@ == old(out)@ + plain_run(*old(scr), text_of(s@), text_of(s@).len() as int).1,
{
    let t = s.content();
    let n = t.len();
    let mut i: usize = 0;
    while i < n
        invariant
            i <= n,
            n == t@.len(),
            t@ == text_of(s@),
            *scr == plain_run(*old(scr), t@, i as int).0,
            out@ == old(out)@ + plain_run(*old(scr), t@, i as int).1,
        decreases n - i,
    {
        let b = t.byte_at(i);
        let mut nl = b == 10;
        let mut j: usize = i + 1;
        while j < n && j - i < 4
            invariant
                i < j <= n,
                j <= i + 4,
                n == t@.len(),
                nl == (t@[i as int] == 10 && forall|q: int| i < q < j ==> #[trigger] t@[q] == 0),
            decreases n - j,
        {
            if t.byte_at(j) != 0 {
                nl = false;
            }
            j += 1;
        }
        assert(nl == newline_at(t@, i as int));
        draw_key(scr, b, nl, out);
        i += 1;
        proof {
            assert(out@ =~= old(out)@ + plain_run(*old(scr), t@, i as int).1);
        }
    }
}

/// Drawing bytes `s` from `x` rightwards, one cell of width `w` each, at height `y`.
pub open spec fn text_at(s: Seq<u8>, x: u32, y: u32, color: u32, w: u32) -> Seq<Effect> {
    Seq::new(
        s.len(),
        |i: int| Effect::DrawCharAt(s[i], x.wrapping_add(((i % 0x1_0000_0000) as u32).wrapping_mul(w)), y, color),
    )
}

/// Draws `c` at `x`, `y` in `color`.
pub fn drawchar_at_coord(c: u8, x: u32, y: u32, color: u32, out: &mut Vec<Effect>)
    ensures
        final(out)@ == old(out)@.push(Effect::DrawCharAt(c, x, y, color)),
{
    out.push(Effect::DrawCharAt(c, x, y, color));
}

/// Draws the text of a string from `x` rightwards at height `y`, a cell of
/// `cell_width` for each byte.
pub fn drawcstr_at_coord(s: &cstr, x: u32, y: u32, color: u32, cell_width: u32, out: &mut Vec<Effect>)
    ensures
        final(out)@ == old(out)@ + text_at(text_of(s@), x, y, color, cell_width),
{
    let t = s.content();
    let n = t.len();
    let mut i: usize = 0;
    let mut k: u32 = 0;
    while i < n
        invariant
            i <= n,
            n == t@.len(),
            k == ((i as int) % 0x1_0000_0000) as u32,
            out@ == old(out)@ + text_at(t@, x, y, color, cell_width).take(i as int),
        decreases n - i,
    {
        drawchar_at_coord(t.byte_at(i), x.wrapping_add(k.wrapping_mul(cell_width)), y, color, out);
        i += 1;
        k = k.wrapping_add(1);
        assert(out@ =~= old(out)@ + text_at(t@, x, y, color, cell_width).take(i as int));
    }
    assert(text_at(t@, x, y, color, cell_width).take(n as int) =~= text_at(t@, x, y, color, cell_width));
}

} // verus!
