use vstd::prelude::*;
use crate::text::{cstr, text_of};
use crate::console::{Effect, Screen, drawcstr_at_coord, text_at};

verus! {

/// A window on the screen: its name, the corner of its inner area, its size, and
/// whether it is drawn.
#[allow(non_camel_case_types)]
pub struct window {
    pub name: cstr,
    pub x: u32,
    pub y: u32,
    pub width: u32,
    pub height: u32,
    pub visible: bool,
}

/// What a window holds: the bytes and room of its name, its place and size, and whether
/// it is drawn.
pub struct WinView {
    pub name: Seq<u8>,
    pub name_room: nat,
    pub x: u32,
    pub y: u32,
    pub width: u32,
    pub height: u32,
    pub visible: bool,
}

impl View for window {
    type V = WinView;

    open spec fn view(&self) -> WinView {
        WinView {
            name: self.name@,
            name_room: self.name.max_len(),
            x: self.x,
            y: self.y,
            width: self.width,
            height: self.height,
            visible: self.visible,
        }
    }
}

/// A node of the window list.
#[allow(non_camel_case_types)]
pub struct windownode {
    pub next: Option<Box<windownode>>,
    pub win: window,
}

/// The windows on the screen, from the bottom one to the top one.
#[allow(non_camel_case_types)]
pub struct windowlist {
    head: Option<Box<windownode>>,
}

/// The windows of the chain that starts at `n`.
pub open spec fn wins_of(n: Option<Box<windownode>>) -> Seq<WinView>
    decreases n,
{
    match n {
        None => Seq::empty(),
        Some(b) => seq![b.win@].add(wins_of(b.next)),
    }
}

/// Index of the first window named `name`, or the length of `ws` where there is none.
pub open spec fn win_index(ws: Seq<WinView>, name: Seq<u8>) -> int
    decreases ws.len(),
{
    if ws.len() == 0 {
        0
    } else if ws[0].name == name {
        0
    } else {
        1 + win_index(ws.drop_first(), name)
    }
}

/// Whether a window of `ws` is named `name`.
pub open spec fn has_window(ws: Seq<WinView>, name: Seq<u8>) -> bool {
    win_index(ws, name) < ws.len()
}

/// Whether the text cursor lies over the window, its title bar, or the cells around it.
pub open spec fn within(w: WinView, s: Screen) -> bool {
    &&& s.cursor_x > w.x.wrapping_sub(7).wrapping_sub(s.cursor_width)
    &&& s.cursor_x < w.x.wrapping_add(w.width).wrapping_add(12)
    &&& s.cursor_y > w.y.wrapping_sub(22).wrapping_sub(s.cursor_height)
    &&& s.cursor_y < w.y.wrapping_add(w.height).wrapping_add(7)
}

/// The box that covers the window with its frame and title bar, filled with `bg`.
pub open spec fn blank_effect(w: WinView, bg: u32) -> Effect {
    Effect::FillBox(
        w.x.wrapping_sub(7),
        w.y.wrapping_sub(22),
        w.width.wrapping_add(14),
        w.height.wrapping_add(29),
        bg,
    )
}

/// The boxes and lines of a window: its area, border, frame, title bar, and the
/// close and minimise buttons.
pub open spec fn frame_effects(w: WinView) -> Seq<Effect> {
    let x = w.x;
    let y = w.y;
    let xw = w.x.wrapping_add(w.width);
    seq![
        Effect::FillBox(x, y, w.width, w.height, 0x777777),
        Effect::DrawBox(x.wrapping_sub(1), y.wrapping_sub(1), w.width.wrapping_add(2), w.height.wrapping_add(2), 0),
        Effect::DrawFrame(x.wrapping_sub(6), y.wrapping_sub(6), w.width.wrapping_add(12), w.height.wrapping_add(12), 5, 0x666666),
        Effect::FillBox(x.wrapping_sub(6), y.wrapping_sub(21), w.width.wrapping_add(12), 15, 0x666666),
        Effect::DrawBox(x.wrapping_sub(7), y.wrapping_sub(22), w.width.wrapping_add(14), w.height.wrapping_add(29), 0),
        Effect::DrawBox(xw.wrapping_sub(10), y.wrapping_sub(18), 12, 12, 0),
        Effect::DrawLine(xw.wrapping_sub(10), y.wrapping_sub(18), xw.wrapping_add(2), y.wrapping_sub(6), 0),
        Effect::DrawLine(xw.wrapping_add(2), y.wrapping_sub(18), xw.wrapping_sub(10), y.wrapping_sub(6), 0),
        Effect::DrawBox(xw.wrapping_sub(26), y.wrapping_sub(18), 12, 12, 0),
        Effect::DrawLine(xw.wrapping_sub(24), y.wrapping_sub(9), xw.wrapping_sub(15), y.wrapping_sub(9), 0),
    ]
}

/// What drawing a window asks of the screen: nothing for a hidden window; its frame
/// and the text of its name in the title bar otherwise.
pub open spec fn draw_effects(w: WinView, s: Screen) -> Seq<Effect> {
    if w.visible {
        frame_effects(w) + text_at(text_of(w.name), w.x, w.y.wrapping_sub(19), 0, s.cursor_width)
    } else {
        Seq::empty()
    }
}

/// Drawing the windows of `ws` from the first to the last.
pub open spec fn draws(ws: Seq<WinView>, s: Screen) -> Seq<Effect>
    decreases ws.len(),
{
    if ws.len() == 0 {
        Seq::empty()
    } else {
        draw_effects(ws[0], s) + draws(ws.drop_first(), s)
    }
}

/// Whether the cursor lies within some window of `ws`.
pub open spec fn any_within(ws: Seq<WinView>, s: Screen) -> bool {
    exists|i: int| 0 <= i < ws.len() && within(#[trigger] ws[i], s)
}

/// The index found is in range, names a window of that name where it is below the length, and no window before it has the name.
pub proof fn lemma_win_index(ws: Seq<WinView>, name: Seq<u8>)
    ensures
        0 <= win_index(ws, name) <= ws.len(),
        win_index(ws, name) < ws.len() ==> ws[win_index(ws, name)].name == name,
        forall|j: int| 0 <= j < win_index(ws, name) ==> ws[j].name != name,
    decreases ws.len(),
{
    if ws.len() > 0 && ws[0].name != name {
        lemma_win_index(ws.drop_first(), name);
        assert forall|j: int| 0 <= j < win_index(ws, name) implies ws[j].name != name by {
            if j > 0 {
                assert(ws[j] == ws.drop_first()[j - 1]);
            }
        }
    }
}

/// No two windows of `ws` have the same name.
pub open spec fn distinct_names(ws: Seq<WinView>) -> bool {
    forall|i: int, j: int| 0 <= i < ws.len() && 0 <= j < ws.len() && i != j ==> ws[i].name != ws[j].name
}

/// Adding a window at the bottom or the top, as `add_win_front` and `add_win_back` do,
/// never gives two windows one name.
pub proof fn lemma_adds_keep_names_distinct(ws: Seq<WinView>, w: WinView)
    requires
        distinct_names(ws),
    ensures
        distinct_names(if has_window(ws, w.name) { ws } else { seq![w] + ws }),
        distinct_names(if has_window(ws, w.name) { ws } else { ws.push(w) }),
{
    lemma_win_index(ws, w.name);
    if !has_window(ws, w.name) {
        let a = seq![w] + ws;
        assert forall|i: int, j: int| 0 <= i < a.len() && 0 <= j < a.len() && i != j implies a[i].name != a[j].name by {
            if i > 0 && j > 0 {
                assert(a[i] == ws[i - 1] && a[j] == ws[j - 1]);
            } else if i == 0 {
                assert(a[j] == ws[j - 1]);
                assert(win_index(ws, w.name) == ws.len());
            } else {
                assert(a[i] == ws[i - 1]);
            }
        }
        let b = ws.push(w);
        assert forall|i: int, j: int| 0 <= i < b.len() && 0 <= j < b.len() && i != j implies b[i].name != b[j].name by {
            if i < ws.len() && j < ws.len() {
            } else if i == ws.len() {
                assert(b[j] == ws[j]);
            } else {
                assert(b[i] == ws[i]);
            }
        }
    }
}

/// Bringing a window to the top keeps the same windows, puts the one brought on top,
/// and leaves the others in their order.
pub proof fn lemma_bring_to_top(ws: Seq<WinView>, name: Seq<u8>)
    requires
        has_window(ws, name),
    ensures
        ({
            let i = win_index(ws, name);
            let t = ws.remove(i).push(ws[i]);
            &&& t.to_multiset() == ws.to_multiset()
            &&& t.len() == ws.len()
            &&& t.last().name == name
            &&& t.drop_last() == ws.remove(i)
        }),
{
    broadcast use vstd::seq_lib::group_to_multiset_ensures;
    broadcast use vstd::multiset::group_multiset_axioms;
    lemma_win_index(ws, name);
    let i = win_index(ws, name);
    let t = ws.remove(i).push(ws[i]);
    assert(ws.contains(ws[i]));
    assert(t.to_multiset() =~= ws.to_multiset());
    assert(t.drop_last() =~= ws.remove(i));
}

impl Clone for window {
    fn clone(&self) -> (r: window)
        ensures
            r@ == self@,
    {
        window {
            name: self.name.clone(),
            x: self.x,
            y: self.y,
            width: self.width,
            height: self.height,
            visible: self.visible,
        }
    }
}

impl window {
    /// A window with these parts.
    pub fn new(name: cstr, x: u32, y: u32, width: u32, height: u32, visible: bool) -> (r: window)
        ensures
            r.name == name,
            r@ == (WinView { name: name@, name_room: name.max_len(), x, y, width, height, visible }),
    {
        window { name, x, y, width, height, visible }
    }

    /// Shows or hides the window.
    pub fn set_visible(&mut self, vi: bool)
        ensures
            final(self).name == old(self).name,
            final(self)@ == (WinView { visible: vi, ..old(self)@ }),
    {
        self.visible = vi;
    }

    /// Moves the window to `x`, `y`.
    pub fn mov(&mut self, x: u32, y: u32)
        ensures
            final(self).name == old(self).name,
            final(self)@ == (WinView { x, y, ..old(self)@ }),
    {
        self.x = x;
        self.y = y;
    }

    /// Whether the text cursor lies over the window or around it.
    pub fn cursor_within(&self, scr: &Screen) -> (r: bool)
        ensures
            r == within(self@, *scr),
    {
        (scr.cursor_x > self.x.wrapping_sub(7).wrapping_sub(scr.cursor_width))
            && (scr.cursor_x < self.x.wrapping_add(self.width).wrapping_add(12))
            && (scr.cursor_y > self.y.wrapping_sub(22).wrapping_sub(scr.cursor_height))
            && (scr.cursor_y < self.y.wrapping_add(self.height).wrapping_add(7))
    }

    /// Draws the window, where it is visible.
    pub fn draw(&self, scr: &Screen, out: &mut Vec<Effect>)
        ensures
            final(out)@ == old(out)@ + draw_effects(self@, *scr),
    {
        if self.visible {
            let x = self.x;
            let y = self.y;
            let w = self.width;
            let h = self.height;
            let xw = x.wrapping_add(w);
            out.push(Effect::FillBox(x, y, w, h, 0x777777));
            out.push(Effect::DrawBox(x.wrapping_sub(1), y.wrapping_sub(1), w.wrapping_add(2), h.wrapping_add(2), 0));
            out.push(Effect::DrawFrame(x.wrapping_sub(6), y.wrapping_sub(6), w.wrapping_add(12), h.wrapping_add(12), 5, 0x666666));
            out.push(Effect::FillBox(x.wrapping_sub(6), y.wrapping_sub(21), w.wrapping_add(12), 15, 0x666666));
            out.push(Effect::DrawBox(x.wrapping_sub(7), y.wrapping_sub(22), w.wrapping_add(14), h.wrapping_add(29), 0));
            out.push(Effect::DrawBox(xw.wrapping_sub(10), y.wrapping_sub(18), 12, 12, 0));
            out.push(Effect::DrawLine(xw.wrapping_sub(10), y.wrapping_sub(18), xw.wrapping_add(2), y.wrapping_sub(6), 0));
            out.push(Effect::DrawLine(xw.wrapping_add(2), y.wrapping_sub(18), xw.wrapping_sub(10), y.wrapping_sub(6), 0));
            out.push(Effect::DrawBox(xw.wrapping_sub(26), y.wrapping_sub(18), 12, 12, 0));
            out.push(Effect::DrawLine(xw.wrapping_sub(24), y.wrapping_sub(9), xw.wrapping_sub(15), y.wrapping_sub(9), 0));
            let ghost mid = out@;
            assert(mid =~= old(out)@ + frame_effects(self@));
            drawcstr_at_coord(&self.name, x, y.wrapping_sub(19), 0, scr.cursor_width, out);
            assert(final(out)@ =~= old(out)@ + draw_effects(self@, *scr));
        } else {
            assert(final(out)@ =~= old(out)@ + draw_effects(self@, *scr));
        }
    }

    /// Fills what the window covers with the background colour.
    pub fn blank(&self, scr: &Screen, out: &mut Vec<Effect>)
        ensures
            final(out)@ == old(out)@.push(blank_effect(self@, scr.bg_color)),
    {
        out.push(
            Effect::FillBox(
                self.x.wrapping_sub(7),
                self.y.wrapping_sub(22),
                self.width.wrapping_add(14),
                self.height.wrapping_add(29),
                scr.bg_color,
            ),
        );
    }
}

impl windownode {
    /// A node holding `w`, linked to nothing.
    pub fn new(w: window) -> (r: Box<windownode>)
        ensures
            r.next is None,
            r.win == w,
    {
        Box::new(windownode { next: None, win: w })
    }
}

fn chain_find<'a>(node: &'a Option<Box<windownode>>, name: &cstr) -> (r: Option<&'a windownode>)
    ensures
        match r {
            None => !has_window(wins_of(*node), name@),
            Some(n) => has_window(wins_of(*node), name@)
                && n.win@ == wins_of(*node)[win_index(wins_of(*node), name@)]
                && wins_of(n.next) == wins_of(*node).skip(win_index(wins_of(*node), name@) + 1),
        },
    decreases node,
{
    match node {
        None => {
            assert(wins_of(*node) == Seq::<WinView>::empty());
            None
        },
        Some(b) => {
            let ghost ws = wins_of(*node);
            assert(ws.drop_first() =~= wins_of(b.next));
            if b.win.name.eq(name) {
                assert(ws.skip(1) =~= wins_of(b.next));
                Some(&**b)
            } else {
                let r = chain_find(&b.next, name);
                proof {
                    lemma_win_index(wins_of(b.next), name@);
                    let i = win_index(wins_of(b.next), name@);
                    if i < wins_of(b.next).len() {
                        assert(ws.skip(i + 2) =~= wins_of(b.next).skip(i + 1));
                    }
                }
                r
            }
        },
    }
}

fn chain_append(node: &mut Option<Box<windownode>>, w: window)
    ensures
        wins_of(*final(node)) == wins_of(*old(node)).push(w@),
    decreases *old(node),
{
    match node.take() {
        None => {
            let b = windownode::new(w);
            assert(wins_of(b.next) == Seq::<WinView>::empty());
            *node = Some(b);
            assert(wins_of(*node) =~= wins_of(*old(node)).push(w@));
        },
        Some(mut b) => {
            chain_append(&mut b.next, w);
            *node = Some(b);
            assert(wins_of(*node) =~= wins_of(*old(node)).push(w@));
        },
    }
}

/// Takes the first window named `name` out of the chain.
fn chain_take(node: &mut Option<Box<windownode>>, name: &cstr) -> (r: Option<window>)
    ensures
        ({
            let ws = wins_of(*old(node));
            let i = win_index(ws, name@);
            match r {
                None => !has_window(ws, name@) && wins_of(*final(node)) == ws,
                Some(w) => has_window(ws, name@) && w@ == ws[i] && wins_of(*final(node)) == ws.remove(i),
            }
        }),
    decreases *old(node),
{
    match node.take() {
        None => {
            assert(wins_of(*old(node)) == Seq::<WinView>::empty());
            None
        },
        Some(b) => {
            let ghost ws = wins_of(*old(node));
            assert(ws.drop_first() =~= wins_of(b.next));
            let windownode { next, win } = *b;
            if win.name.eq(name) {
                *node = next;
                assert(wins_of(*node) =~= ws.remove(0));
                Some(win)
            } else {
                let mut next = next;
                let ghost rest = wins_of(next);
                let r = chain_take(&mut next, name);
                *node = Some(Box::new(windownode { next, win }));
                proof {
                    lemma_win_index(rest, name@);
                    if r is Some {
                        assert(wins_of(*node) =~= ws.remove(win_index(ws, name@)));
                    } else {
                        assert(wins_of(*node) =~= ws);
                    }
                }
                r
            }
        },
    }
}

/// Takes the first window named `name` out of the chain that follows `cur`, and
/// blanks `cur`'s window, the one before it.
fn chain_remove_after(cur: &mut Box<windownode>, name: &cstr, scr: &Screen, out: &mut Vec<Effect>) -> (r: bool)
    ensures
        ({
            let ws = wins_of(old(cur).next);
            let i = win_index(ws, name@);
            &&& r == has_window(ws, name@)
            &&& final(cur).win == old(cur).win
            &&& wins_of(final(cur).next) == (if r { ws.remove(i) } else { ws })
            &&& final(out)@ == (if r {
                old(out)@.push(blank_effect(if i == 0 { old(cur).win@ } else { ws[i - 1] }, scr.bg_color))
            } else {
                old(out)@
            })
        }),
    decreases old(cur).next,
{
    let ghost ws = wins_of(cur.next);
    match cur.next.take() {
        None => {
            assert(ws == Seq::<WinView>::empty());
            false
        },
        Some(mut b) => {
            assert(ws.drop_first() =~= wins_of(b.next));
            if b.win.name.eq(name) {
                cur.win.blank(scr, out);
                cur.next = b.next;
                assert(wins_of(cur.next) =~= ws.remove(0));
                true
            } else {
                let ghost rest = wins_of(b.next);
                let r = chain_remove_after(&mut b, name, scr, out);
                cur.next = Some(b);
                proof {
                    lemma_win_index(rest, name@);
                    if r {
                        let i = win_index(rest, name@);
                        assert(win_index(ws, name@) == i + 1);
                        assert(wins_of(cur.next) =~= ws.remove(i + 1));
                        if i == 0 {
                        } else {
                            assert(rest[i - 1] == ws[i]);
                        }
                    } else {
                        assert(wins_of(cur.next) =~= ws);
                    }
                }
                r
            }
        },
    }
}

fn chain_any_within(node: &Option<Box<windownode>>, scr: &Screen) -> (r: bool)
    ensures
        r == any_within(wins_of(*node), *scr),
    decreases node,
{
    match node {
        None => {
            assert(wins_of(*node) == Seq::<WinView>::empty());
            false
        },
        Some(b) => {
            let ghost ws = wins_of(*node);
            assert(ws.drop_first() =~= wins_of(b.next));
            if b.win.cursor_within(scr) {
                assert(within(ws[0], *scr));
                true
            } else {
                let r = chain_any_within(&b.next, scr);
                proof {
                    if r {
                        let i = choose|i: int| 0 <= i < ws.drop_first().len() && within(#[trigger] ws.drop_first()[i], *scr);
                        assert(within(ws[i + 1], *scr));
                    } else {
                        assert forall|i: int| 0 <= i < ws.len() implies !within(#[trigger] ws[i], *scr) by {
                            if i > 0 {
                                assert(ws[i] == ws.drop_first()[i - 1]);
                            }
                        }
                    }
                }
                r
            }
        },
    }
}

fn chain_draw(node: &Option<Box<windownode>>, scr: &Screen, out: &mut Vec<Effect>)
    ensures
        final(out)@ == old(out)@ + draws(wins_of(*node), *scr),
    decreases node,
{
    match node {
        None => {
            assert(wins_of(*node) == Seq::<WinView>::empty());
            assert(final(out)@ =~= old(out)@ + draws(wins_of(*node), *scr));
        },
        Some(b) => {
            let ghost ws = wins_of(*node);
            assert(ws.drop_first() =~= wins_of(b.next));
            b.win.draw(scr, out);
            chain_draw(&b.next, scr, out);
            assert(final(out)@ =~= old(out)@ + draws(ws, *scr));
        },
    }
}

fn chain_move(node: &mut Option<Box<windownode>>, name: &cstr, x: u32, y: u32)
    ensures
        ({
            let ws = wins_of(*old(node));
            let i = win_index(ws, name@);
            wins_of(*final(node)) == (if i < ws.len() {
                ws.update(i, WinView { x, y, ..ws[i] })
            } else {
                ws
            })
        }),
    decreases *old(node),
{
    match node.take() {
        None => {
            assert(wins_of(*old(node)) == Seq::<WinView>::empty());
        },
        Some(mut b) => {
            let ghost ws = wins_of(*old(node));
            assert(ws.drop_first() =~= wins_of(b.next));
            if b.win.name.eq(name) {
                b.win.mov(x, y);
                *node = Some(b);
                assert(wins_of(*node) =~= ws.update(0, WinView { x, y, ..ws[0] }));
            } else {
                let ghost rest = wins_of(b.next);
                chain_move(&mut b.next, name, x, y);
                *node = Some(b);
                proof {
                    lemma_win_index(rest, name@);
                    let i = win_index(ws, name@);
                    if i < ws.len() {
                        assert(wins_of(*node) =~= ws.update(i, WinView { x, y, ..ws[i] }));
                    } else {
                        assert(wins_of(*node) =~= ws);
                    }
                }
            }
        },
    }
}

impl View for windowlist {
    type V = Seq<WinView>;

    closed spec fn view(&self) -> Seq<WinView> {
        wins_of(self.head)
    }
}

impl windowlist {
    /// A list with no windows.
    pub fn new() -> (r: windowlist)
        ensures
            r@ == Seq::<WinView>::empty(),
    {
        windowlist { head: None }
    }

    /// The node of the first window named `name`, if there is one.
    pub fn get_windownode(&self, name: &cstr) -> (r: Option<&windownode>)
        ensures
            match r {
                None => !has_window(self@, name@),
                Some(n) => has_window(self@, name@) && n.win@ == self@[win_index(self@, name@)]
                    && wins_of(n.next) == self@.skip(win_index(self@, name@) + 1),
            },
    {
        chain_find(&self.head, name)
    }

    /// Puts `w` at the bottom, unless a window of its name is already there.
    pub fn add_win_front(&mut self, w: window) -> (r: bool)
        ensures
            r == !has_window(old(self)@, w.name@),
            final(self)@ == (if r { seq![w@] + old(self)@ } else { old(self)@ }),
    {
        if chain_find(&self.head, &w.name).is_some() {
            return false;
        }
        let ghost old_ws = self@;
        let mut node = windownode::new(w);
        node.next = self.head.take();
        self.head = Some(node);
        assert(self@ =~= seq![w@] + old_ws);
        true
    }

    /// Puts `w` on top, unless a window of its name is already there.
    pub fn add_win_back(&mut self, w: window) -> (r: bool)
        ensures
            r == !has_window(old(self)@, w.name@),
            final(self)@ == (if r { old(self)@.push(w@) } else { old(self)@ }),
    {
        if chain_find(&self.head, &w.name).is_some() {
            return false;
        }
        chain_append(&mut self.head, w);
        true
    }

    /// Takes the first window named `name` off the screen list, and blanks the bottom
    /// window where it was the bottom one, the window below it otherwise.
    pub fn remove_win(&mut self, name: &cstr, scr: &Screen, out: &mut Vec<Effect>) -> (r: bool)
        ensures
            ({
                let ws = old(self)@;
                let i = win_index(ws, name@);
                &&& r == has_window(ws, name@)
                &&& final(self)@ == (if r { ws.remove(i) } else { ws })
                &&& final(out)@ == (if r {
                    old(out)@.push(blank_effect(if i == 0 { ws[0] } else { ws[i - 1] }, scr.bg_color))
                } else {
                    old(out)@
                })
            }),
    {
        let ghost ws = self@;
        match self.head.take() {
            None => {
                assert(ws == Seq::<WinView>::empty());
                false
            },
            Some(mut b) => {
                assert(ws.drop_first() =~= wins_of(b.next));
                if b.win.name.eq(name) {
                    b.win.blank(scr, out);
                    self.head = b.next;
                    assert(self@ =~= ws.remove(0));
                    true
                } else {
                    let ghost rest = wins_of(b.next);
                    let r = chain_remove_after(&mut b, name, scr, out);
                    self.head = Some(b);
                    proof {
                        lemma_win_index(rest, name@);
                        if r {
                            let i = win_index(rest, name@);
                            assert(win_index(ws, name@) == i + 1);
                            assert(self@ =~= ws.remove(i + 1));
                            if i > 0 {
                                assert(rest[i - 1] == ws[i]);
                            }
                        } else {
                            assert(self@ =~= ws);
                        }
                    }
                    r
                }
            },
        }
    }

    /// Moves the first window named `name` to the top.
    pub fn bring_to_top(&mut self, name: &cstr) -> (r: bool)
        ensures
            ({
                let ws = old(self)@;
                let i = win_index(ws, name@);
                &&& r == has_window(ws, name@)
                &&& final(self)@ == (if r { ws.remove(i).push(ws[i]) } else { ws })
            }),
    {
        match chain_take(&mut self.head, name) {
            None => false,
            Some(w) => {
                chain_append(&mut self.head, w);
                true
            },
        }
    }

    /// Whether the text cursor lies over some window.
    pub fn cursor_over_window(&self, scr: &Screen) -> (r: bool)
        ensures
            r == any_within(self@, *scr),
    {
        chain_any_within(&self.head, scr)
    }

    /// Whether no window is on the list.
    pub fn is_empty(&self) -> (r: bool)
        ensures
            r == (self@.len() == 0),
    {
        match &self.head {
            None => true,
            Some(b) => false,
        }
    }

    /// The bottom window.
    pub fn get_bot(&self) -> (r: window)
        requires
            self@.len() > 0,
        ensures
            r@ == self@[0],
    {
        match &self.head {
            Some(b) => b.win.clone(),
            None => {
                assert(false);
                window::new(cstr::new(0), 0, 0, 0, 0, false)
            },
        }
    }

    /// Draws the windows from the bottom one to the top one.
    pub fn draw_all(&self, scr: &Screen, out: &mut Vec<Effect>)
        ensures
            final(out)@ == old(out)@ + draws(self@, *scr),
    {
        chain_draw(&self.head, scr, out);
    }

    /// Moves the first window named `name` to `x`, `y`.
    pub fn mov_win(&mut self, name: &cstr, x: u32, y: u32)
        ensures
            ({
                let ws = old(self)@;
                let i = win_index(ws, name@);
                final(self)@ == (if i < ws.len() { ws.update(i, WinView { x, y, ..ws[i] }) } else { ws })
            }),
    {
        chain_move(&mut self.head, name, x, y);
    }
}

/// Blanks the first window named `wname`, moves it to `x`, `y`, and draws all windows.
pub fn move_window(wl: &mut windowlist, wname: &cstr, x: u32, y: u32, scr: &Screen, out: &mut Vec<Effect>)
    requires
        has_window(old(wl)@, wname@),
    ensures
        ({
            let ws = old(wl)@;
            let i = win_index(ws, wname@);
            &&& final(wl)@ == ws.update(i, WinView { x, y, ..ws[i] })
            &&& final(out)@ == old(out)@.push(blank_effect(ws[i], scr.bg_color)) + draws(final(wl)@, *scr)
        }),
{
    match wl.get_windownode(wname) {
        Some(n) => n.win.blank(scr, out),
        None => {},
    }
    wl.mov_win(wname, x, y);
    wl.draw_all(scr, out);
}

/// Moves the first window named `wname` to the top and draws all windows.
pub fn bring_window_to_top(wl: &mut windowlist, wname: &cstr, scr: &Screen, out: &mut Vec<Effect>)
    ensures
        ({
            let ws = old(wl)@;
            let i = win_index(ws, wname@);
            &&& final(wl)@ == (if has_window(ws, wname@) { ws.remove(i).push(ws[i]) } else { ws })
            &&& final(out)@ == old(out)@ + draws(final(wl)@, *scr)
        }),
{
    wl.bring_to_top(wname);
    wl.draw_all(scr, out);
}

} // verus!
