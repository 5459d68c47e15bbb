//! The tray popup: geometry, hit-testing, scrolling and the state machine that turns
//! mouse and keyboard events into the user's choice. Window creation, painting and
//! the message loop are done by the application with this state.

use vstd::prelude::*;

use crate::ports::{etiqueta_visible, label, PortInfo};
use crate::text::{chars_of, string_of};

verus! {

pub const WIDTH: i32 = 520;
pub const BORDER: i32 = 2;
pub const PAD_X: i32 = 14;
pub const PAD_TOP: i32 = 12;
pub const ROW_H: i32 = 38;
pub const FOOTER_GAP: i32 = 10;
pub const FOOTER_ITEM_H: i32 = 28;
pub const PAD_BOTTOM: i32 = 12;
pub const CORNER_RADIUS: i32 = 14;
pub const SCROLL_W: i32 = 4;
pub const MAX_VISIBLE_ROWS: usize = 9;
/// Most port rows shown.
pub const MAX_TOTAL_ROWS: usize = 60;
pub const WHEEL_STEP: usize = 3;

/// The user's choice in the popup.
#[derive(Debug)]
pub enum Action {
    Nothing,
    Kill(PortInfo),
    Refresh,
    ToggleAutostart,
}

/// Interactive region under the cursor.
#[derive(Debug, Clone, Copy, PartialEq, Eq, Structural)]
pub enum Hit {
    Outside,
    Row(usize),
    Refresh,
    ToggleAutostart,
}

/// A rectangle in pixels.
#[derive(Debug, Clone, Copy, PartialEq, Eq, Structural)]
pub struct Rect {
    pub left: i32,
    pub top: i32,
    pub right: i32,
    pub bottom: i32,
}

/// Geometry of the popup for a number of rows.
#[derive(Debug, Clone, Copy, PartialEq, Eq, Structural)]
pub struct Layout {
    pub width: i32,
    pub height: i32,
    pub rows_visible: usize,
    pub rows_top: i32,
    pub rows_bottom: i32,
    pub footer_top: i32,
    pub max_scroll: usize,
    pub has_scroll: bool,
}

/// The layout for `rows_total` rows: one to nine visible rows, the rest scrolled.
pub open spec fn layout_for(rows_total: usize) -> Layout {
    let visible: usize = if rows_total < 1 {
        1
    } else if rows_total > MAX_VISIBLE_ROWS {
        MAX_VISIBLE_ROWS
    } else {
        rows_total
    };
    let max_scroll: usize = if rows_total > visible {
        (rows_total - visible) as usize
    } else {
        0
    };
    let rows_top = BORDER + PAD_TOP;
    let rows_bottom = rows_top + visible * ROW_H;
    let footer_top = rows_bottom + FOOTER_GAP;
    Layout {
        width: WIDTH,
        height: (footer_top + 2 * FOOTER_ITEM_H + PAD_BOTTOM + BORDER) as i32,
        rows_visible: visible,
        rows_top: rows_top as i32,
        rows_bottom: rows_bottom as i32,
        footer_top: footer_top as i32,
        max_scroll,
        has_scroll: max_scroll > 0,
    }
}

/// Law: the popup grows with its rows until nine are visible and then keeps its size,
/// scrolling through the rest: one to nine rows are visible, and the visible rows plus
/// the scroll range cover every row.
pub proof fn law_layout_grows_then_caps(a: usize, b: usize)
    requires
        a <= b,
    ensures
        layout_for(a).height <= layout_for(b).height,
        1 <= layout_for(b).rows_visible <= MAX_VISIBLE_ROWS,
        layout_for(b).rows_visible + layout_for(b).max_scroll == if b == 0 {
            1
        } else {
            b as int
        },
        b >= MAX_VISIBLE_ROWS ==> layout_for(b).height == layout_for(MAX_VISIBLE_ROWS).height,
{
}

impl Layout {
    /// A layout computed by `Layout::new` for some number of rows.
    pub open spec fn wf(self) -> bool {
        &&& 1 <= self.rows_visible <= MAX_VISIBLE_ROWS
        &&& self == layout_for((self.rows_visible + self.max_scroll) as usize)
    }

    pub fn new(rows_total: usize) -> (r: Layout)
        ensures
            r == layout_for(rows_total),
            r.wf(),
    {
        let rows_visible: usize = if rows_total < 1 {
            1
        } else if rows_total > MAX_VISIBLE_ROWS {
            MAX_VISIBLE_ROWS
        } else {
            rows_total
        };
        let max_scroll = rows_total.saturating_sub(rows_visible);
        let rows_top = BORDER + PAD_TOP;
        let rows_bottom = rows_top + (rows_visible as i32) * ROW_H;
        let footer_top = rows_bottom + FOOTER_GAP;
        let height = footer_top + 2 * FOOTER_ITEM_H + PAD_BOTTOM + BORDER;
        let r = Layout {
            width: WIDTH,
            height,
            rows_visible,
            rows_top,
            rows_bottom,
            footer_top,
            max_scroll,
            has_scroll: max_scroll > 0,
        };
        assert(rows_total == 0 ==> max_scroll == 0);
        r
    }

    /// Right edge of the row content (narrower when the scrollbar is shown).
    pub open spec fn content_right_spec(self) -> i32 {
        if self.has_scroll {
            (self.width - PAD_X - SCROLL_W - 4) as i32
        } else {
            (self.width - PAD_X) as i32
        }
    }

    pub fn content_right(&self) -> (r: i32)
        requires
            self.wf(),
        ensures
            r == self.content_right_spec(),
    {
        if self.has_scroll {
            self.width - PAD_X - SCROLL_W - 4
        } else {
            self.width - PAD_X
        }
    }

    /// Rectangle of the visible row `visible_idx`.
    pub fn row_rect(&self, visible_idx: usize) -> (r: Rect)
        requires
            self.wf(),
            visible_idx < MAX_VISIBLE_ROWS,
        ensures
            r == (Rect {
                left: 0,
                top: (self.rows_top + visible_idx * ROW_H) as i32,
                right: self.width,
                bottom: (self.rows_top + visible_idx * ROW_H + ROW_H) as i32,
            }),
    {
        let top = self.rows_top + (visible_idx as i32) * ROW_H;
        Rect { left: 0, top, right: self.width, bottom: top + ROW_H }
    }
}

/// The region under the client point `(x, y)`; a row index already includes `scroll`.
pub open spec fn hit_at(x: i32, y: i32, layout: Layout, scroll: usize, rows_total: usize) -> Hit {
    if x < BORDER || x >= layout.width - BORDER {
        Hit::Outside
    } else if layout.rows_top <= y < layout.rows_bottom {
        if x >= layout.content_right_spec() {
            Hit::Outside
        } else {
            let idx = scroll + (y - layout.rows_top) / (ROW_H as int);
            if idx < rows_total {
                Hit::Row(idx as usize)
            } else {
                Hit::Outside
            }
        }
    } else if layout.footer_top <= y < layout.footer_top + 2 * FOOTER_ITEM_H {
        if (y - layout.footer_top) / (FOOTER_ITEM_H as int) == 0 {
            Hit::Refresh
        } else {
            Hit::ToggleAutostart
        }
    } else {
        Hit::Outside
    }
}

/// Hit-test in client coordinates; the returned row already includes the scroll.
pub fn hit_test(pt: (i32, i32), layout: &Layout, scroll: usize, rows_total: usize) -> (r: Hit)
    requires
        layout.wf(),
        scroll + MAX_VISIBLE_ROWS <= usize::MAX,
    ensures
        r == hit_at(pt.0, pt.1, *layout, scroll, rows_total),
        r matches Hit::Row(i) ==> i < rows_total,
{
    let (x, y) = pt;
    if x < BORDER || x >= layout.width - BORDER {
        return Hit::Outside;
    }
    if y >= layout.rows_top && y < layout.rows_bottom {
        if x >= layout.content_right() {
            return Hit::Outside;
        }
        let local = ((y - layout.rows_top) / ROW_H) as usize;
        assert(local < MAX_VISIBLE_ROWS) by (nonlinear_arith)
            requires
                local == (y - layout.rows_top) / 38,
                0 <= y - layout.rows_top < layout.rows_visible * 38,
                layout.rows_visible <= 9,
        ;
        let idx = scroll + local;
        return if idx < rows_total {
            Hit::Row(idx)
        } else {
            Hit::Outside
        };
    }
    if y >= layout.footer_top && y < layout.footer_top + 2 * FOOTER_ITEM_H {
        return if (y - layout.footer_top) / FOOTER_ITEM_H == 0 {
            Hit::Refresh
        } else {
            Hit::ToggleAutostart
        };
    }
    Hit::Outside
}

/// Law: a point hits a row exactly when it lies in the rows band, inside the left
/// border and left of the row content's right edge (`width - PAD_X`, less the
/// scrollbar strip `SCROLL_W + 4` when the popup scrolls), and the row under it, the
/// scroll included, exists; the hit row is that one.
pub proof fn law_row_hits(x: i32, y: i32, layout: Layout, scroll: usize, rows_total: usize)
    requires
        layout.wf(),
    ensures
        ({
            let right = layout.width - PAD_X - (if layout.has_scroll {
                SCROLL_W + 4
            } else {
                0
            });
            let inside = BORDER <= x < right && layout.rows_top <= y < layout.rows_bottom;
            let idx = scroll + (y - layout.rows_top) / (ROW_H as int);
            &&& hit_at(x, y, layout, scroll, rows_total) is Row <==> inside && idx < rows_total
            &&& hit_at(x, y, layout, scroll, rows_total) is Row ==> hit_at(
                x,
                y,
                layout,
                scroll,
                rows_total,
            )->0 == idx
        }),
{
}

/// `v` limited to `[lo, hi]` (`i32::clamp`, with `lo <= hi`).
pub open spec fn clamp_spec(v: int, lo: int, hi: int) -> int {
    if v < lo {
        lo
    } else if v > hi {
        hi
    } else {
        v
    }
}

/// Position of a `w`×`h` window at `(x, y)` moved inside the work area: its left/top
/// edge never before the area's, and its right/bottom edge inside the area whenever the
/// window fits.
pub fn clamp_pos(x: i32, y: i32, w: i32, h: i32, work: Rect) -> (r: (i32, i32))
    requires
        i32::MIN <= work.right - w <= i32::MAX,
        i32::MIN <= work.bottom - h <= i32::MAX,
    ensures
        r.0 == clamp_spec(x as int, work.left as int, if work.right - w > work.left {
            work.right - w
        } else {
            work.left as int
        }),
        r.1 == clamp_spec(y as int, work.top as int, if work.bottom - h > work.top {
            work.bottom - h
        } else {
            work.top as int
        }),
{
    let hx = if work.right - w > work.left {
        work.right - w
    } else {
        work.left
    };
    let hy = if work.bottom - h > work.top {
        work.bottom - h
    } else {
        work.top
    };
    let nx = if x < work.left {
        work.left
    } else if x > hx {
        hx
    } else {
        x
    };
    let ny = if y < work.top {
        work.top
    } else if y > hy {
        hy
    } else {
        y
    };
    (nx, ny)
}

/// Wheel notches in a wheel delta (`WHEEL_DELTA` is 120 per notch); a delta of less
/// than one notch (a high-resolution wheel) counts as one.
pub open spec fn notches(wheel_delta: i32) -> int {
    let mag: int = if wheel_delta < 0 {
        -wheel_delta
    } else {
        wheel_delta as int
    };
    if mag < 120 {
        1
    } else {
        mag / 120
    }
}

/// Scroll after a wheel event: three rows per notch up (not below 0) or down (not past
/// `max`).
pub open spec fn scrolled(current: usize, wheel_delta: i32, max: usize) -> usize {
    let step = WHEEL_STEP * notches(wheel_delta);
    if wheel_delta > 0 {
        if current >= step {
            (current - step) as usize
        } else {
            0
        }
    } else {
        if current + step < max {
            (current + step) as usize
        } else {
            max
        }
    }
}

pub fn scroll_step(current: usize, wheel_delta: i32, max: usize) -> (r: usize)
    ensures
        r == scrolled(current, wheel_delta, max),
        wheel_delta <= 0 ==> r <= max,
        wheel_delta > 0 ==> r <= current,
{
    let mag: u64 = if wheel_delta < 0 {
        (-(wheel_delta as i64)) as u64
    } else {
        wheel_delta as u64
    };
    let n: u64 = if mag < 120 {
        1
    } else {
        mag / 120
    };
    assert(n <= 17895698) by (nonlinear_arith)
        requires
            mag <= 2147483648,
            n == if mag < 120 {
                1
            } else {
                mag / 120
            },
    ;
    let step: usize = (WHEEL_STEP as u64 * n) as usize;
    if wheel_delta > 0 {
        current.saturating_sub(step)
    } else {
        let up = current.saturating_add(step);
        if up < max {
            up
        } else {
            max
        }
    }
}

/// Law: a wheel notch never leaves the scroll range: from a position within
/// `[0, max]`, scrolling either way lands within it again.
pub proof fn law_scroll_stays_in_bounds(current: usize, wheel_delta: i32, max: usize)
    requires
        current <= max,
    ensures
        scrolled(current, wheel_delta, max) <= max,
{
}

/// The first `MAX_TOTAL_ROWS` rows.
pub fn truncate_ports(ports: Vec<PortInfo>) -> (r: Vec<PortInfo>)
    ensures
        r@ == if ports@.len() <= MAX_TOTAL_ROWS {
            ports@
        } else {
            ports@.take(MAX_TOTAL_ROWS as int)
        },
{
    let mut ports = ports;
    ports.truncate(MAX_TOTAL_ROWS);
    ports
}

/// A popup closed at `last_ms` (0: never) less than `within_ms` before `now_ms`.
pub open spec fn recent(now_ms: u64, last_ms: u64, within_ms: u64) -> bool {
    last_ms != 0 && (if now_ms >= last_ms {
        now_ms - last_ms
    } else {
        0
    }) < within_ms
}

pub fn was_recent(now_ms: u64, last_ms: u64, within_ms: u64) -> (r: bool)
    ensures
        r == recent(now_ms, last_ms, within_ms),
{
    last_ms != 0 && now_ms.saturating_sub(last_ms) < within_ms
}

} // verus!

verus! {

pub const VK_RETURN: u16 = 0x0D;
pub const VK_ESCAPE: u16 = 0x1B;

/// The popup while it is open: its rows, hover, scroll and the choice once made.
pub struct PopupState {
    ports: Vec<PortInfo>,
    autostart_on: bool,
    action: Option<Action>,
    hover: Option<Hit>,
    scroll: usize,
    tracking: bool,
}

/// A copy of a row (every field equal).
fn copy_row(r: &PortInfo) -> (c: PortInfo)
    ensures
        c.port == r.port,
        c.pid == r.pid,
        c.address == r.address,
        c.process_name == r.process_name,
        c.process_path == r.process_path,
        c.process_cmd == r.process_cmd,
        c.proyecto == r.proyecto,
{
    PortInfo {
        port: r.port,
        pid: r.pid,
        address: r.address.clone(),
        process_name: r.process_name.clone(),
        process_path: copy_opt(&r.process_path),
        process_cmd: copy_opt(&r.process_cmd),
        proyecto: copy_opt(&r.proyecto),
    }
}

fn copy_opt(o: &Option<String>) -> (r: Option<String>)
    ensures
        r == *o,
{
    match o {
        Some(s) => Some(s.clone()),
        None => None,
    }
}

/// The action chosen by clicking (or pressing Enter on) `hit`: killing the row's
/// process, refreshing, toggling autostart, or nothing.
pub open spec fn action_matches(ports: Seq<PortInfo>, hit: Hit, a: Action) -> bool {
    match hit {
        Hit::Outside => a is Nothing,
        Hit::Row(i) => if i < ports.len() {
            a matches Action::Kill(r) && r == ports[i as int]
        } else {
            a is Nothing
        },
        Hit::Refresh => a is Refresh,
        Hit::ToggleAutostart => a is ToggleAutostart,
    }
}

/// A choice to kill names one of the popup's rows.
pub open spec fn offered(ports: Seq<PortInfo>, a: Action) -> bool {
    a matches Action::Kill(r) ==> ports.contains(r)
}

/// The recorded choice is the action of `hit`.
pub open spec fn chose(c: Option<Action>, ports: Seq<PortInfo>, hit: Hit) -> bool {
    match c {
        Some(a) => action_matches(ports, hit, a),
        None => false,
    }
}

impl PopupState {
    #[verifier::type_invariant]
    spec fn inv(self) -> bool {
        &&& self.ports@.len() <= MAX_TOTAL_ROWS
        &&& self.scroll <= layout_for(self.ports@.len() as usize).max_scroll
        &&& match self.action {
            Some(a) => offered(self.ports@, a),
            None => true,
        }
    }

    pub closed spec fn rows(self) -> Seq<PortInfo> {
        self.ports@
    }

    pub closed spec fn scroll_spec(self) -> usize {
        self.scroll
    }

    pub closed spec fn hover_spec(self) -> Option<Hit> {
        self.hover
    }

    pub closed spec fn is_done(self) -> bool {
        self.action is Some
    }

    pub closed spec fn is_tracking(self) -> bool {
        self.tracking
    }

    pub closed spec fn chosen(self) -> Option<Action> {
        self.action
    }

    pub closed spec fn autostart(self) -> bool {
        self.autostart_on
    }

    /// A fresh popup for at most `MAX_TOTAL_ROWS` of `ports`.
    pub fn new(ports: Vec<PortInfo>, autostart_on: bool) -> (r: PopupState)
        ensures
            r.rows() == (if ports@.len() <= MAX_TOTAL_ROWS {
                ports@
            } else {
                ports@.take(MAX_TOTAL_ROWS as int)
            }),
            r.autostart() == autostart_on,
            r.scroll_spec() == 0,
            r.hover_spec().is_none(),
            !r.is_done(),
            !r.is_tracking(),
    {
        PopupState {
            ports: truncate_ports(ports),
            autostart_on,
            action: None,
            hover: None,
            scroll: 0,
            tracking: false,
        }
    }

    pub fn ports(&self) -> (r: &Vec<PortInfo>)
        ensures
            r@ == self.rows(),
    {
        &self.ports
    }

    pub fn autostart_on(&self) -> (r: bool)
        ensures
            r == self.autostart(),
    {
        self.autostart_on
    }

    pub fn hover(&self) -> (r: Option<Hit>)
        ensures
            r == self.hover_spec(),
    {
        self.hover
    }

    pub fn scroll(&self) -> (r: usize)
        ensures
            r == self.scroll_spec(),
            r <= layout_for(self.rows().len() as usize).max_scroll,
    {
        proof {
            use_type_invariant(self);
        }
        self.scroll
    }

    /// Geometry for the current rows.
    pub fn layout(&self) -> (r: Layout)
        ensures
            r == layout_for(self.rows().len() as usize),
    {
        Layout::new(self.ports.len())
    }

    /// The region under the client point `(x, y)`.
    pub fn current_hit(&self, x: i32, y: i32) -> (r: Hit)
        ensures
            r == hit_at(
                x,
                y,
                layout_for(self.rows().len() as usize),
                self.scroll_spec(),
                self.rows().len() as usize,
            ),
    {
        proof {
            use_type_invariant(self);
        }
        let layout = Layout::new(self.ports.len());
        hit_test((x, y), &layout, self.scroll, self.ports.len())
    }

    /// One wheel notch: scrolls by three rows within bounds; a change clears the hover.
    /// Returns whether the popup must be repainted.
    pub fn on_wheel(&mut self, wheel_delta: i32) -> (changed: bool)
        ensures
            final(self).rows() == old(self).rows(),
            final(self).scroll_spec() == scrolled(
                old(self).scroll_spec(),
                wheel_delta,
                layout_for(old(self).rows().len() as usize).max_scroll,
            ),
            changed == (final(self).scroll_spec() != old(self).scroll_spec()),
            final(self).hover_spec() == if changed {
                None
            } else {
                old(self).hover_spec()
            },
            final(self).is_done() == old(self).is_done(),
            final(self).chosen() == old(self).chosen(),
            final(self).is_tracking() == old(self).is_tracking(),
            final(self).autostart() == old(self).autostart(),
    {
        proof {
            use_type_invariant(&*self);
        }
        let layout = Layout::new(self.ports.len());
        let next = scroll_step(self.scroll, wheel_delta, layout.max_scroll);
        if next != self.scroll {
            proof {
                if wheel_delta > 0 {
                    assert(next <= self.scroll);
                }
            }
            self.scroll = next;
            self.hover = None;
            true
        } else {
            false
        }
    }

    /// Starts tracking the mouse leaving the window; returns whether the request must be
    /// made (not already tracking).
    pub fn arm_track_leave(&mut self) -> (arm: bool)
        ensures
            arm == !old(self).is_tracking(),
            final(self).is_tracking(),
            final(self).rows() == old(self).rows(),
            final(self).scroll_spec() == old(self).scroll_spec(),
            final(self).hover_spec() == old(self).hover_spec(),
            final(self).is_done() == old(self).is_done(),
            final(self).chosen() == old(self).chosen(),
            final(self).autostart() == old(self).autostart(),
    {
        proof {
            use_type_invariant(&*self);
        }
        if self.tracking {
            false
        } else {
            self.tracking = true;
            true
        }
    }

    /// The mouse left the window.
    pub fn untrack(&mut self)
        ensures
            !final(self).is_tracking(),
            final(self).rows() == old(self).rows(),
            final(self).scroll_spec() == old(self).scroll_spec(),
            final(self).hover_spec() == old(self).hover_spec(),
            final(self).is_done() == old(self).is_done(),
            final(self).chosen() == old(self).chosen(),
            final(self).autostart() == old(self).autostart(),
    {
        proof {
            use_type_invariant(&*self);
        }
        self.tracking = false;
    }

    /// Sets the hovered region; returns whether it changed (repaint and tooltip update).
    pub fn set_hover(&mut self, hit: Option<Hit>) -> (changed: bool)
        ensures
            changed == (old(self).hover_spec() != hit),
            final(self).hover_spec() == hit,
            final(self).rows() == old(self).rows(),
            final(self).scroll_spec() == old(self).scroll_spec(),
            final(self).is_done() == old(self).is_done(),
            final(self).chosen() == old(self).chosen(),
            final(self).is_tracking() == old(self).is_tracking(),
            final(self).autostart() == old(self).autostart(),
    {
        proof {
            use_type_invariant(&*self);
        }
        let same = match (self.hover, hit) {
            (None, None) => true,
            (Some(a), Some(b)) => a == b,
            _ => false,
        };
        if same {
            false
        } else {
            self.hover = hit;
            true
        }
    }

    /// Label of the hovered row, shown in the tooltip.
    pub fn hover_label(&self) -> (r: Option<String>)
        ensures
            match self.hover_spec() {
                Some(Hit::Row(i)) => if i < self.rows().len() {
                    r matches Some(s) && s@ == label(self.rows()[i as int])
                } else {
                    r is None
                },
                _ => r is None,
            },
    {
        match self.hover {
            Some(Hit::Row(i)) => {
                if i < self.ports.len() {
                    Some(etiqueta_visible(&self.ports[i]))
                } else {
                    None
                }
            },
            _ => None,
        }
    }

    /// The action chosen by `hit`.
    pub fn action_for(&self, hit: Hit) -> (a: Action)
        ensures
            action_matches(self.rows(), hit, a),
            offered(self.rows(), a),
    {
        match hit {
            Hit::Outside => Action::Nothing,
            Hit::Row(idx) => {
                if idx < self.ports.len() {
                    let c = copy_row(&self.ports[idx]);
                    assert(c == self.ports@[idx as int]);
                    assert(self.rows().contains(c));
                    Action::Kill(c)
                } else {
                    Action::Nothing
                }
            },
            Hit::Refresh => Action::Refresh,
            Hit::ToggleAutostart => Action::ToggleAutostart,
        }
    }

    /// Records the choice once: the first choice wins and later ones are ignored.
    /// Returns whether the popup's loop must be woken up to close it.
    pub fn finish(&mut self, action: Action) -> (wake: bool)
        requires
            offered(old(self).rows(), action),
        ensures
            wake == !old(self).is_done(),
            final(self).is_done(),
            final(self).chosen() == if old(self).is_done() {
                old(self).chosen()
            } else {
                Some(action)
            },
            final(self).rows() == old(self).rows(),
            final(self).scroll_spec() == old(self).scroll_spec(),
            final(self).hover_spec() == old(self).hover_spec(),
            final(self).is_tracking() == old(self).is_tracking(),
            final(self).autostart() == old(self).autostart(),
    {
        proof {
            use_type_invariant(&*self);
        }
        if self.action.is_some() {
            return false;
        }
        self.action = Some(action);
        true
    }

    /// A click at `(x, y)` chooses the action of the region under it.
    pub fn on_click(&mut self, x: i32, y: i32) -> (wake: bool)
        ensures
            wake == !old(self).is_done(),
            final(self).is_done(),
            !old(self).is_done() ==> chose(
                final(self).chosen(),
                old(self).rows(),
                hit_at(
                    x,
                    y,
                    layout_for(old(self).rows().len() as usize),
                    old(self).scroll_spec(),
                    old(self).rows().len() as usize,
                ),
            ),
            old(self).is_done() ==> final(self).chosen() == old(self).chosen(),
            final(self).rows() == old(self).rows(),
    {
        let hit = self.current_hit(x, y);
        let action = self.action_for(hit);
        self.finish(action)
    }

    /// Escape closes without a choice; Enter chooses the hovered region; other keys do
    /// nothing. Returns whether the popup's loop must be woken up.
    pub fn on_key(&mut self, vk: u16) -> (wake: bool)
        ensures
            vk != VK_ESCAPE && vk != VK_RETURN ==> !wake && final(self).is_done() == old(
                self,
            ).is_done() && final(self).chosen() == old(self).chosen(),
            vk == VK_ESCAPE ==> wake == !old(self).is_done() && (!old(self).is_done() ==> chose(
                final(self).chosen(),
                old(self).rows(),
                Hit::Outside,
            )),
            vk == VK_RETURN ==> wake == !old(self).is_done() && (!old(self).is_done() ==> chose(
                final(self).chosen(),
                old(self).rows(),
                match old(self).hover_spec() {
                    Some(h) => h,
                    None => Hit::Outside,
                },
            )),
            (vk == VK_ESCAPE || vk == VK_RETURN) && old(self).is_done() ==> final(self).chosen()
                == old(self).chosen(),
            final(self).rows() == old(self).rows(),
    {
        if vk == VK_ESCAPE {
            self.finish(Action::Nothing)
        } else if vk == VK_RETURN {
            let hit = match self.hover {
                Some(h) => h,
                None => Hit::Outside,
            };
            let action = self.action_for(hit);
            self.finish(action)
        } else {
            false
        }
    }

    /// The choice made, `Nothing` when the popup closed without one.
    pub fn into_action(self) -> (a: Action)
        ensures
            match self.chosen() {
                Some(c) => a == c,
                None => a is Nothing,
            },
            offered(self.rows(), a),
    {
        proof {
            use_type_invariant(&self);
        }
        match self.action {
            Some(a) => a,
            None => Action::Nothing,
        }
    }
}

} // verus!

verus! {

/// What a click on the tray icon does.
#[derive(Debug, Clone, Copy, PartialEq, Eq, Structural)]
pub enum TrayClick {
    /// A popup is open: close it without a choice.
    CancelActive,
    /// The popup was closed by this very gesture a moment ago: consume the click.
    Swallow,
    /// Scan and open the popup.
    Show,
}

/// Time window (ms) in which a tray click after a close belongs to the closing gesture.
pub const REOPEN_GUARD_MS: u64 = 250;

/// The one popup of the tray (at most one at a time) and the time of the last close.
pub struct PopupHost {
    pub state: Option<PopupState>,
    /// Milliseconds since the epoch of the last close; 0 when none happened yet.
    pub last_closed_ms: u64,
}

/// What a tray click at `now_ms` does to `host`.
pub open spec fn click_outcome(host: PopupHost, now_ms: u64) -> TrayClick {
    if host.state.is_some() {
        TrayClick::CancelActive
    } else if recent(now_ms, host.last_closed_ms, REOPEN_GUARD_MS) {
        TrayClick::Swallow
    } else {
        TrayClick::Show
    }
}

/// Law: a click on the tray icon toggles the popup. While it is open the click closes
/// it; once closed, a click within the guard time of the close belongs to the gesture
/// that closed it and is consumed, and any later click (or any click before the first
/// close) opens it.
pub proof fn law_tray_click_toggles(host: PopupHost, now_ms: u64)
    ensures
        host.state.is_some() ==> click_outcome(host, now_ms) == TrayClick::CancelActive,
        host.state.is_none() && host.last_closed_ms == 0 ==> click_outcome(host, now_ms)
            == TrayClick::Show,
        host.state.is_none() && host.last_closed_ms != 0 && host.last_closed_ms <= now_ms
            < host.last_closed_ms + REOPEN_GUARD_MS ==> click_outcome(host, now_ms)
            == TrayClick::Swallow,
        host.state.is_none() && now_ms >= host.last_closed_ms + REOPEN_GUARD_MS ==> click_outcome(
            host,
            now_ms,
        ) == TrayClick::Show,
{
}

impl PopupHost {
    pub fn new() -> (r: PopupHost)
        ensures
            r.state.is_none(),
            r.last_closed_ms == 0,
    {
        PopupHost { state: None, last_closed_ms: 0 }
    }

    /// Records a close at `now_ms`.
    pub fn record_close(&mut self, now_ms: u64)
        ensures
            final(self).last_closed_ms == now_ms,
            final(self).state == old(self).state,
    {
        self.last_closed_ms = now_ms;
    }

    /// Toggles the popup on a tray click: an open popup is cancelled, a click right
    /// after a close is consumed, otherwise the popup is shown.
    pub fn tray_click(&self, now_ms: u64) -> (r: TrayClick)
        ensures
            r == click_outcome(*self, now_ms),
    {
        if is_open(self) {
            TrayClick::CancelActive
        } else if closed_recently(self, now_ms, REOPEN_GUARD_MS) {
            TrayClick::Swallow
        } else {
            TrayClick::Show
        }
    }

    /// Opens a popup for `ports`; refused (`false`) while one is already open.
    pub fn begin(&mut self, ports: Vec<PortInfo>, autostart_on: bool) -> (opened: bool)
        ensures
            opened == old(self).state.is_none(),
            !opened ==> final(self).state == old(self).state,
            opened ==> (final(self).state matches Some(s) && s.rows() == (if ports@.len()
                <= MAX_TOTAL_ROWS {
                ports@
            } else {
                ports@.take(MAX_TOTAL_ROWS as int)
            }) && s.autostart() == autostart_on && s.scroll_spec() == 0 && !s.is_done()),
            final(self).last_closed_ms == old(self).last_closed_ms,
    {
        if self.state.is_some() {
            return false;
        }
        self.state = Some(PopupState::new(ports, autostart_on));
        true
    }

    /// Records the choice on the open popup; the first choice wins. Returns whether the
    /// popup's loop must be woken up (always, unless a choice was already made).
    pub fn finish(&mut self, action: Action) -> (wake: bool)
        requires
            old(self).state matches Some(s) ==> offered(s.rows(), action),
        ensures
            match old(self).state {
                Some(s) => wake == !s.is_done() && (final(self).state matches Some(t) && t.is_done()
                    && t.chosen() == if s.is_done() {
                    s.chosen()
                } else {
                    Some(action)
                }),
                None => wake && final(self).state.is_none(),
            },
            final(self).last_closed_ms == old(self).last_closed_ms,
    {
        match self.state.as_mut() {
            Some(s) => s.finish(action),
            None => true,
        }
    }

    /// Closes the popup at `now_ms` and returns the choice made (`Nothing` if none).
    pub fn end(&mut self, now_ms: u64) -> (a: Action)
        ensures
            old(self).state matches Some(s) ==> offered(s.rows(), a),
            final(self).state.is_none(),
            final(self).last_closed_ms == now_ms,
            match old(self).state {
                Some(s) => match s.chosen() {
                    Some(c) => a == c,
                    None => a is Nothing,
                },
                None => a is Nothing,
            },
    {
        self.record_close(now_ms);
        let mut taken: Option<PopupState> = None;
        std::mem::swap(&mut taken, &mut self.state);
        match taken {
            Some(s) => s.into_action(),
            None => Action::Nothing,
        }
    }
}

/// A popup is open right now.
pub fn is_open(host: &PopupHost) -> (r: bool)
    ensures
        r == host.state.is_some(),
{
    host.state.is_some()
}

/// A popup closed less than `within_ms` ago: the tray click being handled is most
/// likely the gesture that closed it.
pub fn closed_recently(host: &PopupHost, now_ms: u64, within_ms: u64) -> (r: bool)
    ensures
        r == recent(now_ms, host.last_closed_ms, within_ms),
{
    was_recent(now_ms, host.last_closed_ms, within_ms)
}

/// Closes the open popup without a choice (a second click on the tray icon); nothing
/// happens when no popup is open. Returns whether the popup's loop must be woken up.
pub fn cancel_active(host: &mut PopupHost) -> (wake: bool)
    ensures
        match old(host).state {
            Some(s) => wake == !s.is_done() && (final(host).state matches Some(t) && t.is_done()
                && t.chosen() == if s.is_done() {
                s.chosen()
            } else {
                Some(Action::Nothing)
            }),
            None => !wake && final(host).state.is_none(),
        },
        final(host).last_closed_ms == old(host).last_closed_ms,
{
    if !is_open(host) {
        return false;
    }
    host.finish(Action::Nothing)
}

/// Client coordinates packed in a mouse message's `lParam` (low and high words, read as
/// unsigned 16-bit values).
pub fn lparam_xy(l: isize) -> (r: (i32, i32))
    ensures
        r.0 == (l as u32) % 65536,
        r.1 == ((l as u32) / 65536) % 65536,
{
    let v: u32 = l as u32;
    ((v % 65536) as i32, ((v / 65536) % 65536) as i32)
}

/// Signed wheel distance packed in the high word of a wheel message's `wParam`.
pub fn wheel_delta(w: usize) -> (r: i32)
    ensures
        r == if ((w / 65536) % 65536) >= 32768 {
            ((w / 65536) % 65536) - 65536
        } else {
            ((w / 65536) % 65536) as int
        },
{
    let hi: usize = (w / 65536) % 65536;
    if hi >= 32768 {
        (hi as i32) - 65536
    } else {
        hi as i32
    }
}

/// Virtual-key code of a key message's `wParam` (its low 16 bits).
pub fn key_code(w: usize) -> (r: u16)
    ensures
        r == w % 65536,
{
    (w % 65536) as u16
}

} // verus!

verus! {

/// `…` followed by the text of `s` from character `k` on.
pub open spec fn tail_candidate(s: Seq<char>, k: int) -> Seq<char> {
    seq!['…'] + s.skip(k)
}

/// `fits` answered `b` when asked about a text equal to `x`.
pub open spec fn answered<F: Fn(&str) -> bool>(fits: F, x: Seq<char>, b: bool) -> bool {
    exists|t: &str| t@ == x && #[trigger] call_ensures(fits, (t,), b)
}

/// The text drawn in a limited width: `s` itself when `fits` accepts it, otherwise `s`
/// cut at the beginning behind `…`, keeping the end of the path. The cut is found by
/// binary search over character positions: the result's cut position `k` is one
/// `fits` accepted (or the end of the text, giving `…` alone) right after one it
/// rejected (or the very start), so with a width test that accepts every shorter tail
/// of an accepted one, it is the longest tail that fits.
pub fn sufijo_con_elipsis<F: Fn(&str) -> bool>(s: &str, fits: F) -> (r: String)
    requires
        forall|t: &str| #[trigger] fits.requires((t,)),
    ensures
        (answered(fits, s@, true) && r@ == s@) || (answered(fits, s@, false) && exists|k: int|
            #![trigger tail_candidate(s@, k)]
            0 <= k <= s@.len() && r@ == tail_candidate(s@, k) && (k == s@.len() || answered(
                fits,
                tail_candidate(s@, k),
                true,
            )) && (k == 0 || answered(fits, tail_candidate(s@, k - 1), false))),
{
    let whole = fits(s);
    if whole {
        assert(answered(fits, s@, true));
        return string_of(&chars_of(s));
    }
    assert(answered(fits, s@, false));
    let cs = chars_of(s);
    let n = cs.len();
    let mut lo: usize = 0;
    let mut hi: usize = n;
    while lo < hi
        invariant
            n == cs@.len(),
            cs@ == s@,
            lo <= hi <= n,
            forall|t: &str| #[trigger] fits.requires((t,)),
            answered(fits, s@, false),
            lo == 0 || answered(fits, tail_candidate(s@, lo - 1), false),
            hi == n || answered(fits, tail_candidate(s@, hi as int), true),
        decreases hi - lo,
    {
        let mid = lo + (hi - lo) / 2;
        let mut cand: Vec<char> = vec!['…'];
        let mut j: usize = mid;
        while j < n
            invariant
                mid <= j <= n,
                n == cs@.len(),
                cand@ == seq!['…'] + cs@.subrange(mid as int, j as int),
            decreases n - j,
        {
            cand.push(cs[j]);
            j += 1;
            assert(cand@ =~= seq!['…'] + cs@.subrange(mid as int, j as int));
        }
        assert(cs@.subrange(mid as int, n as int) =~= cs@.skip(mid as int));
        let text = string_of(&cand);
        let ok = fits(text.as_str());
        assert(answered(fits, tail_candidate(s@, mid as int), ok));
        if ok {
            hi = mid;
        } else {
            lo = mid + 1;
        }
    }
    let mut out: Vec<char> = vec!['…'];
    let mut j: usize = lo;
    while j < n
        invariant
            lo <= j <= n,
            n == cs@.len(),
            out@ == seq!['…'] + cs@.subrange(lo as int, j as int),
        decreases n - j,
    {
        out.push(cs[j]);
        j += 1;
        assert(out@ =~= seq!['…'] + cs@.subrange(lo as int, j as int));
    }
    assert(cs@.subrange(lo as int, n as int) =~= cs@.skip(lo as int));
    assert(out@ == tail_candidate(s@, lo as int));
    let r = string_of(&out);
    assert(0 <= lo <= s@.len() && r@ == tail_candidate(s@, lo as int) && (lo == s@.len()
        || answered(fits, tail_candidate(s@, lo as int), true)) && (lo == 0 || answered(
        fits,
        tail_candidate(s@, lo - 1),
        false,
    )));
    r
}

} // verus!
