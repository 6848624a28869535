//! Drag-to-zoom: a per-tick state machine over the pointer that tracks a
//! selection rectangle held to the canvas's aspect ratio.

use vstd::prelude::*;

use crate::display::Rect;

verus! {

/// The pointer as sampled once per tick.
#[derive(Clone, Copy, Debug, PartialEq, Eq, Structural)]
pub struct MouseState {
    /// The left button is down.
    pub left: bool,
    pub x: i32,
    pub y: i32,
}

/// What a tick reports.
#[derive(Clone, Copy, Debug, PartialEq, Eq, Structural)]
pub enum CanvasSelection {
    /// No drag.
    Idle,
    /// A drag is in progress over this rectangle.
    OnGoing(Rect),
    /// The button was released this tick; the rectangle is final.
    Selected(Rect),
}

/// The selection machine. Its rectangles keep the canvas's aspect ratio:
/// the horizontal drag decides, the height follows from the width.
#[derive(Clone, Copy, Debug, PartialEq, Eq, Structural)]
pub struct MouseSelection {
    pub canvas_width: u32,
    pub canvas_height: u32,
    pub start_x: i32,
    pub start_y: i32,
    pub in_selection: bool,
    pub selection: Rect,
}

/// The rectangle of a drag from `(sx, sy)` to `(mx, my)` on a canvas of
/// `cw` by `ch`: as wide as the horizontal drag, `width * ch / cw` high
/// (rounded down, at most `i32::MAX`), extending downward when the pointer
/// is below the start and upward otherwise; its origin is the corner with
/// the lower coordinates.
pub open spec fn drag_rect(cw: u32, ch: u32, sx: i32, sy: i32, mx: i32, my: i32) -> Rect {
    let dx = mx - sx;
    let dx_abs = if dx >= 0 { dx } else { -dx };
    let scaled = dx_abs * ch / (cw as int);
    let dy_abs = if scaled > i32::MAX { i32::MAX as int } else { scaled };
    Rect {
        x: (if dx >= 0 { sx } else { mx }) as i64,
        y: (if my - sy > 0 { sy as int } else { sy - dy_abs }) as i64,
        width: dx_abs as u32,
        height: dy_abs as u32,
    }
}

/// One tick: the next state and what the tick reports.
pub open spec fn next_selection(s: MouseSelection, m: MouseState) -> (MouseSelection, CanvasSelection) {
    if !m.left {
        if s.in_selection {
            (MouseSelection { in_selection: false, ..s }, CanvasSelection::Selected(s.selection))
        } else {
            (s, CanvasSelection::Idle)
        }
    } else {
        let sx = if s.in_selection { s.start_x } else { m.x };
        let sy = if s.in_selection { s.start_y } else { m.y };
        let rect = drag_rect(s.canvas_width, s.canvas_height, sx, sy, m.x, m.y);
        (
            MouseSelection { start_x: sx, start_y: sy, in_selection: true, selection: rect, ..s },
            CanvasSelection::OnGoing(rect),
        )
    }
}

impl MouseSelection {
    pub open spec fn wf(self) -> bool {
        self.canvas_width > 0
    }

    /// A machine with no drag, for a canvas of the given pixel size.
    pub fn new(canvas_width: u32, canvas_height: u32) -> (r: MouseSelection)
        requires
            canvas_width > 0,
        ensures
            r.wf(),
            r.canvas_width == canvas_width,
            r.canvas_height == canvas_height,
            !r.in_selection,
    {
        MouseSelection {
            canvas_width,
            canvas_height,
            start_x: 0,
            start_y: 0,
            in_selection: false,
            selection: Rect { x: 0, y: 0, width: 0, height: 0 },
        }
    }

    /// Feeds one pointer sample to the machine.
    pub fn update_selection(&mut self, mouse_state: MouseState) -> (r: CanvasSelection)
        requires
            old(self).wf(),
        ensures
            (*final(self), r) == next_selection(*old(self), mouse_state),
            final(self).wf(),
    {
        if !mouse_state.left {
            if self.in_selection {
                self.in_selection = false;
                return CanvasSelection::Selected(self.selection);
            }
            return CanvasSelection::Idle;
        }
        let mouse_state_x = mouse_state.x;
        let mouse_state_y = mouse_state.y;
        if !self.in_selection {
            self.in_selection = true;
            self.start_x = mouse_state_x;
            self.start_y = mouse_state_y;
        }
        let delta_x: i64 = mouse_state_x as i64 - self.start_x as i64;
        let delta_x_abs: u64 = if delta_x >= 0 { delta_x as u64 } else { (-delta_x) as u64 };
        proof {
            assert(delta_x_abs * self.canvas_height <= 0xffff_ffff * 0xffff_ffff) by (nonlinear_arith)
                requires
                    delta_x_abs <= 0xffff_ffff,
                    self.canvas_height <= 0xffff_ffff,
            ;
        }
        let scaled: u64 = delta_x_abs * (self.canvas_height as u64) / (self.canvas_width as u64);
        let delta_y_abs: i64 = if scaled > i32::MAX as u64 { i32::MAX as i64 } else { scaled as i64 };
        let origin_x: i64 = if delta_x >= 0 { self.start_x as i64 } else { mouse_state_x as i64 };
        let origin_y: i64 = if mouse_state_y as i64 - self.start_y as i64 > 0 {
            self.start_y as i64
        } else {
            self.start_y as i64 - delta_y_abs
        };
        self.selection = Rect {
            x: origin_x,
            y: origin_y,
            width: delta_x_abs as u32,
            height: delta_y_abs as u32,
        };
        CanvasSelection::OnGoing(self.selection)
    }
}

/// A drag (button down, two moves, button up) from a machine at rest
/// reports exactly `OnGoing`, `OnGoing`, `OnGoing`, then `Selected` with the
/// last rectangle shown, and the machine is back at rest on the next tick.
pub proof fn lemma_drag_selects_once(
    s0: MouseSelection,
    down: MouseState,
    move1: MouseState,
    move2: MouseState,
    up: MouseState,
    after: MouseState,
)
    requires
        !s0.in_selection,
        down.left,
        move1.left,
        move2.left,
        !up.left,
        !after.left,
    ensures
        ({
            let (s1, o1) = next_selection(s0, down);
            let (s2, o2) = next_selection(s1, move1);
            let (s3, o3) = next_selection(s2, move2);
            let (s4, o4) = next_selection(s3, up);
            let (s5, o5) = next_selection(s4, after);
            &&& o1 is OnGoing
            &&& o2 is OnGoing
            &&& o3 is OnGoing
            &&& o3 matches CanvasSelection::OnGoing(rect) && o4 == CanvasSelection::Selected(rect)
            &&& o5 == CanvasSelection::Idle
            &&& !s5.in_selection
            &&& s2.start_x == down.x && s2.start_y == down.y
            &&& s3.start_x == down.x && s3.start_y == down.y
        }),
{
}

} // verus!
