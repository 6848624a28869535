//! The progressive scanner: fills a pixel buffer in row-major order, a
//! bounded slice of wall time per call, one whole pixel at a time.

use std::time::{Duration, Instant};

use vstd::prelude::*;

use crate::display::{PixelCompute, Point};
use crate::palette::Color;

verus! {

#[verifier::external_type_specification]
#[verifier::external_body]
pub struct ExInstant(std::time::Instant);

/// Relies on `std::time::Instant::now`: a reading of the monotonic clock.
/// Nothing is known of the value.
#[verifier::external_body]
fn clock_now() -> Instant {
    Instant::now()
}

/// Relies on `std::time::Instant::elapsed`: the time since `start`.
/// Nothing is known of the value.
#[verifier::external_body]
fn time_since(start: &Instant) -> Duration {
    start.elapsed()
}

/// Relies on `std::time::Duration::as_nanos`: the duration in nanoseconds.
#[verifier::external_body]
fn duration_nanos(d: &Duration) -> u128 {
    d.as_nanos()
}

/// The fill of pixels not yet computed.
pub open spec fn background() -> Color {
    Color { r: 77, g: 77, b: 170, a: 255 }
}

/// The fill of pixels not yet computed.
pub fn background_color() -> (r: Color)
    ensures
        r == background(),
{
    Color { r: 77, g: 77, b: 170, a: 255 }
}

/// How one `update` moves a scan cursor over `total` pixels: an unfinished
/// scan advances by at least one pixel and never past the end; a finished
/// one stays where it is.
pub open spec fn scan_step(before: nat, after: nat, total: nat) -> bool {
    &&& before < total ==> before < after <= total
    &&& before >= total ==> after == before
}

/// A pixel buffer computed progressively by an evaluator through a palette.
pub struct PixelRenderer<'a, T: PixelCompute> {
    width_max: u32,
    height_max: u32,
    width_pos: u32,
    height_pos: u32,
    pixels: Vec<Color>,
    pixel_provider: T,
    palette: &'a [Color],
    /// The linear indices of the pixels written so far, in order.
    written: Ghost<Seq<nat>>,
    /// The elapsed-time readings (nanoseconds) taken by the last `update`,
    /// one after each pixel it computed.
    readings: Ghost<Seq<u128>>,
    /// The time budget (nanoseconds) of the last `update`.
    budget: Ghost<u128>,
}

impl<'a, T: PixelCompute> PixelRenderer<'a, T> {
    /// The number of pixels of the grid.
    pub open spec fn total(&self) -> nat {
        self.grid_width() * self.grid_height()
    }

    pub closed spec fn grid_width(&self) -> nat {
        self.width_max as nat
    }

    pub closed spec fn grid_height(&self) -> nat {
        self.height_max as nat
    }

    /// The linear (row-major) index of the next pixel to compute.
    pub closed spec fn cursor(&self) -> nat {
        (self.height_pos * self.width_max + self.width_pos) as nat
    }

    pub closed spec fn pixels_view(&self) -> Seq<Color> {
        self.pixels@
    }

    pub closed spec fn written_log(&self) -> Seq<nat> {
        self.written@
    }

    pub closed spec fn last_readings(&self) -> Seq<u128> {
        self.readings@
    }

    pub closed spec fn last_budget(&self) -> u128 {
        self.budget@
    }

    pub closed spec fn evaluator(&self) -> T {
        self.pixel_provider
    }

    pub closed spec fn palette_view(&self) -> Seq<Color> {
        self.palette@
    }

    /// The final color of the pixel at linear index `i`: column `i % width`,
    /// row `i / width`, looked up in the palette.
    pub open spec fn expected_pixel(&self, i: int) -> Color {
        self.palette_view()[self.evaluator().pixel_color(i % self.grid_width() as int, i / self.grid_width() as int) as int]
    }

    /// The buffer holds the final color of every pixel before the cursor and
    /// the background fill from the cursor on.
    pub open spec fn buffer_matches_cursor(&self) -> bool {
        &&& self.pixels_view().len() == self.total()
        &&& forall|i: int| 0 <= i < self.cursor() ==> #[trigger] self.pixels_view()[i] == self.expected_pixel(i)
        &&& forall|i: int| self.cursor() <= i < self.total() ==> #[trigger] self.pixels_view()[i] == background()
    }

    pub closed spec fn wf(&self) -> bool {
        &&& self.pixel_provider.valid()
        &&& self.width_max == self.pixel_provider.grid_width()
        &&& self.height_max == self.pixel_provider.grid_height()
        &&& 0 < self.width_max <= i32::MAX
        &&& 0 < self.height_max <= i32::MAX
        &&& self.width_max * self.height_max <= usize::MAX
        &&& self.palette@.len() >= self.pixel_provider.palette_size()
        &&& self.width_pos < self.width_max
        &&& self.height_pos <= self.height_max
        &&& self.height_pos == self.height_max ==> self.width_pos == 0
        &&& self.buffer_matches_cursor()
        &&& self.written@ == Seq::new(self.cursor(), |i: int| i as nat)
    }

    /// The cursor lies within the grid, at its end exactly when complete.
    proof fn lemma_cursor_range(&self)
        requires
            self.wf(),
        ensures
            self.cursor() <= self.total(),
            self.cursor() == self.total() <==> self.height_pos == self.height_max,
    {
        let (w, h, x, y) = (self.width_max as int, self.height_max as int, self.width_pos as int, self.height_pos as int);
        if y < h {
            assert(y * w + x < h * w) by (nonlinear_arith)
                requires
                    0 <= x < w,
                    0 <= y < h,
            ;
        }
        assert(h * w == w * h) by (nonlinear_arith);
    }

    /// A scanner for `pixel_provider` with every pixel at the background
    /// fill and the cursor at the first pixel.
    pub fn new(pixel_provider: T, palette: &'a [Color]) -> (r: Self)
        requires
            pixel_provider.valid(),
            0 < pixel_provider.grid_width() <= i32::MAX,
            0 < pixel_provider.grid_height() <= i32::MAX,
            pixel_provider.grid_width() * pixel_provider.grid_height() <= usize::MAX,
            palette@.len() >= pixel_provider.palette_size(),
        ensures
            r.wf(),
            r.cursor() == 0,
            r.total() > 0,
            r.evaluator() == pixel_provider,
            r.palette_view() == palette@,
            r.grid_width() == pixel_provider.grid_width(),
            r.grid_height() == pixel_provider.grid_height(),
            r.buffer_matches_cursor(),
    {
        let width_max = pixel_provider.width();
        let height_max = pixel_provider.height();
        let total: usize = (width_max as usize) * (height_max as usize);
        let fill = background_color();
        let mut pixels: Vec<Color> = Vec::with_capacity(total);
        let mut i: usize = 0;
        while i < total
            invariant
                i <= total,
                pixels@.len() == i,
                fill == background(),
                forall|k: int| 0 <= k < i ==> #[trigger] pixels@[k] == background(),
            decreases total - i,
        {
            pixels.push(fill);
            i = i + 1;
        }
        let r = PixelRenderer {
            width_max,
            height_max,
            width_pos: 0,
            height_pos: 0,
            pixels,
            pixel_provider,
            palette,
            written: Ghost(Seq::empty()),
            readings: Ghost(Seq::empty()),
            budget: Ghost(0),
        };
        assert(r.written@ =~= Seq::new(0, |i: int| i as nat));
        assert(r.grid_width() * r.grid_height() > 0) by (nonlinear_arith)
            requires
                r.grid_width() > 0,
                r.grid_height() > 0,
        ;
        r
    }

    /// There are pixels left to compute.
    pub fn is_rendering(&self) -> (r: bool)
        requires
            self.wf(),
        ensures
            r == (self.cursor() < self.total()),
            self.cursor() <= self.total(),
    {
        proof {
            self.lemma_cursor_range();
        }
        self.height_pos < self.height_max
    }

    /// The pixel buffer, row by row.
    pub fn pixels(&self) -> (r: &[Color])
        ensures
            r@ == self.pixels_view(),
    {
        self.pixels.as_slice()
    }

    pub fn width(&self) -> (r: u32)
        ensures
            r == self.grid_width(),
    {
        self.width_max
    }

    pub fn height(&self) -> (r: u32)
        ensures
            r == self.grid_height(),
    {
        self.height_max
    }

    /// Computes the pixel at the cursor, writes it, and advances the cursor.
    fn render_next_pixel(&mut self)
        requires
            old(self).wf(),
            old(self).cursor() < old(self).total(),
        ensures
            final(self).wf(),
            final(self).cursor() == old(self).cursor() + 1,
            final(self).last_readings() == old(self).last_readings(),
            final(self).last_budget() == old(self).last_budget(),
            final(self).total() == old(self).total(),
            final(self).evaluator() == old(self).evaluator(),
            final(self).palette_view() == old(self).palette_view(),
            final(self).grid_width() == old(self).grid_width(),
            final(self).grid_height() == old(self).grid_height(),
    {
        proof {
            self.lemma_cursor_range();
        }
        let ghost c = self.cursor() as int;
        let (w, x, y) = (self.width_max, self.width_pos, self.height_pos);
        proof {
            assert(y < self.height_max);
            assert((y * w + x) / (w as int) == y && (y * w + x) % (w as int) == x) by {
                vstd::arithmetic::div_mod::lemma_fundamental_div_mod_converse(y * w + x, w as int, y as int, x as int);
            }
        }
        let pixel_gray = self.pixel_provider.compute_pixel_color(Point { x: x as i32, y: y as i32 });
        let index: usize = (y as usize) * (w as usize) + (x as usize);
        let color = self.palette[pixel_gray];
        self.pixels.set(index, color);
        proof {
            self.written@ = self.written@.push(c as nat);
        }
        self.width_pos = self.width_pos + 1;
        if self.width_pos >= self.width_max {
            self.width_pos = 0;
            self.height_pos = self.height_pos + 1;
        }
        proof {
            assert(self.cursor() == c + 1) by (nonlinear_arith)
                requires
                    self.cursor() == self.height_pos * w + self.width_pos,
                    c == y * w + x,
                    (self.width_pos == x + 1 && self.height_pos == y) || (self.width_pos == 0 && self.height_pos == y + 1 && x + 1 == w),
            ;
            assert(self.written@ =~= Seq::new(self.cursor(), |i: int| i as nat));
            assert(self.expected_pixel(c) == color);
        }
    }

    /// The decision taken after each pixel: scanning goes on while pixels
    /// remain and the time spent, `elapsed_nanos`, is within the budget.
    pub fn keeps_scanning(&self, elapsed_nanos: u128, budget_nanos: u128) -> (r: bool)
        requires
            self.wf(),
        ensures
            r == (self.cursor() < self.total() && elapsed_nanos <= budget_nanos),
            self.cursor() <= self.total(),
    {
        proof {
            self.lemma_cursor_range();
        }
        self.height_pos < self.height_max && elapsed_nanos <= budget_nanos
    }

    /// Computes pixels in row-major order until the grid is complete or the
    /// wall time spent exceeds `max_timeslot`, whichever comes first. An
    /// unfinished scan always gains at least one pixel, so that repeated
    /// calls complete it whatever the budget.
    pub fn update(&mut self, max_timeslot: &Duration)
        requires
            old(self).wf(),
        ensures
            final(self).wf(),
            final(self).buffer_matches_cursor(),
            final(self).cursor() <= final(self).total(),
            scan_step(old(self).cursor(), final(self).cursor(), old(self).total()),
            old(self).cursor() < old(self).total() ==> {
                let readings = final(self).last_readings();
                &&& readings.len() == final(self).cursor() - old(self).cursor()
                &&& forall|k: int| 0 <= k < readings.len() - 1 ==> #[trigger] readings[k] <= final(self).last_budget()
                &&& final(self).cursor() < final(self).total() ==> readings.last() > final(self).last_budget()
            },
            final(self).total() == old(self).total(),
            final(self).evaluator() == old(self).evaluator(),
            final(self).palette_view() == old(self).palette_view(),
            final(self).grid_width() == old(self).grid_width(),
            final(self).grid_height() == old(self).grid_height(),
    {
        proof {
            self.lemma_cursor_range();
        }
        if self.height_pos >= self.height_max {
            return;
        }
        let ghost start = *self;
        let instant = clock_now();
        let budget = duration_nanos(max_timeslot);
        proof {
            self.readings@ = Seq::empty();
            self.budget@ = budget;
        }
        loop
            invariant_except_break
                self.cursor() < self.total(),
                forall|k: int| 0 <= k < self.readings@.len() ==> #[trigger] self.readings@[k] <= budget,
            invariant
                self.wf(),
                start.cursor() <= self.cursor(),
                start.cursor() < start.total(),
                self.total() == start.total(),
                self.evaluator() == start.evaluator(),
                self.palette_view() == start.palette_view(),
                self.grid_width() == start.grid_width(),
                self.grid_height() == start.grid_height(),
                self.budget@ == budget,
                self.readings@.len() == self.cursor() - start.cursor(),
            ensures
                self.wf(),
                start.cursor() < self.cursor() <= self.total(),
                self.total() == start.total(),
                self.evaluator() == start.evaluator(),
                self.palette_view() == start.palette_view(),
                self.grid_width() == start.grid_width(),
                self.grid_height() == start.grid_height(),
                self.budget@ == budget,
                self.readings@.len() == self.cursor() - start.cursor(),
                forall|k: int| 0 <= k < self.readings@.len() - 1 ==> #[trigger] self.readings@[k] <= budget,
                self.cursor() < self.total() ==> self.readings@.last() > budget,
            decreases self.total() - self.cursor(),
        {
            self.render_next_pixel();
            let elapsed = duration_nanos(&time_since(&instant));
            proof {
                self.readings@ = self.readings@.push(elapsed);
            }
            if !self.keeps_scanning(elapsed, budget) {
                break;
            }
        }
    }
}

/// Repeated updates complete any grid: along any run of `total` updates
/// from a cursor within the grid, the cursor ends at the end of the grid.
pub proof fn lemma_updates_complete(cursors: Seq<nat>, total: nat)
    requires
        cursors.len() == total + 1,
        cursors[0] <= total,
        forall|k: int| 0 <= k < total ==> scan_step(cursors[k], #[trigger] cursors[k + 1], total),
    ensures
        cursors[total as int] == total,
{
    lemma_cursor_after(cursors, total, total);
}

/// After `k` updates the cursor has gained at least `k` pixels.
proof fn lemma_cursor_after(cursors: Seq<nat>, total: nat, k: nat)
    requires
        cursors.len() == total + 1,
        cursors[0] <= total,
        forall|j: int| 0 <= j < total ==> scan_step(cursors[j], #[trigger] cursors[j + 1], total),
        k <= total,
    ensures
        k <= cursors[k as int] <= total,
    decreases k,
{
    if k > 0 {
        lemma_cursor_after(cursors, total, (k - 1) as nat);
        let j = k - 1;
        assert(scan_step(cursors[j], cursors[j + 1], total));
    }
}

/// A complete scan of an `N` by `M` grid has written exactly `N * M`
/// pixels, each once, in row-major order, and each holds its final color.
pub proof fn lemma_full_scan<T: PixelCompute>(r: &PixelRenderer<T>)
    requires
        r.wf(),
        r.cursor() >= r.total(),
    ensures
        r.total() == r.grid_width() * r.grid_height(),
        r.written_log() == Seq::new(r.total(), |i: int| i as nat),
        r.pixels_view().len() == r.total(),
        forall|i: int| 0 <= i < r.total() ==> #[trigger] r.pixels_view()[i] == r.expected_pixel(i),
{
    r.lemma_cursor_range();
}

} // verus!
