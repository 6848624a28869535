//! Viewports: the mapping between a pixel grid and a rectangle of the
//! complex plane, and the capability interface of a per-pixel evaluator.

use vstd::prelude::*;
use vstd::arithmetic::div_mod::{lemma_div_multiples_vanish, lemma_fundamental_div_mod, lemma_fundamental_div_mod_converse};

use crate::fixed::{extrapolate, fits_fixed, interpolate, lerp, Complex};

verus! {

/// A pixel position.
#[derive(Clone, Copy, Debug, PartialEq, Eq, Structural)]
pub struct Point {
    pub x: i32,
    pub y: i32,
}

/// A screen rectangle: origin at its upper-left corner, then its size.
#[derive(Clone, Copy, Debug, PartialEq, Eq, Structural)]
pub struct Rect {
    pub x: i64,
    pub y: i64,
    pub width: u32,
    pub height: u32,
}

/// A pixel grid of `width` by `height` laid over the rectangle of the
/// complex plane from `upper_left` to `lower_right`.
#[derive(Clone, Copy, Debug, PartialEq, Eq, Structural)]
pub struct CanvasBounds {
    pub width: u32,
    pub height: u32,
    pub upper_left: Complex,
    pub lower_right: Complex,
}

/// The raw coordinates of pixel `(x, y)`: both axes interpolate linearly
/// from the upper-left corner (pixel `(0, 0)`) to the lower-right corner
/// (pixel `(width, height)`).
pub open spec fn coord_at(b: CanvasBounds, x: int, y: int) -> (int, int) {
    (
        lerp(b.upper_left.re.raw as int, b.lower_right.re.raw as int, x, b.width as int),
        lerp(b.upper_left.im.raw as int, b.lower_right.im.raw as int, y, b.height as int),
    )
}

/// A selected rectangle is committed: it has a positive size, the
/// coordinates of its corners (by the same linear map, extended beyond the
/// grid where the rectangle overhangs it) fit `Fixed`, and they still span a
/// region of positive width and height.
pub open spec fn selection_commits(b: CanvasBounds, rect: Rect) -> bool {
    let ul = coord_at(b, rect.x as int, rect.y as int);
    let lr = coord_at(b, rect.x + rect.width, rect.y + rect.height);
    &&& rect.width > 0
    &&& rect.height > 0
    &&& fits_fixed(ul.0) && fits_fixed(ul.1) && fits_fixed(lr.0) && fits_fixed(lr.1)
    &&& ul.0 < lr.0
    &&& ul.1 > lr.1
}

impl CanvasBounds {
    /// A non-empty grid over a region of positive area: the real axis
    /// increases rightward and the imaginary axis decreases downward.
    pub open spec fn wf(self) -> bool {
        &&& self.width > 0
        &&& self.height > 0
        &&& self.upper_left.re.raw < self.lower_right.re.raw
        &&& self.upper_left.im.raw > self.lower_right.im.raw
    }

    /// The complex-plane coordinates of pixel `p`.
    pub fn coords_at_pixel(&self, p: Point) -> (r: Complex)
        requires
            self.width > 0,
            self.height > 0,
            0 <= p.x <= self.width,
            0 <= p.y <= self.height,
        ensures
            r@ == coord_at(*self, p.x as int, p.y as int),
    {
        self.coords_at(p.x as u32, p.y as u32)
    }

    fn coords_at(&self, x: u32, y: u32) -> (r: Complex)
        requires
            self.width > 0,
            self.height > 0,
            x <= self.width,
            y <= self.height,
        ensures
            r@ == coord_at(*self, x as int, y as int),
    {
        Complex {
            re: interpolate(self.upper_left.re, self.lower_right.re, x, self.width),
            im: interpolate(self.upper_left.im, self.lower_right.im, y, self.height),
        }
    }

    /// The viewport that a committed selection zooms into: same pixel
    /// size, with the coordinates of the rectangle's corners as bounds.
    /// `None` for a rectangle of zero area, for one whose corners map
    /// outside the range of `Fixed`, and where the fixed-point grid can no
    /// longer tell its left from its right or its top from its bottom.
    pub fn bounds_for_selection(&self, rect: &Rect) -> (r: Option<CanvasBounds>)
        requires
            self.width > 0,
            self.height > 0,
        ensures
            r is Some <==> selection_commits(*self, *rect),
            r matches Some(nb) ==> {
                &&& nb.width == self.width
                &&& nb.height == self.height
                &&& nb.upper_left@ == coord_at(*self, rect.x as int, rect.y as int)
                &&& nb.lower_right@ == coord_at(*self, rect.x + rect.width, rect.y + rect.height)
                &&& nb.wf()
            },
    {
        if rect.width == 0 || rect.height == 0 {
            return None;
        }
        let left = extrapolate(self.upper_left.re, self.lower_right.re, rect.x as i128, self.width);
        let top = extrapolate(self.upper_left.im, self.lower_right.im, rect.y as i128, self.height);
        let right = extrapolate(
            self.upper_left.re,
            self.lower_right.re,
            rect.x as i128 + rect.width as i128,
            self.width,
        );
        let bottom = extrapolate(
            self.upper_left.im,
            self.lower_right.im,
            rect.y as i128 + rect.height as i128,
            self.height,
        );
        match (left, top, right, bottom) {
            (Some(left), Some(top), Some(right), Some(bottom)) => {
                if left.raw >= right.raw || top.raw <= bottom.raw {
                    return None;
                }
                Some(
                    CanvasBounds {
                        width: self.width,
                        height: self.height,
                        upper_left: Complex { re: left, im: top },
                        lower_right: Complex { re: right, im: bottom },
                    },
                )
            },
            _ => None,
        }
    }
}

/// A per-pixel evaluator over a fixed grid: gives each pixel an index into
/// a color table of `palette_size()` entries.
pub trait PixelCompute {
    /// The evaluator's own consistency condition.
    spec fn valid(&self) -> bool;

    spec fn grid_width(&self) -> nat;

    spec fn grid_height(&self) -> nat;

    /// The number of color indices that the evaluator may return.
    spec fn palette_size(&self) -> nat;

    /// The color index of pixel `(x, y)`.
    spec fn pixel_color(&self, x: int, y: int) -> nat;

    fn width(&self) -> (r: u32)
        requires
            self.valid(),
        ensures
            r == self.grid_width(),
    ;

    fn height(&self) -> (r: u32)
        requires
            self.valid(),
        ensures
            r == self.grid_height(),
    ;

    fn color_count(&self) -> (r: usize)
        requires
            self.valid(),
        ensures
            r == self.palette_size(),
    ;

    fn compute_pixel_color(&self, pixel: Point) -> (r: usize)
        requires
            self.valid(),
            0 <= pixel.x < self.grid_width(),
            0 <= pixel.y < self.grid_height(),
        ensures
            r == self.pixel_color(pixel.x as int, pixel.y as int),
            r < self.palette_size(),
    ;
}

/// Builds the evaluator for a viewport; called again for each new viewport.
pub trait PixelComputeProvider<T: PixelCompute> {
    spec fn valid(&self) -> bool;

    /// Tells whether the provider is ready to build evaluators.
    fn is_valid(&self) -> (r: bool)
        ensures
            r == self.valid(),
    ;

    /// The evaluator that the provider builds for `bounds`.
    spec fn compute_for(&self, bounds: CanvasBounds) -> T;

    fn new_pixel_compute(&self, bounds: CanvasBounds) -> (r: T)
        requires
            self.valid(),
            bounds.width > 0,
            bounds.height > 0,
        ensures
            r == self.compute_for(bounds),
            r.valid(),
            r.grid_width() == bounds.width,
            r.grid_height() == bounds.height,
    ;
}

/// Pixel `(0, 0)` maps to the upper-left corner and pixel
/// `(width, height)` to the lower-right corner, exactly.
pub proof fn lemma_corners_exact(b: CanvasBounds)
    requires
        b.width > 0,
        b.height > 0,
    ensures
        coord_at(b, 0, 0) == b.upper_left@,
        coord_at(b, b.width as int, b.height as int) == b.lower_right@,
{
    lemma_div_multiples_vanish(b.lower_right.re.raw - b.upper_left.re.raw, b.width as int);
    lemma_div_multiples_vanish(b.lower_right.im.raw - b.upper_left.im.raw, b.height as int);
    assert((b.width as int) * (b.lower_right.re.raw - b.upper_left.re.raw) == (b.lower_right.re.raw
        - b.upper_left.re.raw) * (b.width as int)) by (nonlinear_arith);
    assert((b.height as int) * (b.lower_right.im.raw - b.upper_left.im.raw) == (b.lower_right.im.raw
        - b.upper_left.im.raw) * (b.height as int)) by (nonlinear_arith);
}

/// Halfway along an even number of pixels lies the midpoint, rounded down:
/// `lerp(a, b, k, 2k) == floor((a + b) / 2)`.
proof fn lemma_lerp_half(a: int, b: int, k: int)
    requires
        k > 0,
    ensures
        lerp(a, b, k, 2 * k) == (a + b) / 2,
{
    let d = b - a;
    lemma_fundamental_div_mod(d, 2);
    let q = d / 2;
    let r = d % 2;
    assert(0 <= r < 2);
    assert(k * d == q * (2 * k) + k * r) by (nonlinear_arith)
        requires
            d == 2 * q + r,
    ;
    assert(0 <= k * r < 2 * k) by (nonlinear_arith)
        requires
            0 <= r < 2,
            k > 0,
    ;
    lemma_fundamental_div_mod_converse(k * d, 2 * k, q, k * r);
    lemma_fundamental_div_mod_converse(a + b, 2, a + q, r);
}

/// On a grid of even width and height, the centre pixel maps to the
/// midpoint of the two corners (rounded down to the fixed-point grid).
pub proof fn lemma_centre_is_midpoint(b: CanvasBounds)
    requires
        b.width > 0,
        b.height > 0,
        b.width % 2 == 0,
        b.height % 2 == 0,
    ensures
        coord_at(b, b.width as int / 2, b.height as int / 2) == (
            (b.upper_left.re.raw + b.lower_right.re.raw) / 2,
            (b.upper_left.im.raw + b.lower_right.im.raw) / 2,
        ),
{
    lemma_lerp_half(b.upper_left.re.raw as int, b.lower_right.re.raw as int, b.width as int / 2);
    lemma_lerp_half(b.upper_left.im.raw as int, b.lower_right.im.raw as int, b.height as int / 2);
}

} // verus!
