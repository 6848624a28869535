//! The escape-time iteration `z <- z^2 + c` over fixed-point complex numbers.

use vstd::prelude::*;

use crate::display::{CanvasBounds, PixelCompute, PixelComputeProvider, Point};
use crate::fixed::{
    div_toward_zero, interpolate, lemma_one_values, lemma_trunc_div_bound, lerp, one, trunc_div, Complex,
    ONE_RAW,
};

verus! {

/// One step of the recurrence on raw parts: `z^2 + c`, each product
/// rescaled by a division by the fixed-point scale rounded toward zero
/// (so that conjugate points have conjugate orbits).
pub open spec fn step(z: (int, int), c: (int, int)) -> (int, int) {
    (
        trunc_div(z.0 * z.0 - z.1 * z.1, one()) + c.0,
        trunc_div(2 * z.0 * z.1, one()) + c.1,
    )
}

/// The `k`-th element of the orbit of `c`, starting from `z_0 = 0`.
pub open spec fn orbit(c: (int, int), k: nat) -> (int, int)
    decreases k,
{
    if k == 0 {
        (0, 0)
    } else {
        step(orbit(c, (k - 1) as nat), c)
    }
}

/// The squared norm of `z` exceeds 4, that is `|z| > 2`.
pub open spec fn escaped(z: (int, int)) -> bool {
    z.0 * z.0 + z.1 * z.1 > 4 * one() * one()
}

/// The first `k` in `[from, n)` with `|z_{k+1}| > 2`, if any.
pub open spec fn first_escape(c: (int, int), from: nat, n: nat) -> Option<nat>
    decreases n - from,
{
    if from >= n {
        None
    } else if escaped(orbit(c, from + 1)) {
        Some(from)
    } else {
        first_escape(c, from + 1, n)
    }
}

/// The escape index of `c` within `limit - 1` iterations; `None` when the
/// orbit stays bounded that long.
pub open spec fn escape_time(c: (int, int), limit: nat) -> Option<nat> {
    first_escape(c, 0, (limit - 1) as nat)
}

/// `r` is what the iteration reports for `c` under `limit`: `Err(k)` for the
/// escape index `k`, `Ok(())` for a bounded orbit.
pub open spec fn classifies(c: (int, int), limit: nat, r: Result<(), usize>) -> bool {
    match r {
        Ok(()) => escape_time(c, limit) is None,
        Err(k) => escape_time(c, limit) == Some(k as nat),
    }
}

/// The iteration is deterministic: for a given `(c, limit)` exactly one
/// result meets its contract, so two calls with the same arguments agree.
pub proof fn lemma_iteration_deterministic(c: (int, int), limit: nat, r1: Result<(), usize>, r2: Result<(), usize>)
    requires
        classifies(c, limit, r1),
        classifies(c, limit, r2),
    ensures
        r1 == r2,
{
    if r1 is Ok {
        assert(r2 is Ok);
        let (u1, u2) = (r1->Ok_0, r2->Ok_0);
        assert(u1 == u2);
    } else {
        assert(r2 is Err);
        assert(r1->Err_0 == r2->Err_0);
    }
}

/// The orbit of the conjugate point is the conjugate of the orbit.
proof fn lemma_conjugate_orbit(c: (int, int), k: nat)
    ensures
        orbit((c.0, -c.1), k) == (orbit(c, k).0, -orbit(c, k).1),
    decreases k,
{
    if k > 0 {
        lemma_conjugate_orbit(c, (k - 1) as nat);
        let z = orbit(c, (k - 1) as nat);
        assert((-z.1) * (-z.1) == z.1 * z.1) by (nonlinear_arith);
        assert(2 * z.0 * (-z.1) == -(2 * z.0 * z.1)) by (nonlinear_arith);
        lemma_one_values();
        assert(0int / one() == 0);
    }
}

proof fn lemma_conjugate_first_escape(c: (int, int), from: nat, n: nat)
    ensures
        first_escape((c.0, -c.1), from, n) == first_escape(c, from, n),
    decreases n - from,
{
    if from < n {
        lemma_conjugate_orbit(c, from + 1);
        let z = orbit(c, from + 1);
        assert((-z.1) * (-z.1) == z.1 * z.1) by (nonlinear_arith);
        lemma_conjugate_first_escape(c, from + 1, n);
    }
}

/// A point and its complex conjugate get the same result for every limit:
/// their orbits have the same norms at every step.
pub proof fn lemma_conjugate_same_escape(c: (int, int), limit: nat)
    ensures
        escape_time((c.0, -c.1), limit) == escape_time(c, limit),
{
    lemma_conjugate_first_escape(c, 0, (limit - 1) as nat);
}

/// `x^2 <= b^2` exactly when `-b <= x <= b`.
proof fn lemma_square_le(x: int, b: int)
    requires
        b >= 0,
    ensures
        (x * x <= b * b) <==> (-b <= x <= b),
{
    if x > b {
        assert(x * x > b * b) by (nonlinear_arith)
            requires
                x > b,
                b >= 0,
        ;
    } else if x < -b {
        assert(x * x > b * b) by (nonlinear_arith)
            requires
                x < -b,
                b >= 0,
        ;
    } else {
        assert(x * x <= b * b) by (nonlinear_arith)
            requires
                -b <= x <= b,
        ;
    }
}

/// An escape index found below `n` lies in `[from, n)`.
pub proof fn lemma_first_escape_range(c: (int, int), from: nat, n: nat)
    ensures
        first_escape(c, from, n) matches Some(k) ==> from <= k < n,
    decreases n - from,
{
    if from < n && !escaped(orbit(c, from + 1)) {
        lemma_first_escape_range(c, from + 1, n);
    }
}

/// The orbit of the origin stays at the origin.
proof fn lemma_origin_orbit(k: nat)
    ensures
        orbit((0, 0), k) == (0int, 0int),
    decreases k,
{
    if k > 0 {
        lemma_origin_orbit((k - 1) as nat);
        assert(0int / one() == 0) by {
            lemma_one_values();
        }
    }
}

/// `c = 0` never escapes: the iteration reports it bounded for every limit.
pub proof fn lemma_origin_is_bounded(limit: nat)
    ensures
        escape_time((0, 0), limit) is None,
{
    lemma_origin_first_escape(0, (limit - 1) as nat);
}

proof fn lemma_origin_first_escape(from: nat, n: nat)
    ensures
        first_escape((0, 0), from, n) is None,
    decreases n - from,
{
    if from < n {
        lemma_origin_orbit(from + 1);
        lemma_one_values();
        lemma_origin_first_escape(from + 1, n);
    }
}

/// A point already outside radius 2 (such as `3 + 3i`) escapes at index 0
/// whenever at least one iteration is allowed.
pub proof fn lemma_outside_escapes_at_once(c: (int, int), limit: nat)
    requires
        escaped(c),
        limit >= 2,
    ensures
        escape_time(c, limit) == Some(0nat),
{
    lemma_one_values();
    assert(orbit(c, 0) == (0int, 0int));
    assert(orbit(c, 1) == step(orbit(c, 0), c));
    assert(step((0, 0), c) == c);
}

/// The escape-time evaluation of a viewport with an iteration limit.
pub struct MandelbrotContext {
    pub width: usize,
    pub height: usize,
    pub upper_left: Complex,
    pub lower_right: Complex,
    pub limit: usize,
}

impl MandelbrotContext {
    /// Grid sizes fit a `u32` and are positive; at least one color.
    pub open spec fn wf(&self) -> bool {
        &&& 0 < self.width <= u32::MAX
        &&& 0 < self.height <= u32::MAX
        &&& self.limit >= 1
    }

    /// The raw coordinates of pixel `(x, y)`.
    pub open spec fn point_spec(&self, x: int, y: int) -> (int, int) {
        (
            lerp(self.upper_left.re.raw as int, self.lower_right.re.raw as int, x, self.width as int),
            lerp(self.upper_left.im.raw as int, self.lower_right.im.raw as int, y, self.height as int),
        )
    }

    /// The color index of pixel `(x, y)`: its escape index, or `limit - 1`
    /// where the orbit stays bounded.
    pub open spec fn color_spec(&self, x: int, y: int) -> nat {
        match escape_time(self.point_spec(x, y), self.limit as nat) {
            Some(k) => k,
            None => (self.limit - 1) as nat,
        }
    }

    /// The color index of pixel `(x, y)`.
    pub fn color_at_pixel(&self, x: u32, y: u32) -> (r: usize)
        requires
            self.wf(),
            x <= self.width,
            y <= self.height,
        ensures
            r == self.color_spec(x as int, y as int),
            r < self.limit,
    {
        let mandelbrot_point = self.point_at_pixel(x, y);
        let set_membering = Self::in_mandelbrot_set(mandelbrot_point, self.limit);
        proof {
            lemma_first_escape_range(mandelbrot_point@, 0, (self.limit - 1) as nat);
        }
        match set_membering {
            Err(val) => val,
            Ok(()) => self.limit - 1,
        }
    }

    /// The complex-plane point of pixel `(x, y)`.
    pub fn point_at_pixel(&self, x: u32, y: u32) -> (r: Complex)
        requires
            0 < self.width <= u32::MAX,
            0 < self.height <= u32::MAX,
            x <= self.width,
            y <= self.height,
        ensures
            r@ == self.point_spec(x as int, y as int),
    {
        Complex {
            re: interpolate(self.upper_left.re, self.lower_right.re, x, self.width as u32),
            im: interpolate(self.upper_left.im, self.lower_right.im, y, self.height as u32),
        }
    }

    /// Classifies `c` by the escape-time iteration: `Err(k)` for the first
    /// `k < limit - 1` with `|z_{k+1}| > 2`, `Ok(())` when the orbit stays
    /// within radius 2 for `limit - 1` iterations.
    pub fn in_mandelbrot_set(c: Complex, limit: usize) -> (r: Result<(), usize>)
        requires
            limit >= 1,
        ensures
            classifies(c@, limit as nat, r),
    {
        proof {
            lemma_one_values();
        }
        let n: usize = limit - 1;
        let two: i128 = 2 * (ONE_RAW as i128);
        let four_sq: i128 = 4 * (ONE_RAW as i128) * (ONE_RAW as i128);
        let mut zr: i128 = 0;
        let mut zi: i128 = 0;
        let mut i: usize = 0;
        while i < n
            invariant
                0 <= i <= n,
                n == limit - 1,
                two == 2 * one(),
                four_sq == 4 * one() * one(),
                (zr as int, zi as int) == orbit(c@, i as nat),
                !escaped(orbit(c@, i as nat)),
                first_escape(c@, 0, n as nat) == first_escape(c@, i as nat, n as nat),
            decreases n - i,
        {
            proof {
                lemma_one_values();
                lemma_square_le(zr as int, 2 * one());
                lemma_square_le(zi as int, 2 * one());
                assert(zr * zr >= 0 && zi * zi >= 0) by (nonlinear_arith);
                assert((2 * one()) * (2 * one()) == 4 * one() * one()) by (nonlinear_arith);
                assert(-two <= zr <= two && -two <= zi <= two);
                assert(-4 * one() * one() <= zr * zi <= 4 * one() * one()) by (nonlinear_arith)
                    requires
                        -2 * one() <= zr <= 2 * one(),
                        -2 * one() <= zi <= 2 * one(),
                        one() > 0,
                ;
            }
            let re_part = div_toward_zero(zr * zr - zi * zi, ONE_RAW as i128);
            let im_part = div_toward_zero(2 * (zr * zi), ONE_RAW as i128);
            proof {
                assert(2 * zr * zi == 2 * (zr * zi)) by (nonlinear_arith);
                lemma_trunc_div_bound(zr * zr - zi * zi, one(), 4 * one());
                lemma_trunc_div_bound(2 * (zr * zi), one(), 8 * one());
            }
            zr = re_part + c.re.raw as i128;
            zi = im_part + c.im.raw as i128;
            proof {
                assert((zr as int, zi as int) == orbit(c@, (i + 1) as nat));
                lemma_square_le(zr as int, 2 * one());
                lemma_square_le(zi as int, 2 * one());
            }
            let outside = if zr > two || zr < -two || zi > two || zi < -two {
                proof {
                        assert((2 * one()) * (2 * one()) == 4 * one() * one()) by (nonlinear_arith);
                    assert(zr * zr > 4 * one() * one() || zi * zi > 4 * one() * one());
                    assert(zr * zr >= 0 && zi * zi >= 0) by (nonlinear_arith);
                }
                true
            } else {
                proof {
                    assert(0 <= zr * zr <= 4 * one() * one() && 0 <= zi * zi <= 4 * one() * one())
                        by (nonlinear_arith)
                        requires
                            -2 * one() <= zr <= 2 * one(),
                            -2 * one() <= zi <= 2 * one(),
                    ;
                }
                zr * zr + zi * zi > four_sq
            };
            if outside {
                return Err(i);
            }
            i = i + 1;
        }
        Ok(())
    }
}

impl PixelCompute for MandelbrotContext {
    open spec fn valid(&self) -> bool {
        self.wf()
    }

    open spec fn grid_width(&self) -> nat {
        self.width as nat
    }

    open spec fn grid_height(&self) -> nat {
        self.height as nat
    }

    open spec fn palette_size(&self) -> nat {
        self.limit as nat
    }

    open spec fn pixel_color(&self, x: int, y: int) -> nat {
        self.color_spec(x, y)
    }

    fn width(&self) -> (r: u32) {
        self.width as u32
    }

    fn height(&self) -> (r: u32) {
        self.height as u32
    }

    fn color_count(&self) -> (r: usize) {
        self.limit
    }

    fn compute_pixel_color(&self, pixel: Point) -> (r: usize) {
        self.color_at_pixel(pixel.x as u32, pixel.y as u32)
    }
}

/// Builds a `MandelbrotContext` with a fixed iteration limit for each viewport.
pub struct MandelbrotProvider {
    pub limit: usize,
}

impl MandelbrotProvider {
    pub fn new(limit: usize) -> (r: Self)
        ensures
            r.limit == limit,
    {
        MandelbrotProvider { limit }
    }
}

impl PixelComputeProvider<MandelbrotContext> for MandelbrotProvider {
    open spec fn valid(&self) -> bool {
        self.limit >= 1
    }

    open spec fn compute_for(&self, bounds: CanvasBounds) -> MandelbrotContext {
        MandelbrotContext {
            width: bounds.width as usize,
            height: bounds.height as usize,
            upper_left: bounds.upper_left,
            lower_right: bounds.lower_right,
            limit: self.limit,
        }
    }

    fn is_valid(&self) -> (r: bool) {
        self.limit >= 1
    }

    fn new_pixel_compute(&self, bounds: CanvasBounds) -> (r: MandelbrotContext) {
        MandelbrotContext {
            width: bounds.width as usize,
            height: bounds.height as usize,
            upper_left: bounds.upper_left,
            lower_right: bounds.lower_right,
            limit: self.limit,
        }
    }
}

} // verus!
