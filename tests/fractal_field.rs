use mandelbrot::display::{CanvasBounds, Point, Rect};
use mandelbrot::fixed::{Complex, Fixed, ONE_RAW};
use mandelbrot::mandelbrot::{MandelbrotContext, MandelbrotProvider};
use mandelbrot::display::PixelComputeProvider;

fn complex(re: Fixed, im: Fixed) -> Complex {
    Complex { re, im }
}

fn whole(n: i32) -> Fixed {
    Fixed::from_int(n)
}

fn ratio(num: i64, den: i64) -> Fixed {
    Fixed::from_ratio(num, den)
}

#[test]
fn test_pixel_to_point() {
    let bounds = MandelbrotContext {
        width: 100,
        height: 200,
        upper_left: complex(whole(-1), whole(1)),
        lower_right: complex(whole(1), whole(-1)),
        limit: 255,
    };
    assert_eq!(bounds.point_at_pixel(0, 0), complex(whole(-1), whole(1)));
    assert_eq!(bounds.point_at_pixel(100, 200), complex(whole(1), whole(-1)));
    assert_eq!(bounds.point_at_pixel(50, 100), complex(whole(0), whole(0)));
    assert_eq!(bounds.point_at_pixel(25, 175), complex(ratio(-1, 2), ratio(-3, 4)));
}

fn square_bounds() -> CanvasBounds {
    CanvasBounds {
        width: 100,
        height: 200,
        upper_left: complex(whole(-1), whole(1)),
        lower_right: complex(whole(1), whole(-1)),
    }
}

#[test]
fn coords_at_corners_are_exact() {
    let b = CanvasBounds {
        width: 1280,
        height: 720,
        upper_left: complex(ratio(-5, 2), ratio(9, 8)),
        lower_right: complex(ratio(3, 2), ratio(-9, 8)),
    };
    assert_eq!(b.coords_at_pixel(Point { x: 0, y: 0 }), b.upper_left);
    assert_eq!(b.coords_at_pixel(Point { x: 1280, y: 720 }), b.lower_right);
}

#[test]
fn coords_at_centre_is_midpoint() {
    let b = CanvasBounds {
        width: 1280,
        height: 720,
        upper_left: complex(ratio(-5, 2), ratio(9, 8)),
        lower_right: complex(ratio(3, 2), ratio(-9, 8)),
    };
    assert_eq!(b.coords_at_pixel(Point { x: 640, y: 360 }), complex(ratio(-1, 2), whole(0)));
}

#[test]
fn coords_bilinear_check() {
    let b = square_bounds();
    assert_eq!(b.coords_at_pixel(Point { x: 25, y: 175 }), complex(ratio(-1, 2), ratio(-3, 4)));
}

#[test]
fn coords_round_down_between_grid_points() {
    // a third of the way from 0 to 1 is not on the fixed-point grid
    let b = CanvasBounds {
        width: 3,
        height: 3,
        upper_left: complex(whole(0), whole(1)),
        lower_right: complex(whole(1), whole(0)),
    };
    let p = b.coords_at_pixel(Point { x: 1, y: 1 });
    assert_eq!(p.re.raw, ONE_RAW / 3);
    assert_eq!(p.im.raw, ONE_RAW - ONE_RAW / 3 - 1);
}

#[test]
fn from_ratio_rounds_down() {
    assert_eq!(ratio(1, 2).raw, ONE_RAW / 2);
    assert_eq!(ratio(-1, 3).raw, -(ONE_RAW / 3) - 1);
    assert_eq!(whole(-3).raw, -3 * ONE_RAW);
}

#[test]
fn selection_commit_maps_corners() {
    let b = square_bounds();
    let rect = Rect { x: 25, y: 50, width: 50, height: 100 };
    let nb = b.bounds_for_selection(&rect).unwrap();
    assert_eq!(nb.width, 100);
    assert_eq!(nb.height, 200);
    assert_eq!(nb.upper_left, complex(ratio(-1, 2), ratio(1, 2)));
    assert_eq!(nb.lower_right, complex(ratio(1, 2), ratio(-1, 2)));
}

#[test]
fn selection_commit_rejects_degenerate_rects() {
    let b = square_bounds();
    assert_eq!(b.bounds_for_selection(&Rect { x: 10, y: 10, width: 0, height: 0 }), None);
    assert_eq!(b.bounds_for_selection(&Rect { x: 10, y: 10, width: 5, height: 0 }), None);
    assert_eq!(b.bounds_for_selection(&Rect { x: 10, y: 10, width: 0, height: 5 }), None);
}

#[test]
fn selection_commit_overhanging_the_grid() {
    // a drag near the bottom edge: the height follows the width and overhangs
    let b = square_bounds();
    let nb = b.bounds_for_selection(&Rect { x: 10, y: 150, width: 50, height: 100 }).unwrap();
    assert_eq!(nb.upper_left, complex(ratio(-4, 5), ratio(-1, 2)));
    assert_eq!(nb.lower_right, complex(ratio(1, 5), ratio(-3, 2)));
    let left = b.bounds_for_selection(&Rect { x: -50, y: 0, width: 100, height: 200 }).unwrap();
    assert_eq!(left.upper_left, complex(whole(-2), whole(1)));
    assert_eq!(left.lower_right, complex(whole(0), whole(-1)));
}

#[test]
fn selection_commit_rejects_corners_out_of_range() {
    let b = square_bounds();
    let far = Rect { x: i64::MAX - 10, y: 0, width: 5, height: 10 };
    assert_eq!(b.bounds_for_selection(&far), None);
    let far = Rect { x: 0, y: i64::MIN, width: 5, height: 10 };
    assert_eq!(b.bounds_for_selection(&far), None);
}

#[test]
fn selection_commit_rejects_zero_width_region() {
    let b = CanvasBounds {
        width: 100,
        height: 200,
        upper_left: complex(Fixed { raw: 0 }, Fixed { raw: 1000 }),
        lower_right: complex(Fixed { raw: 1 }, Fixed { raw: 0 }),
    };
    assert_eq!(b.bounds_for_selection(&Rect { x: 10, y: 10, width: 5, height: 10 }), None);
    assert!(b.bounds_for_selection(&Rect { x: 0, y: 0, width: 100, height: 200 }).is_some());
}

#[test]
fn conjugate_points_agree() {
    let c = complex(Fixed { raw: ONE_RAW - 15 }, Fixed { raw: 3 << 29 });
    let conj = complex(c.re, Fixed { raw: -c.im.raw });
    for limit in [1usize, 2, 3, 10, 200] {
        assert_eq!(
            MandelbrotContext::in_mandelbrot_set(c, limit),
            MandelbrotContext::in_mandelbrot_set(conj, limit)
        );
    }
    let c = complex(ratio(-3, 4), ratio(1, 10));
    let conj = complex(c.re, Fixed { raw: -c.im.raw });
    assert_eq!(
        MandelbrotContext::in_mandelbrot_set(c, 1000),
        MandelbrotContext::in_mandelbrot_set(conj, 1000)
    );
}

#[test]
fn origin_is_bounded() {
    let zero = complex(whole(0), whole(0));
    assert_eq!(MandelbrotContext::in_mandelbrot_set(zero, 1000), Ok(()));
    assert_eq!(MandelbrotContext::in_mandelbrot_set(zero, 1), Ok(()));
}

#[test]
fn far_point_escapes_at_once() {
    let c = complex(whole(3), whole(3));
    assert_eq!(MandelbrotContext::in_mandelbrot_set(c, 1000), Err(0));
    assert_eq!(MandelbrotContext::in_mandelbrot_set(c, 2), Err(0));
    // no iteration allowed: reported bounded
    assert_eq!(MandelbrotContext::in_mandelbrot_set(c, 1), Ok(()));
}

#[test]
fn iteration_is_deterministic() {
    let c = complex(ratio(-3, 4), ratio(1, 10));
    let first = MandelbrotContext::in_mandelbrot_set(c, 500);
    let second = MandelbrotContext::in_mandelbrot_set(c, 500);
    assert_eq!(first, second);
}

#[test]
fn escape_index_of_one() {
    // z1 = 1, z2 = 2 (norm exactly 4, not beyond), z3 = 5
    let c = complex(whole(1), whole(0));
    assert_eq!(MandelbrotContext::in_mandelbrot_set(c, 100), Err(2));
    assert_eq!(MandelbrotContext::in_mandelbrot_set(c, 3), Ok(()));
}

#[test]
fn period_two_point_is_bounded() {
    let c = complex(whole(-1), whole(0));
    assert_eq!(MandelbrotContext::in_mandelbrot_set(c, 10_000), Ok(()));
    let c = complex(whole(-2), whole(0));
    assert_eq!(MandelbrotContext::in_mandelbrot_set(c, 10_000), Ok(()));
}

#[test]
fn color_index_of_bounded_pixel_is_last() {
    let ctx = MandelbrotContext {
        width: 100,
        height: 200,
        upper_left: complex(whole(-1), whole(1)),
        lower_right: complex(whole(1), whole(-1)),
        limit: 255,
    };
    assert_eq!(ctx.color_at_pixel(50, 100), 254);
    let far = MandelbrotContext {
        width: 2,
        height: 2,
        upper_left: complex(whole(3), whole(3)),
        lower_right: complex(whole(4), whole(2)),
        limit: 255,
    };
    assert_eq!(far.color_at_pixel(0, 0), 0);
}

#[test]
fn provider_builds_context_for_bounds() {
    let provider = MandelbrotProvider::new(64);
    assert!(provider.is_valid());
    assert!(!MandelbrotProvider::new(0).is_valid());
    let ctx = provider.new_pixel_compute(square_bounds());
    assert_eq!(ctx.width, 100);
    assert_eq!(ctx.height, 200);
    assert_eq!(ctx.limit, 64);
    assert_eq!(ctx.upper_left, complex(whole(-1), whole(1)));
    assert_eq!(ctx.lower_right, complex(whole(1), whole(-1)));
}
