use std::time::Duration;

use mandelbrot::display::Rect;
use mandelbrot::fixed::{Complex, Fixed};
use mandelbrot::mandelbrot::MandelbrotContext;
use mandelbrot::palette::{generate_palette_gradient_bicolor, Color};
use mandelbrot::renderer::{background_color, PixelRenderer};
use mandelbrot::selection::{CanvasSelection, MouseSelection, MouseState};

fn context() -> MandelbrotContext {
    MandelbrotContext {
        width: 4,
        height: 3,
        upper_left: Complex { re: Fixed::from_int(-2), im: Fixed::from_int(1) },
        lower_right: Complex { re: Fixed::from_int(1), im: Fixed::from_int(-1) },
        limit: 8,
    }
}

fn palette() -> Vec<Color> {
    generate_palette_gradient_bicolor(
        8,
        Color { r: 0, g: 0, b: 0, a: 255 },
        Color { r: 255, g: 255, b: 255, a: 255 },
    )
}

#[test]
fn new_scanner_is_background_filled() {
    let palette = palette();
    let renderer = PixelRenderer::new(context(), &palette);
    assert!(renderer.is_rendering());
    assert_eq!(renderer.pixels().len(), 12);
    assert!(renderer.pixels().iter().all(|c| *c == background_color()));
    assert_eq!(background_color(), Color { r: 77, g: 77, b: 170, a: 255 });
}

#[test]
fn full_scan_writes_every_pixel_in_row_major_order() {
    let palette = palette();
    let mut renderer = PixelRenderer::new(context(), &palette);
    let reference = context();
    let mut calls = 0;
    let mut done_before = 0;
    while renderer.is_rendering() {
        renderer.update(&Duration::ZERO);
        calls += 1;
        let done = renderer.pixels().iter().take_while(|c| **c != background_color()).count();
        assert!(done > done_before || !renderer.is_rendering());
        done_before = done;
        assert!(calls <= 12);
    }
    for y in 0..3u32 {
        for x in 0..4u32 {
            let expected = palette[reference.color_at_pixel(x, y)];
            assert_eq!(renderer.pixels()[(y * 4 + x) as usize], expected);
        }
    }
    // a finished scan stays finished
    let before: Vec<Color> = renderer.pixels().to_vec();
    renderer.update(&Duration::from_secs(1));
    assert_eq!(renderer.pixels().to_vec(), before);
}

#[test]
fn long_budget_completes_in_one_call() {
    let palette = palette();
    let mut renderer = PixelRenderer::new(context(), &palette);
    renderer.update(&Duration::from_secs(3600));
    assert!(!renderer.is_rendering());
    assert_eq!((renderer.width(), renderer.height()), (4, 3));
}

fn mouse(left: bool, x: i32, y: i32) -> MouseState {
    MouseState { left, x, y }
}

#[test]
fn drag_yields_one_selection() {
    let mut sel = MouseSelection::new(160, 90);
    assert_eq!(sel.update_selection(mouse(false, 5, 5)), CanvasSelection::Idle);
    assert_eq!(
        sel.update_selection(mouse(true, 10, 10)),
        CanvasSelection::OnGoing(Rect { x: 10, y: 10, width: 0, height: 0 })
    );
    assert_eq!(
        sel.update_selection(mouse(true, 42, 30)),
        CanvasSelection::OnGoing(Rect { x: 10, y: 10, width: 32, height: 18 })
    );
    assert_eq!(
        sel.update_selection(mouse(true, -6, 0)),
        CanvasSelection::OnGoing(Rect { x: -6, y: 1, width: 16, height: 9 })
    );
    assert_eq!(
        sel.update_selection(mouse(false, -6, 0)),
        CanvasSelection::Selected(Rect { x: -6, y: 1, width: 16, height: 9 })
    );
    assert_eq!(sel.update_selection(mouse(false, -6, 0)), CanvasSelection::Idle);
}

#[test]
fn drag_height_follows_width_downward() {
    let mut sel = MouseSelection::new(100, 200);
    sel.update_selection(mouse(true, 50, 50));
    // the vertical distance is ignored: height = width * 200 / 100
    assert_eq!(
        sel.update_selection(mouse(true, 60, 51)),
        CanvasSelection::OnGoing(Rect { x: 50, y: 50, width: 10, height: 20 })
    );
    // a horizontal drag with no vertical move extends upward
    assert_eq!(
        sel.update_selection(mouse(true, 60, 50)),
        CanvasSelection::OnGoing(Rect { x: 50, y: 30, width: 10, height: 20 })
    );
}

#[test]
fn click_without_drag_selects_an_empty_rect() {
    let mut sel = MouseSelection::new(100, 100);
    sel.update_selection(mouse(true, 7, 8));
    assert_eq!(
        sel.update_selection(mouse(false, 7, 8)),
        CanvasSelection::Selected(Rect { x: 7, y: 8, width: 0, height: 0 })
    );
}
