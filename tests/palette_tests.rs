use mandelbrot::fixed::Fixed;
use mandelbrot::palette::{
    generate_palette_gradient_bicolor, generate_palette_gradient_multiple, validate_gradient_stops, Color,
    PaletteError,
};

const BLACK: Color = Color { r: 0, g: 0, b: 0, a: 255 };
const WHITE: Color = Color { r: 255, g: 255, b: 255, a: 255 };
const RED: Color = Color { r: 255, g: 0, b: 0, a: 255 };

fn pos(num: i64, den: i64) -> Fixed {
    Fixed::from_ratio(num, den)
}

fn luminance(c: &Color) -> u32 {
    299 * c.r as u32 + 587 * c.g as u32 + 114 * c.b as u32
}

#[test]
fn bicolor_runs_from_end_to_start() {
    let t = generate_palette_gradient_bicolor(4, BLACK, WHITE);
    let grey: Vec<u8> = t.iter().map(|c| c.r).collect();
    assert_eq!(grey, vec![255, 191, 127, 63]);
    assert!(t.iter().all(|c| c.a == 255 && c.r == c.g && c.g == c.b));
    assert!(generate_palette_gradient_bicolor(0, BLACK, WHITE).is_empty());
}

#[test]
fn multiple_has_count_entries_and_starts_at_first_stop() {
    let stops = vec![
        (Color { r: 0, g: 0, b: 100, a: 7 }, pos(0, 1)),
        (WHITE, pos(2, 5)),
        (BLACK, pos(1, 2)),
        (Color { r: 0, g: 200, b: 0, a: 255 }, pos(3, 5)),
        (Color { r: 0, g: 0, b: 100, a: 255 }, pos(1, 1)),
    ];
    let t = generate_palette_gradient_multiple(1000, &stops);
    assert_eq!(t.len(), 1000);
    assert_eq!(t[0], Color { r: 0, g: 0, b: 100, a: 255 });
    assert!(t.iter().all(|c| c.a == 255));
}

#[test]
fn multiple_exact_entries() {
    let stops = vec![(BLACK, pos(0, 1)), (WHITE, pos(1, 2)), (RED, pos(1, 1))];
    let t = generate_palette_gradient_multiple(10, &stops);
    let r: Vec<u8> = t.iter().map(|c| c.r).collect();
    let g: Vec<u8> = t.iter().map(|c| c.g).collect();
    assert_eq!(r, vec![0, 25, 51, 76, 102, 255, 255, 255, 255, 255]);
    // the blend uses the whole-table ratio, not the ratio within the segment
    assert_eq!(g, vec![0, 25, 51, 76, 102, 127, 102, 76, 51, 25]);
    assert_eq!(t.iter().map(|c| c.b).collect::<Vec<u8>>(), g);
}

#[test]
fn multiple_skips_segments_narrower_than_an_entry() {
    // stops at 0, 0.1, 0.2, 1 with 2 entries: entry 1 (ratio 0.5) is in the last segment
    let stops = vec![(BLACK, pos(0, 1)), (RED, pos(1, 10)), (WHITE, pos(2, 10)), (BLACK, pos(1, 1))];
    let t = generate_palette_gradient_multiple(2, &stops);
    assert_eq!(t[1], Color { r: 127, g: 127, b: 127, a: 255 });
}

#[test]
fn black_to_white_never_darkens() {
    let stops = vec![(BLACK, pos(0, 1)), (WHITE, pos(1, 1))];
    let t = generate_palette_gradient_multiple(300, &stops);
    assert_eq!(t.len(), 300);
    assert_eq!(t[0], BLACK);
    for w in t.windows(2) {
        assert!(luminance(&w[0]) <= luminance(&w[1]));
    }
}

#[test]
fn zero_entries_give_an_empty_table() {
    let stops = vec![(BLACK, pos(0, 1)), (WHITE, pos(1, 1))];
    assert_eq!(validate_gradient_stops(&stops), Ok(()));
    assert_eq!(generate_palette_gradient_multiple(0, &stops), vec![]);
}

#[test]
fn too_few_stops_are_refused() {
    assert_eq!(validate_gradient_stops(&vec![]), Err(PaletteError::TooFewStops));
    assert_eq!(
        validate_gradient_stops(&vec![(BLACK, pos(0, 1))]),
        Err(PaletteError::TooFewStops)
    );
}

#[test]
fn first_stop_not_at_zero_is_refused() {
    let stops = vec![(BLACK, pos(1, 10)), (WHITE, pos(1, 1))];
    assert_eq!(validate_gradient_stops(&stops), Err(PaletteError::FirstNotAtZero));
}

#[test]
fn last_stop_not_at_one_is_refused() {
    let stops = vec![(BLACK, pos(0, 1)), (WHITE, pos(9, 10))];
    assert_eq!(validate_gradient_stops(&stops), Err(PaletteError::LastNotAtOne));
}

#[test]
fn unordered_stops_are_refused() {
    let stops = vec![(BLACK, pos(0, 1)), (WHITE, pos(1, 2)), (RED, pos(1, 2)), (BLACK, pos(1, 1))];
    assert_eq!(validate_gradient_stops(&stops), Err(PaletteError::NotIncreasing));
}
