//! Color tables from gradient stops.

use vstd::prelude::*;
use vstd::arithmetic::div_mod::{lemma_div_is_ordered, lemma_div_multiples_vanish};

use crate::fixed::{lemma_one_values, one, Fixed, ONE_RAW};

verus! {

/// An RGBA color.
#[derive(Clone, Copy, Debug, PartialEq, Eq, Structural)]
pub struct Color {
    pub r: u8,
    pub g: u8,
    pub b: u8,
    pub a: u8,
}

/// Why a list of gradient stops was refused.
#[derive(Clone, Copy, Debug, PartialEq, Eq, Structural)]
pub enum PaletteError {
    /// Fewer than two stops.
    TooFewStops,
    /// The first stop is not at position 0.
    FirstNotAtZero,
    /// The last stop is not at position 1.
    LastNotAtOne,
    /// Two neighbouring positions are not strictly increasing.
    NotIncreasing,
}

/// The channel `j / count` of the way from `s` to `e`, rounded down.
pub open spec fn blend(s: u8, e: u8, j: int, count: int) -> int {
    (s * (count - j) + e * j) / count
}

/// Each color channel blended from `s` to `e` at `j / count`; fully opaque.
pub open spec fn blend_color(s: Color, e: Color, j: int, count: int) -> Color {
    Color {
        r: blend(s.r, e.r, j, count) as u8,
        g: blend(s.g, e.g, j, count) as u8,
        b: blend(s.b, e.b, j, count) as u8,
        a: 255,
    }
}

/// The raw position of stop `k`.
pub open spec fn position(stops: Seq<(Color, Fixed)>, k: int) -> int {
    stops[k].1.raw as int
}

pub open spec fn positions_increasing(stops: Seq<(Color, Fixed)>) -> bool {
    forall|k: int| 0 < k < stops.len() ==> position(stops, k - 1) < #[trigger] position(stops, k)
}

/// The first rule that a list of stops breaks, if any.
pub open spec fn stops_error(stops: Seq<(Color, Fixed)>) -> Option<PaletteError> {
    if stops.len() < 2 {
        Some(PaletteError::TooFewStops)
    } else if position(stops, 0) != 0 {
        Some(PaletteError::FirstNotAtZero)
    } else if position(stops, stops.len() - 1) != one() {
        Some(PaletteError::LastNotAtOne)
    } else if !positions_increasing(stops) {
        Some(PaletteError::NotIncreasing)
    } else {
        None
    }
}

/// The ratio `i / count` has reached the position of stop `s + 1`.
pub open spec fn passes(stops: Seq<(Color, Fixed)>, s: int, i: int, count: int) -> bool {
    i * one() >= position(stops, s + 1) * count
}

/// The segment that the search reaches from `s` for entry `i`: it moves on
/// while the ratio has reached the next stop, short of the last segment.
pub open spec fn segment_from(stops: Seq<(Color, Fixed)>, s: nat, i: int, count: int) -> nat
    decreases stops.len() - s,
{
    if s + 2 < stops.len() && passes(stops, s as int, i, count) {
        segment_from(stops, s + 1, i, count)
    } else {
        s
    }
}

/// Entry `i` of a table of `count` colors: the colors of the segment's two
/// stops blended at the ratio `i / count` (not renormalised to the segment).
pub open spec fn gradient_color(stops: Seq<(Color, Fixed)>, count: int, i: int) -> Color {
    let s = segment_from(stops, 0, i, count) as int;
    blend_color(stops[s].0, stops[s + 1].0, i, count)
}

/// The search passes every stop between its start and its end.
proof fn lemma_segment_passes(stops: Seq<(Color, Fixed)>, s: nat, i: int, count: int)
    ensures
        s <= segment_from(stops, s, i, count),
        forall|t: int|
            s <= t < segment_from(stops, s, i, count) ==> #[trigger] passes(stops, t, i, count),
        s + 2 <= stops.len() ==> segment_from(stops, s, i, count) + 2 <= stops.len(),
    decreases stops.len() - s,
{
    if s + 2 < stops.len() && passes(stops, s as int, i, count) {
        lemma_segment_passes(stops, s + 1, i, count);
    }
}

/// A search that starts later, past stops that are all passed, ends where
/// one from `from` ends.
proof fn lemma_segment_resume(stops: Seq<(Color, Fixed)>, from: nat, s: nat, i: int, count: int)
    requires
        from <= s,
        s + 2 <= stops.len(),
        forall|t: int| from <= t < s ==> #[trigger] passes(stops, t, i, count),
    ensures
        segment_from(stops, from, i, count) == segment_from(stops, s, i, count),
    decreases s - from,
{
    if from < s {
        assert(passes(stops, from as int, i, count));
        lemma_segment_resume(stops, from + 1, s, i, count);
    }
}

/// `blend` is non-decreasing in `j` when the ramp rises.
proof fn lemma_blend_monotone(s: u8, e: u8, i: int, j: int, count: int)
    requires
        s <= e,
        0 <= i <= j <= count,
        count > 0,
    ensures
        blend(s, e, i, count) <= blend(s, e, j, count),
{
    assert(s * (count - i) + e * i <= s * (count - j) + e * j) by (nonlinear_arith)
        requires
            s <= e,
            i <= j,
    ;
    lemma_div_is_ordered(s * (count - i) + e * i, s * (count - j) + e * j, count);
}

/// Of a valid list of stops, entry 0 of every table holds the first stop's
/// color, made opaque.
pub proof fn lemma_first_entry_is_first_stop(stops: Seq<(Color, Fixed)>, count: int)
    requires
        stops_error(stops) is None,
        count > 0,
    ensures
        gradient_color(stops, count, 0) == (Color { r: stops[0].0.r, g: stops[0].0.g, b: stops[0].0.b, a: 255 }),
{
    assert(position(stops, 0) < position(stops, 1));
    assert(position(stops, 1) * count > 0) by (nonlinear_arith)
        requires
            position(stops, 1) > 0,
            count > 0,
    ;
    assert(segment_from(stops, 0, 0, count) == 0);
    let c = stops[0].0;
    lemma_div_multiples_vanish(c.r as int, count);
    lemma_div_multiples_vanish(c.g as int, count);
    lemma_div_multiples_vanish(c.b as int, count);
    assert(c.r * (count - 0) + stops[1].0.r * 0 == c.r * count) by (nonlinear_arith);
    assert(c.g * (count - 0) + stops[1].0.g * 0 == c.g * count) by (nonlinear_arith);
    assert(c.b * (count - 0) + stops[1].0.b * 0 == c.b * count) by (nonlinear_arith);
}

/// A two-stop ramp whose end is at least as bright as its start, channel by
/// channel (black to white, say), gives a table that never darkens: each
/// channel is non-decreasing along the table.
pub proof fn lemma_two_stop_ramp_monotone(stops: Seq<(Color, Fixed)>, count: int, i: int, j: int)
    requires
        stops.len() == 2,
        stops[0].0.r <= stops[1].0.r,
        stops[0].0.g <= stops[1].0.g,
        stops[0].0.b <= stops[1].0.b,
        0 <= i <= j < count,
    ensures
        gradient_color(stops, count, i).r <= gradient_color(stops, count, j).r,
        gradient_color(stops, count, i).g <= gradient_color(stops, count, j).g,
        gradient_color(stops, count, i).b <= gradient_color(stops, count, j).b,
{
    let (s, e) = (stops[0].0, stops[1].0);
    lemma_blend_monotone(s.r, e.r, i, j, count);
    lemma_blend_monotone(s.g, e.g, i, j, count);
    lemma_blend_monotone(s.b, e.b, i, j, count);
    lemma_blend_range(s.r, e.r, i, count);
    lemma_blend_range(s.r, e.r, j, count);
    lemma_blend_range(s.g, e.g, i, count);
    lemma_blend_range(s.g, e.g, j, count);
    lemma_blend_range(s.b, e.b, i, count);
    lemma_blend_range(s.b, e.b, j, count);
}

/// A blend stays within the channel range.
proof fn lemma_blend_range(s: u8, e: u8, j: int, count: int)
    requires
        0 <= j <= count,
        count > 0,
    ensures
        0 <= blend(s, e, j, count) <= 255,
{
    assert(0 <= s * (count - j) + e * j <= 255 * count) by (nonlinear_arith)
        requires
            s <= 255,
            e <= 255,
            0 <= j <= count,
    ;
    lemma_div_is_ordered(0, s * (count - j) + e * j, count);
    lemma_div_is_ordered(s * (count - j) + e * j, 255 * count, count);
    lemma_div_multiples_vanish(255, count);
    lemma_div_multiples_vanish(0, count);
}

fn blend_channel(s: u8, e: u8, j: usize, count: usize) -> (r: u8)
    requires
        0 < count,
        j <= count,
    ensures
        r == blend(s, e, j as int, count as int),
{
    proof {
        assert(s * (count - j) <= 255 * 0xffff_ffff_ffff_ffff && e * j <= 255 * 0xffff_ffff_ffff_ffff)
            by (nonlinear_arith)
            requires
                s <= 255,
                e <= 255,
                0 <= j <= count <= 0xffff_ffff_ffff_ffff,
        ;
    }
    let num: u128 = (s as u128) * ((count - j) as u128) + (e as u128) * (j as u128);
    proof {
        assert(num <= 255 * count) by (nonlinear_arith)
            requires
                num == s * (count - j) + e * j,
                s <= 255,
                e <= 255,
                j <= count,
        ;
        lemma_div_is_ordered(num as int, 255 * count, count as int);
        lemma_div_multiples_vanish(255, count as int);
    }
    (num / (count as u128)) as u8
}

fn blend_colors(s: &Color, e: &Color, j: usize, count: usize) -> (r: Color)
    requires
        0 < count,
        j <= count,
    ensures
        r == blend_color(*s, *e, j as int, count as int),
{
    Color {
        r: blend_channel(s.r, e.r, j, count),
        g: blend_channel(s.g, e.g, j, count),
        b: blend_channel(s.b, e.b, j, count),
        a: 255,
    }
}

/// A table of `count` colors going from `color_end` (entry 0) toward
/// `color_start`: entry `i` blends at the ratio `(count - i) / count`.
pub fn generate_palette_gradient_bicolor(count: usize, color_start: Color, color_end: Color) -> (r: Vec<Color>)
    ensures
        r@.len() == count,
        forall|i: int|
            0 <= i < count ==> #[trigger] r@[i] == blend_color(color_start, color_end, count - i, count as int),
{
    let mut palette: Vec<Color> = Vec::with_capacity(count);
    let mut i: usize = 0;
    while i < count
        invariant
            i <= count,
            palette@.len() == i,
            forall|k: int|
                0 <= k < i ==> palette@[k] == #[trigger] blend_color(color_start, color_end, count - k, count as int),
        decreases count - i,
    {
        palette.push(blend_colors(&color_start, &color_end, count - i, count));
        i = i + 1;
    }
    palette
}

/// Checks a list of gradient stops `(color, position)`: at least two,
/// starting at position 0, ending at position 1, positions strictly
/// increasing. Reports the first rule broken.
pub fn validate_gradient_stops(colors: &Vec<(Color, Fixed)>) -> (r: Result<(), PaletteError>)
    ensures
        match r {
            Ok(()) => stops_error(colors@) is None,
            Err(e) => stops_error(colors@) == Some(e),
        },
{
    let len = colors.len();
    if len < 2 {
        return Err(PaletteError::TooFewStops);
    }
    if colors[0].1.raw != 0 {
        return Err(PaletteError::FirstNotAtZero);
    }
    if colors[len - 1].1.raw != ONE_RAW {
        return Err(PaletteError::LastNotAtOne);
    }
    let mut k: usize = 1;
    while k < len
        invariant
            1 <= k <= len,
            len == colors@.len(),
            len >= 2,
            position(colors@, 0) == 0,
            position(colors@, len - 1) == one(),
            forall|t: int| 0 < t < k ==> position(colors@, t - 1) < #[trigger] position(colors@, t),
        decreases len - k,
    {
        if colors[k - 1].1.raw >= colors[k].1.raw {
            proof {
                assert(!(position(colors@, k - 1) < position(colors@, k as int)));
            }
            return Err(PaletteError::NotIncreasing);
        }
        k = k + 1;
    }
    Ok(())
}

/// A table of `count` colors from a valid list of gradient stops
/// `(color, position)` (see `validate_gradient_stops`; an invalid list is a
/// configuration error that the caller rejects before building).
pub fn generate_palette_gradient_multiple(count: usize, colors: &Vec<(Color, Fixed)>) -> (r: Vec<Color>)
    requires
        stops_error(colors@) is None,
    ensures
        r@.len() == count,
        forall|i: int| 0 <= i < count ==> #[trigger] r@[i] == gradient_color(colors@, count as int, i),
{
    let len = colors.len();
    proof {
        lemma_one_values();
    }
    let mut palette: Vec<Color> = Vec::with_capacity(count);
    let mut color_index: usize = 0;
    let mut i: usize = 0;
    while i < count
        invariant
            i <= count,
            len == colors@.len(),
            len >= 2,
            color_index + 2 <= len,
            one() == 72057594037927936,
            forall|t: int| 0 <= t < color_index ==> #[trigger] passes(colors@, t, i as int, count as int),
            palette@.len() == i,
            forall|q: int|
                0 <= q < i ==> palette@[q] == #[trigger] gradient_color(colors@, count as int, q),
        decreases count - i,
    {
        let ghost start = color_index;
        let scaled_ratio: i128 = (i as i128) * (ONE_RAW as i128);
        loop
            invariant
                color_index + 2 <= len,
                len == colors@.len(),
                start <= color_index,
                scaled_ratio == i * one(),
                segment_from(colors@, start as nat, i as int, count as int) == segment_from(colors@, color_index as nat, i as int, count as int),
                forall|t: int| 0 <= t < color_index ==> #[trigger] passes(colors@, t, i as int, count as int),
            ensures
                segment_from(colors@, color_index as nat, i as int, count as int) == color_index,
            decreases len - color_index,
        {
            if color_index + 2 >= len {
                break;
            }
            proof {
                let p = colors@[color_index + 1].1.raw;
                assert(-0x8000_0000_0000_0000_0000_0000_0000_0000 < p * count < 0x8000_0000_0000_0000_0000_0000_0000_0000)
                    by (nonlinear_arith)
                    requires
                        i64::MIN <= p <= i64::MAX,
                        0 <= count <= u64::MAX,
                ;
            }
            let threshold: i128 = (colors[color_index + 1].1.raw as i128) * (count as i128);
            if scaled_ratio < threshold {
                break;
            }
            color_index = color_index + 1;
        }
        proof {
            lemma_segment_resume(colors@, 0, start as nat, i as int, count as int);
            assert(segment_from(colors@, 0, i as int, count as int) == color_index);
        }
        palette.push(blend_colors(&colors[color_index].0, &colors[color_index + 1].0, i, count));
        proof {
            assert forall|t: int| 0 <= t < color_index implies #[trigger] passes(colors@, t, i + 1, count as int) by {
                assert(passes(colors@, t, i as int, count as int));
                assert(i * one() <= (i + 1) * one()) by (nonlinear_arith)
                    requires
                        one() > 0,
                ;
            }
        }
        i = i + 1;
    }
    palette
}

} // verus!
