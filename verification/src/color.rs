//! RGB colours and the distance between them.

use vstd::prelude::*;

verus! {

/// A colour as its red, green and blue channels.
pub type Color = (u8, u8, u8);

/// The square of a number.
pub open spec fn square(x: int) -> int {
    x * x
}

/// The squared Euclidean distance between two colours in RGB space.
///
/// Euclidean distance is the square root of this number, and the square root
/// is strictly increasing, so two colours compare by this number exactly as
/// they compare by their Euclidean distance.
pub open spec fn distance_squared(a: Color, b: Color) -> int {
    square(a.0 - b.0) + square(a.1 - b.1) + square(a.2 - b.2)
}

/// Whether two colours agree in every channel.
pub fn same_color(a: &Color, b: &Color) -> (same: bool)
    ensures
        same == (*a == *b),
{
    a.0 == b.0 && a.1 == b.1 && a.2 == b.2
}

/// The absolute difference of two channel values.
fn channel_gap(a: u8, b: u8) -> (gap: u32)
    ensures
        gap == if a >= b { a - b } else { b - a },
        gap <= 255,
{
    if a >= b {
        (a - b) as u32
    } else {
        (b - a) as u32
    }
}

/// Computes the squared Euclidean distance between `src` and `dst`.
pub fn color_distance_squared(src: &Color, dst: &Color) -> (d: u32)
    ensures
        d == distance_squared(*src, *dst),
        d <= 195075,
{
    let dr = channel_gap(src.0, dst.0);
    let dg = channel_gap(src.1, dst.1);
    let db = channel_gap(src.2, dst.2);
    assert(dr * dr == square(src.0 - dst.0) && dr * dr <= 65025) by (nonlinear_arith)
        requires
            dr == if src.0 >= dst.0 { src.0 - dst.0 } else { dst.0 - src.0 },
            dr <= 255,
    ;
    assert(dg * dg == square(src.1 - dst.1) && dg * dg <= 65025) by (nonlinear_arith)
        requires
            dg == if src.1 >= dst.1 { src.1 - dst.1 } else { dst.1 - src.1 },
            dg <= 255,
    ;
    assert(db * db == square(src.2 - dst.2) && db * db <= 65025) by (nonlinear_arith)
        requires
            db == if src.2 >= dst.2 { src.2 - dst.2 } else { dst.2 - src.2 },
            db <= 255,
    ;
    dr * dr + dg * dg + db * db
}

} // verus!
