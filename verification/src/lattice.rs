//! The lattice of candidate colours: each channel is cut into cells of equal
//! width, and every combination of one cell per channel gives one colour.
//!
//! For `n` countries a cell is `256 / cbrt(n)` wide, so that about `n`
//! colours come out. The cube root is a real number; what is asked of it here
//! is asked of its cube, which keeps the arithmetic in the integers.

use vstd::prelude::*;
use crate::color::Color;
use crate::palette::Palette;

verus! {

/// Why no palette was generated.
#[derive(Debug, Clone, Copy, PartialEq, Eq, Structural)]
pub enum PaletteError {
    /// The number of countries is zero.
    InvalidArgument,
}

/// The third power of a number.
#[verifier::opaque]
pub open spec fn cube(x: int) -> int {
    x * x * x
}

/// Whether cell `k` of a channel begins within the channel: its lower bound
/// `k * 256 / cbrt(n)` is at most 255.
pub open spec fn cell_in_range(n: nat, k: nat) -> bool {
    cube(256 * k as int) <= cube(255) * n
}

/// Whether the centre of cell `k`, rounded to the nearest integer (halves
/// away from zero), is at least `m`: the centre `(2k + 1) * 128 / cbrt(n)` is
/// at least `m - 1/2`.
pub open spec fn centre_reaches(n: nat, k: nat, m: int) -> bool {
    cube(2 * m - 1) * n <= cube(256 * (2 * k + 1) as int)
}

/// The greatest number from 1 to `m` that the rounded centre of cell `k`
/// reaches, or 0 where it reaches none of them.
pub open spec fn highest_reached(n: nat, k: nat, m: int) -> int
    decreases m,
{
    if m <= 0 {
        0
    } else if centre_reaches(n, k, m) {
        m
    } else {
        highest_reached(n, k, m - 1)
    }
}

/// The channel value that stands for cell `k`: the rounded centre of the
/// cell, and 255 where that is more than a byte holds.
pub open spec fn channel_value(n: nat, k: nat) -> int {
    highest_reached(n, k, 255)
}

/// Whether `v` is the channel value of one of the cells.
pub open spec fn is_level(n: nat, v: int) -> bool {
    exists|k: nat| #![trigger channel_value(n, k)] cell_in_range(n, k) && channel_value(n, k) == v
}

/// Whether one of the bytes of `levels` is the number `v`.
pub open spec fn holds_value(levels: Seq<u8>, v: int) -> bool {
    exists|i: int| 0 <= i < levels.len() && #[trigger] levels[i] == v
}

/// Whether `levels` lists the channel values of the cells for `n` countries,
/// each once, in ascending order.
pub open spec fn is_level_list(n: nat, levels: Seq<u8>) -> bool {
    &&& forall|i: int, j: int| 0 <= i < j < levels.len() ==> levels[i] < levels[j]
    &&& forall|v: u8| levels.contains(v) <==> is_level(n, v as int)
}

/// Whether `c` is a colour of the lattice for `n` countries: each of its
/// channels holds the value of a cell.
pub open spec fn is_lattice_color(n: nat, c: Color) -> bool {
    is_level(n, c.0 as int) && is_level(n, c.1 as int) && is_level(n, c.2 as int)
}

/// Whether `a` comes before `b` when colours are ordered by red, then green,
/// then blue.
pub open spec fn color_before(a: Color, b: Color) -> bool {
    a.0 < b.0 || (a.0 == b.0 && (a.1 < b.1 || (a.1 == b.1 && a.2 < b.2)))
}

/// Whether `colors` is the lattice for `n` countries: it holds the colours
/// of the lattice and no others, in ascending order.
pub open spec fn is_lattice(n: nat, colors: Seq<Color>) -> bool {
    &&& forall|c: Color| colors.contains(c) <==> is_lattice_color(n, c)
    &&& forall|i: int, j: int|
        0 <= i < j < colors.len() ==> color_before(#[trigger] colors[i], #[trigger] colors[j])
}

/// Colours in ascending order are all different.
pub proof fn lemma_ascending_colors_distinct(colors: Seq<Color>)
    requires
        forall|i: int, j: int|
            0 <= i < j < colors.len() ==> color_before(#[trigger] colors[i], #[trigger] colors[j]),
    ensures
        colors.no_duplicates(),
{
    assert forall|i: int, j: int| 0 <= i < colors.len() && 0 <= j < colors.len() && i != j implies colors[i]
        != colors[j] by {
        if i < j {
            assert(color_before(colors[i], colors[j]));
        } else {
            assert(color_before(colors[j], colors[i]));
        }
    }
}

/// The same number of countries always gives the same lattice.
pub proof fn lemma_lattice_unique(n: nat, a: Seq<Color>, b: Seq<Color>)
    requires
        is_lattice(n, a),
        is_lattice(n, b),
    ensures
        a == b,
{
    lemma_ascending_agree(a, b, a.len() as int);
    lemma_ascending_agree(b, a, b.len() as int);
    if a.len() < b.len() {
        let extra = b[a.len() as int];
        assert(b.contains(extra));
        assert(a.contains(extra));
        let p = choose|p: int| 0 <= p < a.len() && a[p] == extra;
        assert(color_before(b[p], b[a.len() as int]));
    } else if b.len() < a.len() {
        let extra = a[b.len() as int];
        assert(a.contains(extra));
        assert(b.contains(extra));
        let p = choose|p: int| 0 <= p < b.len() && b[p] == extra;
        assert(color_before(a[p], a[b.len() as int]));
    }
    assert(a =~= b);
}

/// Two ascending sequences with the same colours agree on the first `upto`
/// places of the first.
proof fn lemma_ascending_agree(a: Seq<Color>, b: Seq<Color>, upto: int)
    requires
        forall|c: Color| a.contains(c) <==> b.contains(c),
        forall|i: int, j: int|
            0 <= i < j < a.len() ==> color_before(#[trigger] a[i], #[trigger] a[j]),
        forall|i: int, j: int|
            0 <= i < j < b.len() ==> color_before(#[trigger] b[i], #[trigger] b[j]),
        0 <= upto <= a.len(),
    ensures
        upto <= b.len(),
        forall|p: int| 0 <= p < upto ==> a[p] == b[p],
    decreases upto,
{
    if upto > 0 {
        lemma_ascending_agree(a, b, upto - 1);
        let p = upto - 1;
        let x = a[p];
        assert(a.contains(x));
        assert(b.contains(x));
        let q = choose|q: int| 0 <= q < b.len() && b[q] == x;
        if q < p {
            assert(color_before(a[q], a[p]));
        } else if q > p {
            let y = b[p];
            assert(b.contains(y));
            assert(a.contains(y));
            let r = choose|r: int| 0 <= r < a.len() && a[r] == y;
            assert(color_before(b[p], b[q]));
            if r < p {
                assert(color_before(b[r], b[p]));
            } else if r > p {
                assert(color_before(a[p], a[r]));
            }
        }
    }
}

/// Cubing keeps the order of numbers that are not negative.
pub proof fn lemma_cube_monotone(a: int, b: int)
    requires
        0 <= a <= b,
    ensures
        0 <= cube(a) <= cube(b),
{
    reveal(cube);
    assert(0 <= a * a * a <= b * b * b) by (nonlinear_arith)
        requires
            0 <= a <= b,
    ;
}

/// The cubes of the constants that the lattice is measured with.
proof fn lemma_cube_constants()
    ensures
        cube(255) == 16581375,
        cube(509) == 131872229,
        cube(0x4000_0000) == 0x400_0000_0000_0000_0000_0000,
{
    reveal(cube);
    assert(255 * 255 * 255 == 16581375) by (nonlinear_arith);
    assert(509 * 509 * 509 == 131872229) by (nonlinear_arith);
    assert(0x4000_0000 * 0x4000_0000 * 0x4000_0000 == 0x400_0000_0000_0000_0000_0000)
        by (nonlinear_arith);
}

/// A cell before a cell that begins within the channel begins within it too.
pub proof fn lemma_cells_downward(n: nat, k: nat, later: nat)
    requires
        k <= later,
        cell_in_range(n, later),
    ensures
        cell_in_range(n, k),
{
    lemma_cube_monotone(256 * k as int, 256 * later as int);
}

/// For a number of countries that a machine word holds, the cells that begin
/// within the channel are fewer than 2^22.
pub proof fn lemma_cells_bounded(n: nat, k: nat)
    requires
        n <= 0xffff_ffff_ffff_ffff,
        cell_in_range(n, k),
    ensures
        k < 0x40_0000,
{
    if k >= 0x40_0000 {
        let x = 256 * k as int;
        lemma_cube_monotone(0x4000_0000, x);
        lemma_cube_constants();
        assert(cube(x) >= 0x400_0000_0000_0000_0000_0000);
        assert(cube(255) * n <= 16581375 * 0xffff_ffff_ffff_ffff) by (nonlinear_arith)
            requires
                cube(255) == 16581375,
                n <= 0xffff_ffff_ffff_ffff,
        ;
    }
}

/// The channel value is a byte, and no cell has a lower one than the cell
/// before it.
pub proof fn lemma_channel_value(n: nat, k: nat)
    ensures
        0 <= channel_value(n, k) <= 255,
        channel_value(n, k) <= channel_value(n, k + 1),
{
    lemma_highest_reached(n, k, 255);
}

proof fn lemma_highest_reached(n: nat, k: nat, m: int)
    requires
        m <= 255,
    ensures
        0 <= highest_reached(n, k, m) <= 255,
        highest_reached(n, k, m) <= m || m < 0,
        highest_reached(n, k, m) <= highest_reached(n, k + 1, m),
    decreases m,
{
    if m > 0 {
        lemma_highest_reached(n, k, m - 1);
        if centre_reaches(n, k, m) {
            lemma_cube_monotone(256 * (2 * k + 1) as int, 256 * (2 * (k + 1) + 1) as int);
        }
    }
}

/// Computes the third power of `x`.
fn cube_of(x: u128) -> (c: u128)
    requires
        x <= 0x1_0000_0000,
    ensures
        c == cube(x as int),
        c <= 0x1_0000_0000_0000_0000_0000_0000,
{
    reveal(cube);
    assert(x * x <= 0x1_0000_0000_0000_0000 && x * x * x <= 0x1_0000_0000_0000_0000_0000_0000)
        by (nonlinear_arith)
        requires
            x <= 0x1_0000_0000,
    ;
    x * x * x
}

/// Tells whether cell `k` begins within the channel.
fn cell_begins_in_range(n: u128, k: u128) -> (within: bool)
    requires
        n <= 0xffff_ffff_ffff_ffff,
        k <= 0x40_0000,
    ensures
        within == cell_in_range(n as nat, k as nat),
{
    proof {
        lemma_cube_constants();
    }
    cube_of(256 * k) <= 16581375 * n
}

/// Computes the channel value of cell `k`.
fn channel_value_of(n: u128, k: u128) -> (v: u8)
    requires
        n <= 0xffff_ffff_ffff_ffff,
        k <= 0x40_0000,
    ensures
        v == channel_value(n as nat, k as nat),
{
    let centre = cube_of(256 * (2 * k + 1));
    let mut m: u8 = 255;
    while m > 0
        invariant
            n <= 0xffff_ffff_ffff_ffff,
            centre == cube(256 * (2 * k + 1)),
            channel_value(n as nat, k as nat) == highest_reached(n as nat, k as nat, m as int),
        decreases m,
    {
        let t = cube_of(2 * (m as u128) - 1);
        proof {
            lemma_cube_monotone(2 * m - 1, 509);
            lemma_cube_constants();
            assert(t * n <= 131872229 * 0xffff_ffff_ffff_ffff) by (nonlinear_arith)
                requires
                    0 <= t <= 131872229,
                    0 <= n <= 0xffff_ffff_ffff_ffff,
            ;
        }
        if t * n <= centre {
            return m;
        }
        m -= 1;
    }
    0
}

/// Lists the channel values of the cells for `n` countries, each once, in
/// ascending order.
fn channel_levels(n: u128) -> (levels: Vec<u8>)
    requires
        1 <= n <= 0xffff_ffff_ffff_ffff,
    ensures
        is_level_list(n as nat, levels@),
{
    let mut levels: Vec<u8> = Vec::new();
    let mut k: u128 = 0;
    while cell_begins_in_range(n, k)
        invariant
            1 <= n <= 0xffff_ffff_ffff_ffff,
            k <= 0x40_0000,
            forall|i: int, j: int| 0 <= i < j < levels@.len() ==> levels@[i] < levels@[j],
            forall|i: int| 0 <= i < levels@.len() ==> is_level(n as nat, (#[trigger] levels@[i]) as int),
            forall|j: nat| j < k ==> #[trigger] cell_in_range(n as nat, j),
            forall|j: nat| j < k ==> holds_value(levels@, #[trigger] channel_value(n as nat, j)),
            k == 0 ==> levels@.len() == 0,
            k > 0 ==> levels@.len() > 0 && levels@.last() == channel_value(
                n as nat,
                (k - 1) as nat,
            ),
        decreases 0x40_0000 - k,
    {
        proof {
            lemma_cells_bounded(n as nat, k as nat);
            lemma_channel_value(n as nat, k as nat);
            if k > 0 {
                lemma_channel_value(n as nat, (k - 1) as nat);
            }
        }
        let v = channel_value_of(n, k);
        let ghost before = levels@;
        if levels.len() == 0 || levels[levels.len() - 1] != v {
            levels.push(v);
        }
        proof {
            let after = levels@;
            assert(after.len() > 0 && after.last() == v);
            assert forall|i: int, j: int| 0 <= i < j < after.len() implies after[i] < after[j] by {
                if j == before.len() {
                    assert(k > 0);
                    assert(before.last() == channel_value(n as nat, (k - 1) as nat));
                    assert(((k - 1) as nat) + 1 == k as nat);
                    assert(before.last() < v);
                    if i < before.len() - 1 {
                        assert(before[i] < before[before.len() - 1]);
                    }
                }
            }
            assert forall|i: int| 0 <= i < after.len() implies is_level(
                n as nat,
                (#[trigger] after[i]) as int,
            ) by {
                if i < before.len() {
                    assert(after[i] == before[i]);
                } else {
                    assert(cell_in_range(n as nat, k as nat) && channel_value(n as nat, k as nat)
                        == v);
                }
            }
            assert forall|j: nat| j < k + 1 implies holds_value(
                after,
                #[trigger] channel_value(n as nat, j),
            ) by {
                if j < k {
                    let w = channel_value(n as nat, j);
                    assert(holds_value(before, w));
                    let i = choose|i: int| 0 <= i < before.len() && before[i] == w;
                    assert(after[i] == w);
                } else {
                    assert(after[after.len() - 1] == v);
                }
            }
        }
        k += 1;
    }
    proof {
        assert forall|v: u8| levels@.contains(v) <==> is_level(n as nat, v as int) by {
            if levels@.contains(v) {
                let i = choose|i: int| 0 <= i < levels@.len() && levels@[i] == v;
                assert(is_level(n as nat, levels@[i] as int));
            }
            if is_level(n as nat, v as int) {
                let j = choose|j: nat|
                    #![trigger channel_value(n as nat, j)]
                    cell_in_range(n as nat, j) && channel_value(n as nat, j) == v as int;
                if j >= k {
                    lemma_cells_downward(n as nat, k as nat, j);
                }
                assert(j < k);
                assert(holds_value(levels@, channel_value(n as nat, j)));
                let i = choose|i: int| 0 <= i < levels@.len() && levels@[i] == v as int;
                assert(levels@[i] == v);
            }
        }
    }
    levels
}

/// Whether place `s` comes before place `t` when places are ordered by
/// their first, then second, then third index.
spec fn place_before(s: (int, int, int), t: (int, int, int)) -> bool {
    s.0 < t.0 || (s.0 == t.0 && (s.1 < t.1 || (s.1 == t.1 && s.2 < t.2)))
}

/// Whether each index of place `t` is an index into a list of `len` levels.
spec fn place_in_bounds(t: (int, int, int), len: int) -> bool {
    0 <= t.0 < len && 0 <= t.1 < len && 0 <= t.2 < len
}

/// The colour at place `t`: one level for each channel.
spec fn color_at(levels: Seq<u8>, t: (int, int, int)) -> Color {
    (levels[t.0], levels[t.1], levels[t.2])
}

/// Whether `places` holds the place `t`.
spec fn holds_place(places: Seq<(int, int, int)>, t: (int, int, int)) -> bool {
    exists|p: int| 0 <= p < places.len() && #[trigger] places[p] == t
}

/// The number of places before the place `(a, b, c)` of a cube with `len`
/// places along each edge.
spec fn places_before(a: int, b: int, c: int, len: int) -> int {
    (a * len + b) * len + c
}

/// Going one place on in the cube passes one place more.
proof fn lemma_next_place(a: int, b: int, c: int, len: int)
    requires
        0 <= a < len,
        0 <= b < len,
        0 <= c < len,
    ensures
        c + 1 < len ==> places_before(a, b, c + 1, len) == places_before(a, b, c, len) + 1,
        c + 1 == len && b + 1 < len ==> places_before(a, b + 1, 0, len) == places_before(
            a,
            b,
            c,
            len,
        ) + 1,
        c + 1 == len && b + 1 == len ==> places_before(a + 1, 0, 0, len) == places_before(
            a,
            b,
            c,
            len,
        ) + 1,
{
    assert((a * len + b + 1) * len == (a * len + b) * len + len) by (nonlinear_arith);
    assert((a + 1) * len == a * len + len) by (nonlinear_arith);
}

/// Lists every combination of three of the levels, in ascending order.
fn combinations(levels: &Vec<u8>) -> (colors: Vec<Color>)
    requires
        forall|i: int, j: int| 0 <= i < j < levels@.len() ==> levels@[i] < levels@[j],
    ensures
        colors@.len() == cube(levels@.len() as int),
        forall|c: Color|
            colors@.contains(c) <==> levels@.contains(c.0) && levels@.contains(c.1)
                && levels@.contains(c.2),
        forall|i: int, j: int|
            0 <= i < j < colors@.len() ==> color_before(#[trigger] colors@[i], #[trigger] colors@[j]),
{
    let len = levels.len();
    let mut colors: Vec<Color> = Vec::new();
    let ghost mut places: Seq<(int, int, int)> = Seq::empty();
    let mut a: usize = 0;
    let mut b: usize = 0;
    let mut c: usize = 0;
    while a < len
        invariant
            len == levels@.len(),
            a <= len,
            a < len ==> b < len && c < len,
            a == len ==> b == 0 && c == 0,
            forall|i: int, j: int| 0 <= i < j < levels@.len() ==> levels@[i] < levels@[j],
            colors@.len() == places.len(),
            colors@.len() == places_before(a as int, b as int, c as int, len as int),
            forall|p: int|
                0 <= p < places.len() ==> place_in_bounds(#[trigger] places[p], len as int)
                    && place_before(places[p], (a as int, b as int, c as int)) && colors@[p]
                    == color_at(levels@, places[p]),
            forall|p: int, q: int|
                0 <= p < q < places.len() ==> place_before(#[trigger] places[p], #[trigger] places[q]),
            forall|t: (int, int, int)|
                #[trigger] place_in_bounds(t, len as int) && place_before(
                    t,
                    (a as int, b as int, c as int),
                ) ==> holds_place(places, t),
        decreases len - a, len - b, len - c,
    {
        let ghost here = (a as int, b as int, c as int);
        let ghost before = places;
        colors.push((levels[a], levels[b], levels[c]));
        proof {
            places = places.push(here);
            lemma_next_place(a as int, b as int, c as int, len as int);
        }
        c += 1;
        if c == len {
            c = 0;
            b += 1;
            if b == len {
                b = 0;
                a += 1;
            }
        }
        proof {
            let next = (a as int, b as int, c as int);
            assert forall|t: (int, int, int)| #[trigger]
                place_in_bounds(t, len as int) && place_before(t, next) implies holds_place(
                places,
                t,
            ) by {
                if t == here {
                    assert(places[places.len() - 1] == t);
                } else {
                    assert(place_before(t, here));
                    assert(holds_place(before, t));
                    let p = choose|p: int| 0 <= p < before.len() && before[p] == t;
                    assert(places[p] == t);
                }
            }
            assert forall|p: int, q: int| 0 <= p < q < places.len() implies place_before(
                #[trigger] places[p],
                #[trigger] places[q],
            ) by {
                if q == before.len() {
                    assert(places[p] == before[p]);
                }
            }
        }
    }
    proof {
        reveal(cube);
        assert(places_before(len as int, 0, 0, len as int) == len * len * len) by (nonlinear_arith);
        assert forall|i: int, j: int| 0 <= i < j < colors@.len() implies color_before(
            #[trigger] colors@[i],
            #[trigger] colors@[j],
        ) by {
            assert(place_before(places[i], places[j]));
            assert(place_in_bounds(places[i], len as int));
            assert(place_in_bounds(places[j], len as int));
        }
        assert forall|col: Color|
            colors@.contains(col) <==> levels@.contains(col.0) && levels@.contains(col.1)
                && levels@.contains(col.2) by {
            if colors@.contains(col) {
                let p = choose|p: int| 0 <= p < colors@.len() && colors@[p] == col;
                assert(place_in_bounds(places[p], len as int));
                assert(levels@[places[p].0] == col.0);
                assert(levels@[places[p].1] == col.1);
                assert(levels@[places[p].2] == col.2);
            }
            if levels@.contains(col.0) && levels@.contains(col.1) && levels@.contains(col.2) {
                let i = choose|i: int| 0 <= i < levels@.len() && levels@[i] == col.0;
                let j = choose|j: int| 0 <= j < levels@.len() && levels@[j] == col.1;
                let k = choose|k: int| 0 <= k < levels@.len() && levels@[k] == col.2;
                let t = (i, j, k);
                assert(place_in_bounds(t, len as int));
                assert(holds_place(places, t));
                let p = choose|p: int| 0 <= p < places.len() && places[p] == t;
                assert(colors@[p] == col);
            }
        }
    }
    colors
}

/// Generates the palette for `countries` countries: the colours of the
/// lattice, in ascending order. With `l` channel values the lattice has `l`
/// cubed colours, which is about the number of countries; it may be less,
/// as much, or more.
pub fn gen_colors_set(countries: usize) -> (outcome: Result<Palette, PaletteError>)
    ensures
        outcome is Err <==> countries == 0,
        outcome matches Err(e) ==> e == PaletteError::InvalidArgument,
        outcome matches Ok(palette) ==> is_lattice(countries as nat, palette@)
            && palette@.no_duplicates() && exists|levels: Seq<u8>|
            #![trigger is_level_list(countries as nat, levels)]
            is_level_list(countries as nat, levels) && palette@.len() == cube(levels.len() as int),
{
    if countries == 0 {
        return Err(PaletteError::InvalidArgument);
    }
    let levels = channel_levels(countries as u128);
    let colors = combinations(&levels);
    proof {
        lemma_ascending_colors_distinct(colors@);
    }
    Ok(Palette::from_distinct(colors))
}

} // verus!
