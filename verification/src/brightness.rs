//! How bright a pixel is taken to be, and what follows for signatures and edges.

use crate::edges::{
    edge_byte, edge_distance, edge_map, edge_samples, edge_strength, edges_in, head_edges,
    overlap_closest, overlap_considered, overlap_found, spread_level, tail_edges,
};
use crate::overlap::{bottom_ignored, compared, range_distance, row_distance, top_ignored};
use crate::profile::{
    deviations, excess, excesses, fraction, gray, gray_over_white, mean_of, opacity, row_levels,
    row_samples, sample_column, steps, total, Levels,
};
use crate::raster::Picture;
use crate::signature::{byte_distance, bytes_apart, duplicates, signature_of};
use crate::single::{
    half, infinite, lemma_bound_finite, lemma_fraction_near, lemma_halves_exact, lemma_halves_sum,
    lemma_one_large, lemma_quotient_of_wholes,
    lemma_rounded_at_most, lemma_rounding_near, lemma_rounding_ordered, lemma_whole_exact, limit,
    magnitude, nearest_integer, one, product, quotient, round_magnitude, round_ratio, rounded,
    sum,
};
use vstd::arithmetic::power2::pow2;
use vstd::prelude::*;

verus! {

/// The brightness of a colour in thousandths: red counts for 299, green for 587 and blue for 114.
pub open spec fn thousandths(pixel: Seq<u8>) -> int {
    299 * pixel[0] + 587 * pixel[1] + 114 * pixel[2]
}

/// A number of moderate size is rounded by little.
proof fn lemma_near(n: int, d: nat)
    requires
        0 < d,
        magnitude(n) <= (512 * one()) * d,
    ensures
        -(d * one()) <= 0x8000 * (rounded(n, d) * d - n) <= d * one(),
        -(512 * one()) <= rounded(n, d) <= 512 * one(),
        0 <= n ==> 0 <= rounded(n, d),
        !infinite(rounded(n, d)),
{
    let m = magnitude(n);
    let unit = one();
    lemma_one_large();
    assert(512 * pow2(149) == 512 * unit);
    lemma_rounded_at_most(m, d, 512, 149);
    lemma_bound_finite(512, 149);
    lemma_rounding_near(m, d);
    let r = round_magnitude(m, d);
    assert(r == round_ratio(m, d));
    let small = d * unit;
    assert(m <= 512 * small) by (nonlinear_arith)
        requires
            m <= (512 * unit) * d,
            small == d * unit,
    ;
    assert(0x8000_0000 * d <= small) by (nonlinear_arith)
        requires
            small == d * unit,
            unit >= 0x8000_0000,
    ;
    assert(rounded(n, d) * d == if n < 0 {
        -(r * d)
    } else {
        (r * d) as int
    }) by (nonlinear_arith)
        requires
            rounded(n, d) == if n < 0 {
                -r
            } else {
                r as int
            },
    ;
}

/// A sum of moderate numbers is rounded by little.
proof fn lemma_sum_near(a: int, b: int)
    requires
        magnitude(a) <= 512 * one(),
        magnitude(b) <= 512 * one(),
        magnitude(a + b) <= 512 * one(),
    ensures
        -one() <= 0x8000 * (sum(a, b) - (a + b)) <= one(),
        magnitude(sum(a, b)) <= 512 * one(),
        0 <= a + b ==> 0 <= sum(a, b),
{
    assert(512 * pow2(149) == 512 * one());
    lemma_bound_finite(512, 149);
    lemma_near(a + b, 1);
}

/// A part of a whole number is rounded by little.
proof fn lemma_part_near(f: int, k: nat)
    requires
        0 <= f <= one(),
        k <= 255,
    ensures
        ({
            let p = product(f, fraction(k, 1));
            &&& -one() <= 0x8000 * (p - f * k) <= one()
            &&& 0 <= p <= 512 * one()
        }),
{
    let unit = one();
    lemma_one_large();
    lemma_whole_exact(k);
    let n = f * (k * unit);
    assert(0 <= n && n <= (512 * unit) * unit && n == (f * k) * unit) by (nonlinear_arith)
        requires
            n == f * (k * unit),
            0 <= f <= unit,
            k <= 255,
    ;
    lemma_near(n, unit);
    let p = product(f, fraction(k, 1));
    assert(-unit <= 0x8000 * (p - f * k) <= unit) by (nonlinear_arith)
        requires
            -(unit * unit) <= 0x8000 * (p * unit - n) <= unit * unit,
            n == (f * k) * unit,
            unit > 0,
    ;
}

/// The brightness of a pixel is the weighted mean of its colours, to a thousandth.
pub proof fn lemma_gray_near(pixel: Seq<u8>)
    ensures
        -one() <= 1000 * gray(pixel) - thousandths(pixel) * one() <= one(),
        0 <= gray(pixel) <= 256 * one(),
{
    let unit = one() as int;
    let r = pixel[0] as nat;
    let g = pixel[1] as nat;
    let b = pixel[2] as nat;
    let fr = fraction(299, 1000);
    let fg = fraction(587, 1000);
    let fb = fraction(114, 1000);
    lemma_one_large();
    lemma_fraction_near(299, 1000);
    lemma_fraction_near(587, 1000);
    lemma_fraction_near(114, 1000);
    lemma_part_near(fr, r);
    lemma_part_near(fg, g);
    lemma_part_near(fb, b);
    lemma_weight_near(fr, 299, r as int, unit);
    lemma_weight_near(fg, 587, g as int, unit);
    lemma_weight_near(fb, 114, b as int, unit);
    let pr = product(fr, fraction(r, 1));
    let pg = product(fg, fraction(g, 1));
    let pb = product(fb, fraction(b, 1));
    assert(thousandths(pixel) * unit == 299 * (r * unit) + 587 * (g * unit) + 114 * (b * unit))
        by (nonlinear_arith)
        requires
            thousandths(pixel) == 299 * r + 587 * g + 114 * b,
    ;
    assert(r * unit <= 255 * unit && g * unit <= 255 * unit && b * unit <= 255 * unit)
        by (nonlinear_arith)
        requires
            r <= 255,
            g <= 255,
            b <= 255,
            unit > 0,
    ;
    lemma_sum_near(pr, pg);
    lemma_sum_near(sum(pr, pg), pb);
}

proof fn lemma_weight_near(f: int, w: int, k: int, unit: int)
    requires
        0 <= w <= 1000,
        0 <= k <= 255,
        0 < unit,
        0x100_0000 * (w * unit) - w * unit <= 0x100_0000 * (f * 1000),
        0x100_0000 * (f * 1000) <= 0x100_0000 * (w * unit) + w * unit,
    ensures
        -unit <= 0x20 * (1000 * (f * k) - w * (k * unit)) <= unit,
{
    let e = f * 1000 - w * unit;
    assert(-(1000 * unit) <= 0x100_0000 * e <= 1000 * unit) by (nonlinear_arith)
        requires
            e == f * 1000 - w * unit,
            0x100_0000 * (w * unit) - w * unit <= 0x100_0000 * (f * 1000),
            0x100_0000 * (f * 1000) <= 0x100_0000 * (w * unit) + w * unit,
            0 <= w <= 1000,
            0 < unit,
    ;
    assert(1000 * (f * k) - w * (k * unit) == e * k) by (nonlinear_arith)
        requires
            e == f * 1000 - w * unit,
    ;
    assert(-unit <= 0x20 * (e * k) <= unit) by (nonlinear_arith)
        requires
            -(1000 * unit) <= 0x100_0000 * e <= 1000 * unit,
            0 <= k <= 255,
            0 < unit,
    ;
}

/// The opacity of a pixel is its share of 255.
proof fn lemma_opacity_near(pixel: Seq<u8>)
    ensures
        ({
            let o = opacity(pixel);
            &&& 0 <= o <= one()
            &&& -(255 * one()) <= 0x8000 * (255 * o - pixel[3] * one()) <= 255 * one()
        }),
{
    let unit = one();
    let a = pixel[3] as nat;
    lemma_one_large();
    lemma_whole_exact(a);
    lemma_whole_exact(255);
    lemma_quotient_of_wholes(a, 255);
    lemma_fraction_near(a, 255);
    let o = opacity(pixel);
    assert(a * unit <= 255 * unit) by (nonlinear_arith)
        requires
            a <= 255,
    ;
    assert(o * 255 == 255 * o);
}

/// A pixel is seen over white: what of it is not opaque is as bright as 255. It is exact to a
/// tenth.
pub proof fn lemma_over_white_near(pixel: Seq<u8>)
    ensures
        ({
            let a = pixel[3] as int;
            let seen = a * thousandths(pixel) + (255 - a) * 255000;
            &&& -(25500 * one()) <= 255000 * gray_over_white(pixel) - seen * one() <= 25500 * one()
            &&& 0 <= gray_over_white(pixel) <= 512 * one()
        }),
{
    let unit = one() as int;
    let g = gray(pixel);
    let o = opacity(pixel);
    let a = pixel[3] as int;
    let w = fraction(255, 1);
    lemma_one_large();
    lemma_gray_near(pixel);
    lemma_opacity_near(pixel);
    lemma_whole_exact(255);
    lemma_whole_exact(1);
    let n = g * o;
    assert(0 <= n && n <= (256 * unit) * unit && n <= (512 * unit) * unit) by (nonlinear_arith)
        requires
            n == g * o,
            0 <= g <= 256 * unit,
            0 <= o <= unit,
    ;
    lemma_near(n, one());
    let shown = product(g, o);
    assert(fraction(1, 1) == unit);
    lemma_sum_near(unit, -o);
    let rest = sum(unit, -o);
    let m = w * rest;
    assert(0 <= m && m <= (512 * unit) * unit) by (nonlinear_arith)
        requires
            m == w * rest,
            w == 255 * unit,
            0 <= rest,
            0x8000 * (rest - (unit - o)) <= unit,
            0 <= o,
            0 < unit,
    ;
    lemma_near(m, one());
    let white = product(w, rest);
    lemma_shown_near(g, o, a, shown, unit, thousandths(pixel));
    lemma_white_near(o, a, rest, white, unit);
    lemma_sum_near(shown, white);
    let seen = a * thousandths(pixel) + (255 - a) * 255000;
    assert(seen * unit == a * thousandths(pixel) * unit + (255 - a) * 255000 * unit)
        by (nonlinear_arith)
        requires
            seen == a * thousandths(pixel) + (255 - a) * 255000,
    ;
}

proof fn lemma_shown_near(g: int, o: int, a: int, shown: int, unit: int, t: int)
    requires
        0x1_0000 <= unit,
        0 <= a <= 255,
        0 <= t <= 255000,
        0 <= g <= 256 * unit,
        0 <= o <= unit,
        -unit <= 1000 * g - t * unit <= unit,
        -(255 * unit) <= 0x8000 * (255 * o - a * unit) <= 255 * unit,
        -(unit * unit) <= 0x8000 * (shown * unit - g * o) <= unit * unit,
    ensures
        -(6000 * unit) <= 255000 * shown - a * t * unit <= 6000 * unit,
        0 <= shown ==> shown <= 256 * unit,
{
    let x = 1000 * g - t * unit;
    let y = 255 * o - a * unit;
    let z = shown * unit - g * o;
    let square = unit * unit;
    assert(square > 0 && a * t * unit * unit == a * t * square) by (nonlinear_arith)
        requires
            square == unit * unit,
            unit > 0,
    ;
    let v = 1000 * g;
    let w = 255 * o;
    assert(255000 * (g * o) == v * w) by (nonlinear_arith)
        requires
            v == 1000 * g,
            w == 255 * o,
    ;
    let s = x + t * unit;
    let b = a * unit;
    assert(v == s && w == y + b);
    vstd::arithmetic::mul::lemma_mul_is_distributive_add(s, y, b);
    vstd::arithmetic::mul::lemma_mul_is_distributive_add_other_way(b, x, t * unit);
    assert(x * b == x * a * unit) by (nonlinear_arith)
        requires
            b == a * unit,
    ;
    assert((t * unit) * b == a * t * square) by (nonlinear_arith)
        requires
            b == a * unit,
            square == unit * unit,
    ;
    assert(-(2040 * square) <= v * y <= 2040 * square) by (nonlinear_arith)
        requires
            0 <= v <= 256000 * unit,
            -(255 * unit) <= 0x8000 * y <= 255 * unit,
            square == unit * unit,
            unit > 0,
    ;
    assert(-(255 * square) <= x * a * unit <= 255 * square) by (nonlinear_arith)
        requires
            -unit <= x <= unit,
            0 <= a <= 255,
            square == unit * unit,
            unit > 0,
    ;
    assert(-(6000 * square) <= 255000 * (shown * unit) - a * t * square <= 6000 * square);
    let d = 255000 * shown - a * t * unit;
    assert(d * unit == 255000 * (shown * unit) - a * t * square) by (nonlinear_arith)
        requires
            d == 255000 * shown - a * t * unit,
            a * t * unit * unit == a * t * square,
    ;
    assert(-(6000 * unit) <= d <= 6000 * unit) by (nonlinear_arith)
        requires
            -(6000 * square) <= d * unit <= 6000 * square,
            square == unit * unit,
            unit > 0,
    ;
    assert(shown <= 256 * unit) by (nonlinear_arith)
        requires
            255000 * shown <= a * t * unit + 6000 * unit,
            0 <= a <= 255,
            0 <= t <= 255000,
            0 < unit,
    ;
}

proof fn lemma_white_near(o: int, a: int, rest: int, white: int, unit: int)
    requires
        0x1_0000 <= unit,
        0 <= a <= 255,
        -(255 * unit) <= 0x8000 * (255 * o - a * unit) <= 255 * unit,
        -unit <= 0x8000 * (rest - (unit - o)) <= unit,
        -(unit * unit) <= 0x8000 * (white * unit - (255 * unit) * rest) <= unit * unit,
    ensures
        -(6000 * unit) <= 255000 * white - (255 - a) * 255000 * unit <= 6000 * unit,
        white <= 256 * unit,
{
    let e = white - 255 * rest;
    assert(-unit <= 0x8000 * e <= unit) by (nonlinear_arith)
        requires
            e == white - 255 * rest,
            -(unit * unit) <= 0x8000 * (white * unit - (255 * unit) * rest) <= unit * unit,
            unit > 0,
    ;
    let b = 255 - a;
    assert(255000 * b * unit == 255000 * (255 * unit) - 255000 * (a * unit)) by (nonlinear_arith)
        requires
            b == 255 - a,
    ;
    assert((255 - a) * 255000 * unit == 255000 * b * unit) by (nonlinear_arith)
        requires
            b == 255 - a,
    ;
    assert(0 <= a * unit) by (nonlinear_arith)
        requires
            0 <= a,
            0 < unit,
    ;
}

/// The nearest integer is at most a half away.
proof fn lemma_integer_near(n: int)
    requires
        0 <= n,
    ensures
        -one() <= 2 * (nearest_integer(n) * one() - n) <= one(),
        0 <= nearest_integer(n),
{
    let unit = one() as int;
    lemma_one_large();
    let w = (2 * n + unit) / (2 * unit);
    vstd::arithmetic::div_mod::lemma_fundamental_div_mod(2 * n + unit, 2 * unit);
    vstd::arithmetic::div_mod::lemma_mod_bound(2 * n + unit, 2 * unit);
    assert(2 * unit * w == 2 * (w * unit)) by (nonlinear_arith);
    assert(w >= 0) by (nonlinear_arith)
        requires
            2 * unit * w + 2 * unit > 0,
            unit > 0,
    ;
}

/// A signature has eighteen columns and twenty-four rows. Each cell holds how bright the first
/// pixel of its part of the picture is.
pub proof fn lemma_signature_cell(p: Picture, row: int, column: int)
    requires
        0 <= row < 24,
        0 <= column < 18,
    ensures
        signature_of(p).len() == 432,
        ({
            let pixel = p.pixel(column * p.width / 18, row * p.height / 24);
            let cell = signature_of(p)[row * 18 + column] as int;
            -501 <= 1000 * cell - thousandths(pixel) <= 501
        }),
{
    let i = row * 18 + column;
    assert(i % 18 == column && i / 18 == row);
    let pixel = p.pixel(column * p.width as int / 18, row * p.height as int / 24);
    let unit = one() as int;
    lemma_one_large();
    lemma_gray_near(pixel);
    lemma_integer_near(gray(pixel));
    let w = nearest_integer(gray(pixel));
    let t = thousandths(pixel);
    let k = 1000 * w - t;
    assert(k * unit == 1000 * (w * unit) - t * unit) by (nonlinear_arith)
        requires
            k == 1000 * w - t,
    ;
    assert(-501 <= k <= 501) by (nonlinear_arith)
        requires
            -(501 * unit) <= k * unit <= 501 * unit,
            unit > 0,
    ;
    assert(t <= 255000);
    assert(0 <= w <= 255);
    assert(signature_of(p)[i] == w);
}

/// Bytes are as far apart as they are counted apart one by one, in either order.
pub proof fn lemma_bytes_apart(a: Seq<u8>, b: Seq<u8>, x: u8, y: u8)
    requires
        a.len() == b.len(),
    ensures
        bytes_apart(Seq::empty(), Seq::empty()) == 0,
        bytes_apart(a.push(x), b.push(y)) == bytes_apart(a, b) + if x < y {
            y - x
        } else {
            x - y
        },
        bytes_apart(a, b) == bytes_apart(b, a),
    decreases a.len(),
{
    assert(a.push(x).drop_last() =~= a);
    assert(b.push(y).drop_last() =~= b);
    if a.len() > 0 {
        lemma_bytes_apart(a.drop_last(), b.drop_last(), x, y);
    }
}

proof fn lemma_apart_bounded(a: Seq<u8>, b: Seq<u8>)
    requires
        a.len() == b.len(),
    ensures
        bytes_apart(a, b) <= 255 * a.len(),
    decreases a.len(),
{
    if a.len() > 0 {
        lemma_apart_bounded(a.drop_last(), b.drop_last());
    }
}

/// Two signatures show the same if and only if no cell differs by more than four and the cells
/// differ by at most 475 together, which is eleven tenths of their number.
pub proof fn lemma_duplicates(a: Seq<u8>, b: Seq<u8>)
    requires
        a.len() == 432,
        b.len() == 432,
    ensures
        duplicates(a, b) <==> bytes_apart(a, b) <= 475 && forall|i: int|
            0 <= i < 432 ==> -4 <= (#[trigger] a[i]) - b[i] <= 4,
{
    let unit = one() as int;
    let n = bytes_apart(a, b);
    lemma_one_large();
    lemma_apart_bounded(a, b);
    lemma_whole_exact(n);
    lemma_whole_exact(432);
    lemma_quotient_of_wholes(n, 432);
    let q = rounded((n * one()) as int, 432);
    let t = fraction(11, 10);
    assert(magnitude((n * one()) as int) <= (512 * one()) * 432) by (nonlinear_arith)
        requires
            n <= 255 * 432,
            magnitude((n * one()) as int) == n * one(),
    ;
    lemma_near((n * one()) as int, 432);
    assert(0 <= n * one()) by (nonlinear_arith);
    lemma_near((11 * one()) as int, 10);
    assert(n <= 475 <==> q <= t) by {
        if n <= 475 {
            assert(n * unit <= 475 * unit) by (nonlinear_arith)
                requires
                    n <= 475,
                    unit > 0,
            ;
        } else {
            assert(n * unit >= 476 * unit) by (nonlinear_arith)
                requires
                    n >= 476,
                    unit > 0,
            ;
        }
    }
    if forall|i: int| 0 <= i < 432 ==> -4 <= (#[trigger] a[i]) - b[i] <= 4 {
        assert forall|i: int| 0 <= i < a.len() implies byte_distance(#[trigger] a[i], b[i]) <= 4 by {
            assert(-4 <= a[i] - b[i] <= 4);
        }
    }
    if duplicates(a, b) {
        assert forall|i: int| 0 <= i < 432 implies -4 <= (#[trigger] a[i]) - b[i] <= 4 by {
            assert(byte_distance(a[i], b[i]) <= 4);
        }
    }
}

/// Pixels are spread evenly over a row, from its first pixel to its last.
pub proof fn lemma_spread(width: int, count: int, step: int)
    requires
        0 < width,
        1 < count,
        0 <= step < count,
    ensures
        sample_column(width, count, 0) == 0,
        sample_column(width, count, count - 1) == width - 1,
        ({
            let x = sample_column(width, count, step);
            x * (count - 1) <= step * (width - 1) < (x + 1) * (count - 1)
        }),
{
    let n = step * (width - 1);
    let d = count - 1;
    vstd::arithmetic::div_mod::lemma_fundamental_div_mod(n, d);
    vstd::arithmetic::div_mod::lemma_mod_bound(n, d);
    let x = n / d;
    assert(x * d <= n < (x + 1) * d) by (nonlinear_arith)
        requires
            n == d * x + n % d,
            0 <= n % d < d,
    ;
    assert((count - 1) * (width - 1) / (count - 1) == width - 1) by (nonlinear_arith)
        requires
            count > 1,
    ;
    assert(0 * (width - 1) / d == 0) by (nonlinear_arith)
        requires
            d > 0,
    ;
}

/// An edge is as strong as the pixel differs in brightness from the one to the left and from the
/// one above together, at most 255, to the nearest integer and a little.
pub proof fn lemma_edge_near(p: Picture, count: int, y: int, step: int)
    requires
        0 < step,
        0 < y,
    ensures
        ({
            let here = spread_level(p, count, y, step);
            let left = spread_level(p, count, y, step - 1);
            let up = spread_level(p, count, y - 1, step);
            let apart = magnitude(here - left) + magnitude(here - up);
            let byte = edge_byte(p, count, y, step);
            &&& apart <= 255 * one() ==> -one() <= byte * one() - apart <= one()
            &&& apart >= 256 * one() ==> byte == 255
            &&& apart == 0 ==> byte == 0
        }),
{
    reveal(edge_byte);
    let unit = one() as int;
    let x = sample_column(p.width as int, count, step);
    let here = spread_level(p, count, y, step);
    let left = spread_level(p, count, y, step - 1);
    let up = spread_level(p, count, y - 1, step);
    lemma_one_large();
    lemma_over_white_near(p.pixel(x, y));
    lemma_over_white_near(p.pixel(sample_column(p.width as int, count, step - 1), y));
    lemma_over_white_near(p.pixel(x, y - 1));
    lemma_levels_bounded(p.pixel(x, y));
    lemma_levels_bounded(p.pixel(sample_column(p.width as int, count, step - 1), y));
    lemma_levels_bounded(p.pixel(x, y - 1));
    lemma_sum_near(here, -left);
    lemma_sum_near(here, -up);
    lemma_sum_near(-left, here);
    lemma_difference_near(here, left);
    lemma_difference_near(here, up);
    let a = magnitude(sum(here, -left)) as int;
    let b = magnitude(sum(here, -up)) as int;
    lemma_whole_exact(255);
    let strength = edge_strength(p, count, y, step);
    assert(strength == sum(a, b));
    if a + b <= 512 * unit {
        lemma_sum_near(a, b);
    } else {
        lemma_bound_finite(512, 149);
        assert(512 * pow2(149) == 512 * unit);
        lemma_rounding_ordered((512 * unit) as nat, (a + b) as nat, 1);
        lemma_whole_exact(512);
    }
    let bounded = if fraction(255, 1) < strength {
        fraction(255, 1)
    } else {
        strength
    };
    lemma_integer_near(bounded);
    let w = nearest_integer(bounded);
    assert(w <= 255) by (nonlinear_arith)
        requires
            2 * (w * unit - bounded) <= unit,
            bounded <= 255 * unit,
            unit > 0,
    ;
    if bounded >= 255 * unit {
        assert(w >= 255) by (nonlinear_arith)
            requires
                -unit <= 2 * (w * unit - bounded),
                bounded >= 255 * unit,
                unit > 0,
        ;
    }
    if bounded == 0 {
        assert(w == 0) by (nonlinear_arith)
            requires
                -unit <= 2 * (w * unit - bounded) <= unit,
                bounded == 0,
                unit > 0,
        ;
    }
}

proof fn lemma_levels_bounded(pixel: Seq<u8>)
    ensures
        0 <= gray_over_white(pixel) <= 256 * one(),
{
    lemma_over_white_near(pixel);
    let unit = one() as int;
    lemma_one_large();
    let a = pixel[3] as int;
    let t = thousandths(pixel);
    let seen = a * t + (255 - a) * 255000;
    assert(seen <= 65025000) by (nonlinear_arith)
        requires
            seen == a * t + (255 - a) * 255000,
            0 <= a <= 255,
            0 <= t <= 255000,
    ;
    assert(seen * unit <= 65025000 * unit) by (nonlinear_arith)
        requires
            seen <= 65025000,
            unit > 0,
    ;
}

/// A difference is rounded by little, and to nothing only where there is none.
proof fn lemma_difference_near(a: int, b: int)
    requires
        0 <= a <= 256 * one(),
        0 <= b <= 256 * one(),
    ensures
        -one() <= 0x8000 * (magnitude(sum(a, -b)) - magnitude(a - b)) <= one(),
        a == b ==> magnitude(sum(a, -b)) == 0,
{
    lemma_one_large();
    lemma_sum_near(a, -b);
    lemma_near(a - b, 1);
    if a == b {
        lemma_bound_finite(512, 149);
        assert(512 * pow2(149) == 512 * one());
        crate::single::lemma_zero_rounded(1);
    }
}

/// A value counts as an edge if it is above eighteen.
pub proof fn lemma_edges_counted(values: Seq<u8>, value: u8)
    ensures
        edges_in(Seq::empty()) == 0,
        edges_in(values.push(value)) == edges_in(values) + if value > 18 {
            1int
        } else {
            0
        },
{
    assert(values.push(value).drop_last() =~= values);
}

/// Edges are close if their distance is at most sixteen on the average, and no longer if it is
/// more than seventeen.
pub proof fn lemma_edges_close(a: Seq<u8>, b: Seq<u8>)
    requires
        a.len() == b.len(),
        0 < a.len() < 0x1_0000,
    ensures
        bytes_apart(a, b) <= 16 * a.len() ==> edge_distance(a, b) <= 16 * one(),
        bytes_apart(a, b) >= 17 * a.len() ==> edge_distance(a, b) >= 17 * one(),
{
    let n = bytes_apart(a, b);
    let d = a.len();
    let unit = one();
    lemma_one_large();
    lemma_apart_bounded(a, b);
    lemma_whole_exact(n);
    lemma_whole_exact(d);
    lemma_quotient_of_wholes(n, d);
    let v: nat = n * unit;
    let low: nat = d * (16 * unit);
    let high: nat = d * (17 * unit);
    crate::single::lemma_ratio_whole(16, d);
    crate::single::lemma_ratio_whole(17, d);
    if n <= 16 * d {
        assert(v <= low) by (nonlinear_arith)
            requires
                n <= 16 * d,
                v == n * unit,
                low == d * (16 * unit),
        ;
        lemma_rounding_ordered(v, low, d);
    }
    if n >= 17 * d {
        assert(v >= high) by (nonlinear_arith)
            requires
                n >= 17 * d,
                v == n * unit,
                high == d * (17 * unit),
        ;
        lemma_rounding_ordered(high, v, d);
    }
    assert(v >= 0) by (nonlinear_arith)
        requires
            v == n * unit,
    ;
}

/// Numbers added up.
pub open spec fn added(numbers: Seq<int>) -> int
    decreases numbers.len(),
{
    if numbers.len() == 0 {
        0
    } else {
        added(numbers.drop_last()) + numbers.last()
    }
}

/// Whole numbers in units.
pub open spec fn in_units(numbers: Seq<int>) -> Seq<int> {
    Seq::new(numbers.len(), |i: int| numbers[i] * one())
}

/// Whether all numbers lie between 0 and 512.
pub open spec fn all_small(numbers: Seq<int>) -> bool {
    forall|i: int| 0 <= i < numbers.len() ==> 0 <= #[trigger] numbers[i] <= 512
}

proof fn lemma_whole_sum(a: int, b: int)
    requires
        -0x30_0000 <= a <= 0x30_0000,
        -0x30_0000 <= b <= 0x30_0000,
    ensures
        sum(a * one(), b * one()) == (a + b) * one(),
        magnitude(a * one()) == magnitude(a) * one(),
{
    let h = half() as int;
    lemma_halves_exact(1);
    let unit = one() as int;
    assert(a * unit == (2 * a) * h && b * unit == (2 * b) * h && (a + b) * unit == (2 * a + 2 * b)
        * h) by (nonlinear_arith)
        requires
            unit == 2 * h,
    ;
    lemma_halves_sum(2 * a, 2 * b);
    assert(magnitude(a * unit) == magnitude(a) * unit) by (nonlinear_arith)
        requires
            unit > 0,
            magnitude(a) == if a < 0 {
                -a
            } else {
                a
            },
            magnitude(a * unit) == if a * unit < 0 {
                -(a * unit)
            } else {
                a * unit
            },
    ;
}

proof fn lemma_small_total(numbers: Seq<int>)
    requires
        all_small(numbers),
        numbers.len() <= 4096,
    ensures
        0 <= added(numbers) <= 512 * numbers.len(),
        total(in_units(numbers)) == added(numbers) * one(),
    decreases numbers.len(),
{
    if numbers.len() > 0 {
        let shorter = numbers.drop_last();
        assert forall|i: int| 0 <= i < shorter.len() implies 0 <= #[trigger] shorter[i] <= 512 by {
            assert(0 <= numbers[i] <= 512);
        }
        lemma_small_total(shorter);
        assert(in_units(numbers).drop_last() =~= in_units(shorter));
        assert(0 <= numbers[numbers.len() - 1] <= 512);
        lemma_whole_sum(added(shorter), numbers.last());
    }
}

/// How far apart two numbers are.
pub open spec fn gap(a: int, b: int) -> int {
    if a < b {
        b - a
    } else {
        a - b
    }
}

/// The levels of a row whose pixels have whole levels and a whole mean: twice the mean; the mean
/// distance from it; and the mean of what lies more than eight above it, with the mean step from
/// pixel to pixel.
pub proof fn lemma_levels_of_wholes(numbers: Seq<int>, mean: nat)
    requires
        1 < numbers.len() <= 4096,
        forall|i: int| 0 <= i < numbers.len() ==> 0 <= #[trigger] numbers[i] <= 255,
        mean <= 255,
        added(numbers) == mean * numbers.len(),
    ensures
        ({
            let n = numbers.len();
            let levels = row_levels(in_units(numbers));
            let apart = Seq::new(n, |i: int| gap(numbers[i], mean as int));
            let above = Seq::new(
                n,
                |i: int|
                    if numbers[i] > mean + 8 {
                        numbers[i] - mean - 8
                    } else {
                        0
                    },
            );
            let jumps = Seq::new((n - 1) as nat, |i: int| gap(numbers[i + 1], numbers[i]));
            &&& levels.mean == (2 * mean) * one()
            &&& levels.contrast == fraction(added(apart) as nat, n)
            &&& levels.detail == sum(
                fraction(added(above) as nat, n),
                fraction(added(jumps) as nat, (n - 1) as nat),
            )
        }),
{
    let n = numbers.len();
    let values = in_units(numbers);
    let unit = one() as int;
    lemma_one_large();
    lemma_small_total(numbers);
    lemma_whole_exact(n);
    lemma_whole_exact((n - 1) as nat);
    lemma_whole_exact(mean);
    lemma_whole_exact(8);
    lemma_whole_exact(2);
    assert(mean * n <= 255 * 4096) by (nonlinear_arith)
        requires
            mean <= 255,
            n <= 4096,
    ;
    crate::single::lemma_ratio_exact(mean, n);
    let m = mean_of(values);
    assert(m == mean * unit);
    let apart = Seq::new(n, |i: int| gap(numbers[i], mean as int));
    let above = Seq::new(
        n,
        |i: int|
            if numbers[i] > mean + 8 {
                numbers[i] - mean - 8
            } else {
                0
            },
    );
    let jumps = Seq::new((n - 1) as nat, |i: int| gap(numbers[i + 1], numbers[i]));
    assert(-(mean * unit) == (-mean) * unit && -(8 * unit) == (-8) * unit) by (nonlinear_arith);
    assert forall|i: int| 0 <= i < n implies #[trigger] deviations(values, m)[i] == in_units(
        apart,
    )[i] by {
        let k = numbers[i];
        lemma_whole_sum(k, -mean);
        lemma_whole_sum(k - mean, -8);
        assert(k + -mean == k - mean);
    }
    assert forall|i: int| 0 <= i < n implies #[trigger] excesses(values, m)[i] == in_units(
        above,
    )[i] by {
        let k = numbers[i];
        lemma_whole_sum(k, -mean);
        lemma_whole_sum(k - mean, -8);
        assert(k + -mean == k - mean);
        let e = k - mean - 8;
        assert((e < 0 <==> e * unit < 0) && 0 * unit == 0) by (nonlinear_arith)
            requires
                unit > 0,
        ;
        assert(k - mean + -8 == e);
        assert(excess(values[i], m) == if e * unit < 0 {
            0
        } else {
            e * unit
        });
    }
    assert(deviations(values, m) =~= in_units(apart));
    assert(excesses(values, m) =~= in_units(above));
    assert forall|i: int| 0 <= i < n - 1 implies #[trigger] steps(values)[i] == in_units(
        jumps,
    )[i] by {
        let a = numbers[i + 1];
        let b = numbers[i];
        assert(-(b * unit) == (-b) * unit) by (nonlinear_arith);
        lemma_whole_sum(a, -b);
        lemma_whole_sum(a - b, 0);
        assert(a + -b == a - b);
    }
    assert(steps(values) =~= in_units(jumps));
    lemma_small_total(apart);
    lemma_small_total(above);
    lemma_small_total(jumps);
    lemma_quotient_of_wholes(added(apart) as nat, n);
    lemma_quotient_of_wholes(added(above) as nat, n);
    lemma_quotient_of_wholes(added(jumps) as nat, (n - 1) as nat);
    let twice: int = product(m, fraction(2, 1));
    assert((mean * unit) * (2 * unit) == one() * ((2 * mean) * unit)) by (nonlinear_arith)
        requires
            unit == one(),
    ;
    crate::single::lemma_ratio_whole(2 * mean, one());
    assert((2 * mean) * unit >= 0) by (nonlinear_arith)
        requires
            unit > 0,
    ;
}

/// Rows of whole levels are as far apart as their levels are together.
pub proof fn lemma_rows_apart(a: Seq<int>, b: Seq<int>)
    requires
        a.len() == 3,
        b.len() == 3,
        forall|i: int| 0 <= i < 3 ==> 0 <= #[trigger] a[i] <= 0x1_0000,
        forall|i: int| 0 <= i < 3 ==> 0 <= #[trigger] b[i] <= 0x1_0000,
    ensures
        ({
            let unit = one() as int;
            let x = Levels { mean: a[0] * unit, contrast: a[1] * unit, detail: a[2] * unit };
            let y = Levels { mean: b[0] * unit, contrast: b[1] * unit, detail: b[2] * unit };
            row_distance(x, y) == (gap(a[0], b[0]) + gap(a[1], b[1]) + gap(a[2], b[2])) * unit
        }),
{
    let unit = one() as int;
    assert forall|i: int| 0 <= i < 3 implies magnitude(
        #[trigger] sum(a[i] * unit, -(b[i] * unit)),
    ) == gap(a[i], b[i]) * unit by {
        let k = b[i];
        assert(0 <= a[i] <= 0x1_0000 && 0 <= k <= 0x1_0000);
        assert(-(k * unit) == (-k) * unit) by (nonlinear_arith);
        lemma_whole_sum(a[i], -k);
        lemma_whole_sum(a[i] - k, 0);
        assert(a[i] + -k == a[i] - k);
    }
    assert(0 <= a[0] <= 0x1_0000 && 0 <= a[1] <= 0x1_0000 && 0 <= a[2] <= 0x1_0000);
    assert(0 <= b[0] <= 0x1_0000 && 0 <= b[1] <= 0x1_0000 && 0 <= b[2] <= 0x1_0000);
    assert(magnitude(sum(a[0] * unit, -(b[0] * unit))) == gap(a[0], b[0]) * unit);
    assert(magnitude(sum(a[1] * unit, -(b[1] * unit))) == gap(a[1], b[1]) * unit);
    assert(magnitude(sum(a[2] * unit, -(b[2] * unit))) == gap(a[2], b[2]) * unit);
    lemma_whole_sum(gap(a[0], b[0]), gap(a[1], b[1]));
    lemma_whole_sum(gap(a[0], b[0]) + gap(a[1], b[1]), gap(a[2], b[2]));
}

/// How many rows at the top of an overlap do not count: none of fewer than eighty, else a tenth of
/// them, at least sixteen.
pub open spec fn top_left_out(length: int) -> int {
    if length < 80 {
        0
    } else if length < 160 {
        16
    } else {
        length / 10
    }
}

/// How many rows at the bottom of an overlap do not count: none of fewer than eighty, else eight
/// hundredths of them, at least sixteen.
pub open spec fn bottom_left_out(length: int) -> int {
    if length < 80 {
        0
    } else if length < 200 {
        16
    } else {
        length * 8 / 100
    }
}

/// How far an overlap is apart depends on no row but those that count, in both pictures.
pub proof fn lemma_rows_that_count(
    a: Seq<Levels>,
    b: Seq<Levels>,
    c: Seq<Levels>,
    d: Seq<Levels>,
    length: int,
    min_overlap: int,
)
    requires
        0 <= length,
        length <= a.len() && length <= b.len() && length <= c.len() && length <= d.len(),
        forall|i: int|
            top_left_out(length) <= i < length - bottom_left_out(length) ==> #[trigger] a[i]
                == c[i],
        forall|i: int|
            top_left_out(length) <= i < length - bottom_left_out(length) ==> #[trigger] b[i]
                == d[i],
    ensures
        range_distance(a, b, 0, 0, length, min_overlap) == range_distance(
            c,
            d,
            0,
            0,
            length,
            min_overlap,
        ),
{
    reveal(range_distance);
    let top = top_ignored(length);
    assert(top == top_left_out(length));
    assert(compared(a, b, 0, 0, length) =~= compared(c, d, 0, 0, length)) by {
        assert forall|i: int|
            0 <= i < length - bottom_ignored(length) - top implies #[trigger] compared(
            a,
            b,
            0,
            0,
            length,
        )[i] == compared(c, d, 0, 0, length)[i] by {
            assert(a[top + i] == c[top + i]);
            assert(b[top + i] == d[top + i]);
        }
    }
}

/// An overlap whose rows that count are all three times as far apart as some whole number is that
/// far apart; one in which too few rows count is infinitely far apart.
pub proof fn lemma_overlap_apart(
    a: Seq<Levels>,
    b: Seq<Levels>,
    length: int,
    min_overlap: int,
    apart: nat,
)
    requires
        0 < length <= 4096,
        length <= a.len() && length <= b.len(),
        apart <= 100,
        0 < min_overlap,
        forall|i: int|
            top_left_out(length) <= i < length - bottom_left_out(length) ==> row_distance(
                #[trigger] a[i],
                b[i],
            ) == (3 * apart) * one(),
    ensures
        length - top_left_out(length) - bottom_left_out(length) >= min_overlap ==> range_distance(
            a,
            b,
            0,
            0,
            length,
            min_overlap,
        ) == apart * one(),
        length - top_left_out(length) - bottom_left_out(length) < min_overlap ==> range_distance(
            a,
            b,
            0,
            0,
            length,
            min_overlap,
        ) == limit(),
{
    reveal(range_distance);
    let top = top_ignored(length);
    assert(top == top_left_out(length));
    assert(bottom_ignored(length) == bottom_left_out(length));
    if length - top_left_out(length) - bottom_left_out(length) >= min_overlap {
        let rows = compared(a, b, 0, 0, length);
        let n = rows.len();
        let same = Seq::new(n, |i: int| (3 * apart) as int);
        assert(rows =~= in_units(same)) by {
            assert forall|i: int| 0 <= i < n implies #[trigger] rows[i] == in_units(same)[i] by {
                assert(row_distance(a[top + i], b[top + i]) == (3 * apart) * one());
            }
        }
        lemma_small_total(same);
        lemma_same_added(n, (3 * apart) as int);
        assert((3 * apart) * n == apart * (3 * n)) by (nonlinear_arith);
        assert(apart * (3 * n) <= 100 * (3 * 4096)) by (nonlinear_arith)
            requires
                apart <= 100,
                n <= 4096,
        ;
        lemma_whole_exact(3 * n);
        crate::single::lemma_ratio_exact(apart, 3 * n);
    }
}

proof fn lemma_same_added(n: nat, value: int)
    ensures
        added(Seq::new(n, |i: int| value)) == value * n,
    decreases n,
{
    if n > 0 {
        lemma_same_added((n - 1) as nat, value);
        assert(Seq::new(n, |i: int| value).drop_last() =~= Seq::new((n - 1) as nat, |i: int| value));
        assert(value * (n - 1) + value == value * n) by (nonlinear_arith);
    } else {
        assert(value * 0 == 0);
    }
}

/// Of a row ninety-six pixels are looked at, or all where there are fewer; a hundred and sixty for
/// edges.
pub proof fn lemma_pixels_looked_at(p: Picture, y: int, i: int)
    requires
        0 < p.width,
        0 <= i < row_samples(p, y).len(),
    ensures
        row_samples(p, y).len() == if p.width < 96 {
            p.width
        } else {
            96
        },
        1 < p.width <= 96 ==> row_samples(p, y)[i] == gray(p.pixel(i, y)),
        edge_samples(p.width as int) == if p.width < 160 {
            p.width as int
        } else {
            160
        },
{
    let w = p.width as int;
    if 1 < w <= 96 {
        assert(i * (w - 1) / (w - 1) == i) by (nonlinear_arith)
            requires
                w > 1,
        ;
    }
}

/// An overlap is looked at for edges if it is shorter than both pictures, at least as long as
/// needed, and its rows hold at least twenty-four edges in both pictures together.
pub proof fn lemma_overlap_considered(base: Picture, next: Picture, needed: int, overlap: int)
    ensures
        overlap_considered(base, next, needed, overlap) <==> needed <= overlap && overlap
            < base.height && overlap < next.height && edges_in(tail_edges(base, overlap)) + edges_in(
            head_edges(base, next, overlap),
        ) >= 24,
{
}

/// Where a picture begins with the last rows of another, the edges of these rows are the same in
/// both, but for the first row.
pub proof fn lemma_same_edges(base: Picture, next: Picture, overlap: int, i: int)
    requires
        0 < overlap <= base.height,
        overlap <= next.height,
        0 < base.width,
        base.width == next.width,
        forall|x: int, y: int|
            0 <= x < base.width && 0 <= y < overlap ==> #[trigger] next.pixel(x, y) == base.pixel(
                x,
                base.height - overlap + y,
            ),
        edge_samples(base.width as int) <= i < overlap * edge_samples(base.width as int),
    ensures
        tail_edges(base, overlap)[i] == head_edges(base, next, overlap)[i],
{
    reveal(edge_map);
    reveal(edge_byte);
    let count = edge_samples(base.width as int);
    vstd::arithmetic::div_mod::lemma_fundamental_div_mod(i, count);
    vstd::arithmetic::div_mod::lemma_mod_bound(i, count);
    let row = i / count;
    let step = i % count;
    assert(1 <= row < overlap) by (nonlinear_arith)
        requires
            i == count * row + step,
            0 <= step < count,
            count <= i < overlap * count,
    ;
    crate::profile::lemma_sample_inside(base.width as int, count, step);
    if step > 0 {
        crate::profile::lemma_sample_inside(base.width as int, count, step - 1);
    }
    let start = base.height - overlap;
    let x = sample_column(base.width as int, count, step);
    assert(next.pixel(x, row) == base.pixel(x, start + row));
    assert(next.pixel(x, row - 1) == base.pixel(x, start + (row - 1)));
    if step > 0 {
        let left = sample_column(base.width as int, count, step - 1);
        assert(next.pixel(left, row) == base.pixel(left, start + row));
    }
    assert(start + (row - 1) == start + row - 1);
}

/// An overlap is found by its edges if and only if it is the closest one looked at and its edges
/// are at most sixteen apart.
pub proof fn lemma_overlap_found(base: Picture, next: Picture, needed: int, overlap: int)
    requires
        0 < base.width,
        0 < next.width,
    ensures
        overlap_found(base, next, needed, overlap) <==> overlap_closest(
            base,
            next,
            needed,
            overlap,
        ) && edge_distance(tail_edges(base, overlap), head_edges(base, next, overlap)) <= 16 * one(),
{
    lemma_whole_exact(16);
}

/// The overlap found is closer than every shorter one that is looked at, and no longer one is
/// closer.
pub proof fn lemma_overlap_closest(
    base: Picture,
    next: Picture,
    needed: int,
    overlap: int,
    other: int,
)
    requires
        overlap_found(base, next, needed, overlap),
        overlap_considered(base, next, needed, other),
    ensures
        ({
            let here = edge_distance(
                tail_edges(base, overlap),
                head_edges(base, next, overlap),
            );
            let there = edge_distance(tail_edges(base, other), head_edges(base, next, other));
            &&& here <= there
            &&& other < overlap ==> here < there
        }),
{
    assert(overlap_closest(base, next, needed, overlap));
    assert(overlap_considered(base, next, needed, other));
}

} // verus!
