//! What frames are compared by: the brightness profile of their rows, a small signature
//! of the whole frame, and the edges in their rows.

use crate::raster::{Image, Picture};
use crate::single::{
    confined, infinite, lemma_bound_finite, lemma_distance_bounded, lemma_product_bounded,
    lemma_quotient_bounded, lemma_rounded_at_most, lemma_sum_bounded, lemma_whole_exact, limit,
    magnitude, one, product, quotient, rounded, sum, Single,
};
use vstd::arithmetic::power2::{lemma2_to64, lemma_pow2_adds, lemma_pow2_pos, lemma_pow2_unfold, pow2};
use vstd::prelude::*;

verus! {

/// How many pixels of a row are looked at, at most.
pub const ROW_SAMPLES: u32 = 96;

/// The number of units of a fraction `n / d`.
pub open spec fn fraction(n: nat, d: nat) -> int {
    rounded((n * one()) as int, d)
}

/// The brightness of a pixel without regard to its alpha.
pub open spec fn gray(pixel: Seq<u8>) -> int {
    sum(
        sum(
            product(fraction(299, 1000), fraction(pixel[0] as nat, 1)),
            product(fraction(587, 1000), fraction(pixel[1] as nat, 1)),
        ),
        product(fraction(114, 1000), fraction(pixel[2] as nat, 1)),
    )
}

/// The opacity of a pixel.
pub open spec fn opacity(pixel: Seq<u8>) -> int {
    quotient(fraction(pixel[3] as nat, 1), fraction(255, 1))
}

/// The brightness of a pixel laid over white.
pub open spec fn gray_over_white(pixel: Seq<u8>) -> int {
    sum(
        product(gray(pixel), opacity(pixel)),
        product(fraction(255, 1), sum(fraction(1, 1), -opacity(pixel))),
    )
}

/// The sum of numbers, added one after the other.
pub open spec fn total(values: Seq<int>) -> int
    decreases values.len(),
{
    if values.len() == 0 {
        0
    } else {
        sum(total(values.drop_last()), values.last())
    }
}

/// The column of the `step`th of `count` pixels spread evenly over a row.
pub open spec fn sample_column(width: int, count: int, step: int) -> int {
    if count == 1 {
        0
    } else {
        (step * (width - 1)) / (count - 1)
    }
}

/// How many pixels of a row of the given width are looked at.
pub open spec fn sample_count(width: int) -> int {
    confined(width, 1, ROW_SAMPLES as int)
}

/// The brightness of the pixels of a row that are looked at.
pub open spec fn row_samples(p: Picture, y: int) -> Seq<int> {
    Seq::new(
        sample_count(p.width as int) as nat,
        |i: int|
            gray(p.pixel(sample_column(p.width as int, sample_count(p.width as int), i), y)),
    )
}

/// What is kept of one row: twice its mean, its contrast, and its bright spots and steps.
pub struct Levels {
    pub mean: int,
    pub contrast: int,
    pub detail: int,
}

/// The mean of a row.
pub open spec fn mean_of(values: Seq<int>) -> int {
    quotient(total(values), fraction(values.len(), 1))
}

/// How far each value lies from the mean.
pub open spec fn deviations(values: Seq<int>, mean: int) -> Seq<int> {
    Seq::new(values.len(), |i: int| magnitude(sum(values[i], -mean)) as int)
}

/// How far a value exceeds the mean by more than eight.
pub open spec fn excess(value: int, mean: int) -> int {
    let beyond = sum(sum(value, -mean), -fraction(8, 1));
    if beyond < 0 {
        0
    } else {
        beyond
    }
}

/// How far each value exceeds the mean by more than eight.
pub open spec fn excesses(values: Seq<int>, mean: int) -> Seq<int> {
    Seq::new(values.len(), |i: int| excess(values[i], mean))
}

/// The steps from each value to the next.
pub open spec fn steps(values: Seq<int>) -> Seq<int> {
    Seq::new(
        (values.len() - 1) as nat,
        |i: int| magnitude(sum(values[i + 1], -values[i])) as int,
    )
}

/// The levels of a row whose samples are `values`.
pub open spec fn row_levels(values: Seq<int>) -> Levels {
    let mean = mean_of(values);
    let count = fraction(values.len(), 1);
    let gaps = fraction(if values.len() > 1 { (values.len() - 1) as nat } else { 1 }, 1);
    Levels {
        mean: product(mean, fraction(2, 1)),
        contrast: quotient(total(deviations(values, mean)), count),
        detail: sum(
            quotient(total(excesses(values, mean)), count),
            quotient(total(steps(values)), gaps),
        ),
    }
}

/// The levels of every row of a picture.
pub open spec fn picture_levels(p: Picture) -> Seq<Levels> {
    Seq::new(p.height, |y: int| row_levels(row_samples(p, y)))
}

/// A number that is not negative and at most 4096.
pub open spec fn moderate(n: int) -> bool {
    0 <= n <= pow2(161)
}

/// Levels that can be compared without leaving the range of the format.
pub open spec fn tame(levels: Levels) -> bool {
    moderate(levels.mean) && moderate(levels.contrast) && moderate(levels.detail)
}

/// Whether all levels of a profile are tame.
pub open spec fn all_tame(profile: Seq<Levels>) -> bool {
    forall|i: int| 0 <= i < profile.len() ==> tame(#[trigger] profile[i])
}

/// The weights of the colours in the brightness of a pixel.
#[derive(Clone, Copy)]
pub struct Weights {
    red: Single,
    green: Single,
    blue: Single,
}

impl View for Weights {
    type V = (int, int, int);

    /// The weights of red, green and blue, in units.
    closed spec fn view(&self) -> (int, int, int) {
        (self.red.units(), self.green.units(), self.blue.units())
    }
}

/// The weights of red, green and blue in the brightness of a pixel, in units.
pub open spec fn color_shares() -> (int, int, int) {
    (fraction(299, 1000), fraction(587, 1000), fraction(114, 1000))
}

impl Weights {
    #[verifier::type_invariant]
    spec fn standard(self) -> bool {
        self@ == color_shares()
    }

    /// The weights by which brightness is told.
    pub fn new() -> (weights: Weights)
        ensures
            weights@ == color_shares(),
    {
        Weights {
            red: Single::ratio(299, 1000),
            green: Single::ratio(587, 1000),
            blue: Single::ratio(114, 1000),
        }
    }

    /// The brightness of a pixel without regard to its alpha.
    pub fn gray(&self, pixel: [u8; 4]) -> (level: Single)
        ensures
            level.units() == gray(pixel@),
            0 <= level.units() <= pow2(159),
    {
        proof {
            use_type_invariant(self);
            lemma_gray_bounded(pixel@);
            lemma_weight(299);
            lemma_weight(587);
            lemma_weight(114);
            lemma_bound_finite(1, 158);
            lemma_bound_finite(1, 157);
            assert(1 * pow2(158) == pow2(158));
            assert(1 * pow2(157) == pow2(157));
        }
        let red = self.red.times(Single::whole(pixel[0] as u64));
        let green = self.green.times(Single::whole(pixel[1] as u64));
        let blue = self.blue.times(Single::whole(pixel[2] as u64));
        red.plus(green).plus(blue)
    }

    /// The brightness of a pixel laid over white.
    pub fn gray_alpha(&self, pixel: [u8; 4]) -> (level: Single)
        ensures
            level.units() == gray_over_white(pixel@),
            0 <= level.units() <= pow2(160),
    {
        proof {
            lemma_over_white_bounded(pixel@);
        }
        let full = Single::whole(255);
        let alpha = Single::whole(pixel[3] as u64).over(full);
        let seen = self.gray(pixel).times(alpha);
        let white = full.times(Single::whole(1).minus(alpha));
        seen.plus(white)
    }
}

/// The brightness of a pixel without regard to its alpha.
pub fn gray_pixel(pixel: [u8; 4]) -> (level: Single)
    ensures
        level.units() == gray(pixel@),
{
    Weights::new().gray(pixel)
}

/// The brightness of a pixel laid over white.
pub fn gray_pixel_alpha(pixel: [u8; 4]) -> (level: Single)
    ensures
        level.units() == gray_over_white(pixel@),
{
    Weights::new().gray_alpha(pixel)
}

/// Brightness over white lies between zero and 2048.
proof fn lemma_over_white_bounded(pixel: Seq<u8>)
    ensures
        fraction(255, 1) == 255 * one(),
        0 < 255 * one() < limit(),
        fraction(1, 1) == one(),
        fraction(pixel[3] as nat, 1) == pixel[3] * one(),
        0 <= opacity(pixel) <= one() < limit(),
        0 <= sum(fraction(1, 1), -opacity(pixel)) <= one(),
        0 <= product(gray(pixel), opacity(pixel)) <= pow2(159) < limit(),
        0 <= product(fraction(255, 1), sum(fraction(1, 1), -opacity(pixel))) <= pow2(159),
        0 <= gray_over_white(pixel) <= pow2(160) < limit(),
        pow2(159) < limit(),
{
    lemma_gray_bounded(pixel);
    lemma_pow2_pos(149);
    lemma_whole_exact(255);
    lemma_whole_exact(1);
    lemma_whole_exact(pixel[3] as nat);
    lemma_bound_finite(1, 149);
    lemma_bound_finite(1, 159);
    lemma_bound_finite(1, 160);
    assert(1 * pow2(149) == one());
    assert(1 * pow2(159) == pow2(159));
    assert(1 * pow2(160) == pow2(160));
    let v = pixel[3] as int;
    assert((v * one()) * one() <= (1 * pow2(149)) * (255 * one())) by (nonlinear_arith)
        requires
            0 <= v <= 255,
            pow2(149) == one(),
            one() > 0,
    ;
    lemma_quotient_bounded(v * one(), (255 * one()) as int, 1, 149);
    let alpha = opacity(pixel);
    lemma_distance_bounded(one() as int, alpha, 1, 149);
    let rest = sum(fraction(1, 1), -alpha);
    lemma_pow2_adds(10, 149);
    lemma2_to64();
    let level = gray(pixel);
    let top: nat = pow2(159);
    let unit: nat = one();
    assert(level * alpha <= top * unit) by (nonlinear_arith)
        requires
            0 <= level <= top,
            0 <= alpha <= unit,
    ;
    lemma_product_bounded(level, alpha, 1, 159);
    assert((255 * unit) * rest <= top * unit) by (nonlinear_arith)
        requires
            0 <= rest <= unit,
            top == 1024 * unit,
    ;
    lemma_product_bounded((255 * one()) as int, rest, 1, 159);
    lemma_pow2_unfold(160);
    lemma_sum_bounded(
        product(gray(pixel), alpha),
        product(fraction(255, 1), rest),
        1,
        160,
    );
}

proof fn lemma_weight(n: nat)
    requires
        n <= 1000,
    ensures
        0 <= fraction(n, 1000) <= one() < limit(),
{
    lemma_pow2_pos(149);
    lemma2_to64();
    assert(1 * pow2(149) == one());
    assert(n * one() <= one() * 1000) by (nonlinear_arith)
        requires
            n <= 1000,
            one() > 0,
    ;
    assert(n * one() >= 0) by (nonlinear_arith)
        requires
            one() > 0,
    ;
    lemma_rounded_at_most((n * one()) as nat, 1000, 1, 149);
    lemma_bound_finite(1, 149);
}

/// Brightness lies between zero and 1024.
proof fn lemma_gray_bounded(pixel: Seq<u8>)
    ensures
        0 <= product(fraction(299, 1000), fraction(pixel[0] as nat, 1)) <= pow2(157),
        0 <= product(fraction(587, 1000), fraction(pixel[1] as nat, 1)) <= pow2(157),
        0 <= product(fraction(114, 1000), fraction(pixel[2] as nat, 1)) <= pow2(157),
        0 <= sum(
            product(fraction(299, 1000), fraction(pixel[0] as nat, 1)),
            product(fraction(587, 1000), fraction(pixel[1] as nat, 1)),
        ) <= pow2(158),
        0 <= gray(pixel) <= pow2(159) < limit(),
        fraction(pixel[0] as nat, 1) == pixel[0] * one(),
        fraction(pixel[1] as nat, 1) == pixel[1] * one(),
        fraction(pixel[2] as nat, 1) == pixel[2] * one(),
        0 <= pixel[0] * one() < limit(),
        0 <= pixel[1] * one() < limit(),
        0 <= pixel[2] * one() < limit(),
{
    lemma_weight(299);
    lemma_weight(587);
    lemma_weight(114);
    lemma_tinted(fraction(299, 1000), pixel[0]);
    lemma_tinted(fraction(587, 1000), pixel[1]);
    lemma_tinted(fraction(114, 1000), pixel[2]);
    let r = product(fraction(299, 1000), fraction(pixel[0] as nat, 1));
    let g = product(fraction(587, 1000), fraction(pixel[1] as nat, 1));
    let b = product(fraction(114, 1000), fraction(pixel[2] as nat, 1));
    lemma_pow2_unfold(158);
    lemma_pow2_unfold(159);
    assert(1 * pow2(158) == pow2(158));
    assert(1 * pow2(159) == pow2(159));
    lemma_sum_bounded(r, g, 1, 158);
    lemma_sum_bounded(sum(r, g), b, 1, 159);
}

proof fn lemma_tinted(weight: int, value: u8)
    requires
        0 <= weight <= one(),
    ensures
        fraction(value as nat, 1) == value * one(),
        0 <= value * one() < limit(),
        0 <= product(weight, fraction(value as nat, 1)) <= pow2(157),
{
    lemma_whole_exact(value as nat);
    lemma_pow2_adds(8, 149);
    lemma2_to64();
    assert(1 * pow2(157) == pow2(157));
    let v = value * one();
    assert(weight * v <= pow2(157) * one()) by (nonlinear_arith)
        requires
            0 <= weight <= one(),
            v == value * one(),
            0 <= value <= 256,
            pow2(157) == 256 * one(),
            one() >= 0,
    ;
    lemma_product_bounded(weight, v as int, 1, 157);
}

/// The profile of one row.
#[derive(Clone, Copy, Debug)]
pub struct RowProfile {
    mean: Single,
    contrast: Single,
    detail: Single,
}

impl View for RowProfile {
    type V = Levels;

    closed spec fn view(&self) -> Levels {
        Levels {
            mean: self.mean.units(),
            contrast: self.contrast.units(),
            detail: self.detail.units(),
        }
    }
}

impl RowProfile {
    /// Twice the mean of the row, its contrast, and its bright spots and steps.
    pub fn parts(&self) -> (parts: (Single, Single, Single))
        ensures
            parts.0.units() == self@.mean,
            parts.1.units() == self@.contrast,
            parts.2.units() == self@.detail,
    {
        (self.mean, self.contrast, self.detail)
    }
}

/// The levels of the rows of a profile.
pub open spec fn levels_of(rows: Seq<RowProfile>) -> Seq<Levels> {
    Seq::new(rows.len(), |i: int| rows[i]@)
}

spec fn values_of(numbers: Seq<Single>) -> Seq<int> {
    Seq::new(numbers.len(), |i: int| numbers[i].units())
}

proof fn lemma_total_push(values: Seq<int>, value: int)
    ensures
        total(values.push(value)) == sum(total(values), value),
{
    assert(values.push(value).drop_last() =~= values);
}

/// Adding one more number up to 1024 to a bounded total.
proof fn lemma_total_step(so_far: int, value: int, n: nat)
    requires
        0 <= so_far <= n * pow2(159),
        0 <= value <= pow2(159),
        n < 1000,
    ensures
        0 <= sum(so_far, value) <= (n + 1) * pow2(159) < limit(),
        n * pow2(159) < limit(),
        pow2(159) < limit(),
{
    assert((n + 1) * pow2(159) == n * pow2(159) + pow2(159)) by (nonlinear_arith);
    lemma_sum_bounded(so_far, value, n + 1, 159);
    lemma_pow2_pos(159);
    lemma_bound_finite(1, 159);
    assert(1 * pow2(159) == pow2(159));
    lemma_bound_finite(n, 159);
}

/// The average of `n` numbers up to 1024 is at most 1024.
proof fn lemma_average(sum_of_all: int, n: nat)
    requires
        0 <= sum_of_all <= n * pow2(159),
        0 < n < 1000,
    ensures
        fraction(n, 1) == n * one(),
        0 < n * one() < limit(),
        0 <= quotient(sum_of_all, fraction(n, 1)) <= pow2(159) < limit(),
{
    lemma_whole_exact(n);
    lemma_pow2_pos(149);
    assert(n * one() > 0) by (nonlinear_arith)
        requires
            n > 0,
            one() > 0,
    ;
    lemma_bound_finite(n, 159);
    assert(1 * pow2(159) == pow2(159));
    assert(sum_of_all * one() <= pow2(159) * (n * one())) by (nonlinear_arith)
        requires
            sum_of_all <= n * pow2(159),
            one() >= 0,
    ;
    lemma_quotient_bounded(sum_of_all, (n * one()) as int, 1, 159);
}

proof fn lemma_excess_bounded(value: int, mean: int)
    requires
        0 <= value <= pow2(159),
        0 <= mean <= pow2(159),
    ensures
        0 <= excess(value, mean) <= pow2(159),
        fraction(8, 1) == 8 * one(),
        0 <= 8 * one() < limit(),
        !infinite(sum(value, -mean)),
        pow2(159) < limit(),
{
    assert(1 * pow2(159) == pow2(159));
    lemma_distance_bounded(value, mean, 1, 159);
    lemma_whole_exact(8);
    lemma2_to64();
    lemma_pow2_adds(10, 149);
    let above = sum(value, -mean);
    if above >= 0 {
        lemma_pow2_pos(149);
        lemma_distance_bounded(above, 8 * one() as int, 1, 159);
    } else {
        assert(rounded(above - 8 * one(), 1) <= 0);
    }
}

/// Column `step` of `count` lies inside the row.
pub proof fn lemma_sample_inside(width: int, count: int, step: int)
    requires
        1 <= width,
        0 <= step < count,
    ensures
        0 <= sample_column(width, count, step) < width,
        0 <= step * (width - 1) <= count * width,
{
    assert(0 <= step * (width - 1) <= (count - 1) * (width - 1) <= count * width)
        by (nonlinear_arith)
        requires
            0 <= step <= count - 1,
            width >= 1,
    ;
    if count > 1 {
        let n = step * (width - 1);
        let d = count - 1;
        assert(0 <= n / d <= width - 1) by (nonlinear_arith)
            requires
                0 <= n <= d * (width - 1),
                d > 0,
        ;
    }
}

/// The column of the `step`th of `count` pixels spread evenly over a row.
pub fn spread(width: u32, count: u32, step: u32) -> (column: u32)
    requires
        1 <= width,
        step < count,
    ensures
        column == sample_column(width as int, count as int, step as int),
        column < width,
{
    proof {
        lemma_sample_inside(width as int, count as int, step as int);
        assert(count as int * width as int <= 0xffff_ffff * 0xffff_ffff) by (nonlinear_arith)
            requires
                0 <= count <= 0xffff_ffff,
                0 <= width <= 0xffff_ffff,
        ;
    }
    if count == 1 {
        0
    } else {
        let n: u64 = step as u64 * (width - 1) as u64;
        (n / (count - 1) as u64) as u32
    }
}

/// The brightness of the pixels of one row that are looked at.
fn sample_row(weights: &Weights, image: &Image, y: u32) -> (values: Vec<Single>)
    requires
        image@.width > 0,
        y < image@.height,
    ensures
        values_of(values@) =~= row_samples(image@, y as int),
        forall|i: int| 0 <= i < values@.len() ==> 0 <= (#[trigger] values@[i]).units() <= pow2(159),
{
    let width: u32 = image.width();
    let count: u32 = if width < ROW_SAMPLES {
        width
    } else {
        ROW_SAMPLES
    };
    let mut values: Vec<Single> = Vec::new();
    let mut step: u32 = 0;
    while step < count
        invariant
            step <= count,
            count == sample_count(width as int),
            1 <= count <= width,
            width == image@.width,
            y < image@.height,
            values@.len() == step,
            forall|i: int|
                0 <= i < step ==> (#[trigger] values@[i]).units() == row_samples(
                    image@,
                    y as int,
                )[i] && 0 <= values@[i].units() <= pow2(159),
        decreases count - step,
    {
        let x: u32 = spread(width, count, step);
        let level = weights.gray(image.get_pixel(x, y));
        values.push(level);
        step += 1;
    }
    values
}

/// The profile of a row whose samples are `values`.
fn profile_of(values: &Vec<Single>) -> (row: RowProfile)
    requires
        0 < values@.len() <= ROW_SAMPLES,
        forall|i: int| 0 <= i < values@.len() ==> 0 <= (#[trigger] values@[i]).units() <= pow2(159),
    ensures
        row@ == row_levels(values_of(values@)),
        tame(row@),
{
    let n: usize = values.len();
    let ghost all = values_of(values@);
    let mut whole = Single::zero();
    let mut i: usize = 0;
    while i < n
        invariant
            i <= n,
            n == values@.len(),
            n <= ROW_SAMPLES,
            all == values_of(values@),
            forall|j: int| 0 <= j < n ==> 0 <= (#[trigger] values@[j]).units() <= pow2(159),
            whole.units() == total(all.take(i as int)),
            0 <= whole.units() <= i * pow2(159),
        decreases n - i,
    {
        proof {
            assert(values@[i as int].units() == all[i as int]);
            assert(all.take(i + 1) =~= all.take(i as int).push(all[i as int]));
            lemma_total_push(all.take(i as int), all[i as int]);
            lemma_total_step(whole.units(), all[i as int], i as nat);
        }
        whole = whole.plus(values[i]);
        i += 1;
    }
    proof {
        assert(all.take(n as int) =~= all);
        lemma_average(whole.units(), n as nat);
    }
    let count = Single::whole(n as u64);
    let mean = whole.over(count);
    let ghost m = mean.units();
    let eight = Single::whole(8);
    let mut contrast = Single::zero();
    let mut bright = Single::zero();
    let mut edges = Single::zero();
    i = 0;
    while i < n
        invariant
            i <= n,
            n == values@.len(),
            n <= ROW_SAMPLES,
            all == values_of(values@),
            forall|j: int| 0 <= j < n ==> 0 <= (#[trigger] values@[j]).units() <= pow2(159),
            m == mean.units(),
            0 <= m <= pow2(159),
            eight.units() == fraction(8, 1),
            contrast.units() == total(deviations(all, m).take(i as int)),
            0 <= contrast.units() <= i * pow2(159),
            bright.units() == total(excesses(all, m).take(i as int)),
            0 <= bright.units() <= i * pow2(159),
            edges.units() == total(steps(all).take(if i == 0 { 0 } else { i - 1 })),
            0 <= edges.units() <= (if i == 0 { 0 } else { i - 1 }) * pow2(159),
        decreases n - i,
    {
        let value = values[i];
        proof {
            assert(values@[i as int].units() == all[i as int]);
            assert(1 * pow2(159) == pow2(159));
            lemma_distance_bounded(value.units(), m, 1, 159);
            lemma_excess_bounded(value.units(), m);
            let d = deviations(all, m);
            assert(d.take(i + 1) =~= d.take(i as int).push(d[i as int]));
            lemma_total_push(d.take(i as int), d[i as int]);
            lemma_total_step(contrast.units(), d[i as int], i as nat);
            let x = excesses(all, m);
            assert(x.take(i + 1) =~= x.take(i as int).push(x[i as int]));
            lemma_total_push(x.take(i as int), x[i as int]);
            lemma_total_step(bright.units(), x[i as int], i as nat);
        }
        contrast = contrast.plus(value.minus(mean).absolute());
        bright = bright.plus(value.minus(mean).minus(eight).greater(Single::zero()));
        if i > 0 {
            let previous = values[i - 1];
            proof {
                assert(values@[i - 1].units() == all[i - 1]);
                lemma_distance_bounded(value.units(), previous.units(), 1, 159);
                let t = steps(all);
                assert(t.take(i as int) =~= t.take(i - 1).push(t[i - 1]));
                lemma_total_push(t.take(i - 1), t[i - 1]);
                lemma_total_step(edges.units(), t[i - 1], (i - 1) as nat);
            }
            edges = edges.plus(value.minus(previous).absolute());
        }
        i += 1;
    }
    let gaps: u64 = if n > 1 {
        (n - 1) as u64
    } else {
        1
    };
    proof {
        assert(deviations(all, m).take(n as int) =~= deviations(all, m));
        assert(excesses(all, m).take(n as int) =~= excesses(all, m));
        assert(steps(all).take(n - 1) =~= steps(all));
        lemma_average(contrast.units(), n as nat);
        lemma_average(bright.units(), n as nat);
        lemma_pow2_pos(159);
        assert((n - 1) * pow2(159) <= gaps * pow2(159)) by (nonlinear_arith)
            requires
                n - 1 <= gaps,
                pow2(159) > 0,
        ;
        lemma_average(edges.units(), gaps as nat);
        lemma_pow2_unfold(160);
        lemma_pow2_unfold(161);
        assert(1 * pow2(160) == pow2(160));
        lemma_sum_bounded(
            quotient(bright.units(), count.units()),
            quotient(edges.units(), fraction(gaps as nat, 1)),
            1,
            160,
        );
        lemma_whole_exact(2);
        assert(m * (2 * one()) <= pow2(160) * one()) by (nonlinear_arith)
            requires
                m <= pow2(159),
                pow2(160) == 2 * pow2(159),
                one() >= 0,
        ;
        lemma_product_bounded(m, 2 * one() as int, 1, 160);
    }
    let detail = bright.over(count).plus(edges.over(Single::whole(gaps)));
    RowProfile { mean: mean.times(Single::whole(2)), contrast: contrast.over(count), detail }
}

/// The profile of every row of an image.
pub fn compute_cols(image: &Image) -> (rows: Vec<RowProfile>)
    requires
        image@.height > 0 ==> image@.width > 0,
    ensures
        levels_of(rows@) =~= picture_levels(image@),
        all_tame(levels_of(rows@)),
{
    let weights = Weights::new();
    let height: u32 = image.height();
    let mut rows: Vec<RowProfile> = Vec::new();
    let mut y: u32 = 0;
    while y < height
        invariant
            y <= height,
            height == image@.height,
            image@.height > 0 ==> image@.width > 0,
            rows@.len() == y,
            forall|i: int|
                0 <= i < y ==> (#[trigger] rows@[i])@ == row_levels(row_samples(image@, i)) && tame(
                    rows@[i]@,
                ),
        decreases height - y,
    {
        let values = sample_row(&weights, image, y);
        let ghost samples = row_samples(image@, y as int);
        proof {
            assert(values@.len() == values_of(values@).len());
            assert(values_of(values@) == samples);
        }
        rows.push(profile_of(&values));
        y += 1;
    }
    rows
}

/// Numbers up to 1024 add up to no more than that times their count.
proof fn lemma_total_bounded(values: Seq<int>)
    requires
        values.len() < 1000,
        forall|i: int| 0 <= i < values.len() ==> 0 <= #[trigger] values[i] <= pow2(159),
    ensures
        0 <= total(values) <= values.len() * pow2(159),
    decreases values.len(),
{
    if values.len() == 0 {
        assert(0 * pow2(159) == 0);
    } else {
        let fewer = values.drop_last();
        assert forall|i: int| 0 <= i < fewer.len() implies 0 <= #[trigger] fewer[i] <= pow2(
            159,
        ) by {
            assert(fewer[i] == values[i]);
        }
        lemma_total_bounded(fewer);
        lemma_total_step(total(fewer), values.last(), fewer.len());
    }
}

/// The levels of a row are tame.
proof fn lemma_row_tame(values: Seq<int>)
    requires
        0 < values.len() <= ROW_SAMPLES,
        forall|i: int| 0 <= i < values.len() ==> 0 <= #[trigger] values[i] <= pow2(159),
    ensures
        tame(row_levels(values)),
{
    let n = values.len();
    lemma_total_bounded(values);
    lemma_average(total(values), n);
    let m = mean_of(values);
    assert(1 * pow2(159) == pow2(159));
    let d = deviations(values, m);
    assert forall|i: int| 0 <= i < d.len() implies 0 <= #[trigger] d[i] <= pow2(159) by {
        lemma_distance_bounded(values[i], m, 1, 159);
    }
    let x = excesses(values, m);
    assert forall|i: int| 0 <= i < x.len() implies 0 <= #[trigger] x[i] <= pow2(159) by {
        lemma_excess_bounded(values[i], m);
    }
    let t = steps(values);
    assert forall|i: int| 0 <= i < t.len() implies 0 <= #[trigger] t[i] <= pow2(159) by {
        lemma_distance_bounded(values[i + 1], values[i], 1, 159);
    }
    lemma_total_bounded(d);
    lemma_total_bounded(x);
    lemma_total_bounded(t);
    let gaps: nat = if n > 1 {
        (n - 1) as nat
    } else {
        1
    };
    lemma_average(total(d), n);
    lemma_average(total(x), n);
    lemma_pow2_pos(159);
    assert((n - 1) * pow2(159) <= gaps * pow2(159)) by (nonlinear_arith)
        requires
            n - 1 <= gaps,
            pow2(159) > 0,
    ;
    lemma_average(total(t), gaps);
    lemma_pow2_unfold(160);
    lemma_pow2_unfold(161);
    assert(1 * pow2(160) == pow2(160));
    lemma_sum_bounded(
        quotient(total(x), fraction(n, 1)),
        quotient(total(t), fraction(gaps, 1)),
        1,
        160,
    );
    lemma_whole_exact(2);
    assert(m * (2 * one()) <= pow2(160) * one()) by (nonlinear_arith)
        requires
            m <= pow2(159),
            pow2(160) == 2 * pow2(159),
            one() >= 0,
    ;
    lemma_product_bounded(m, 2 * one() as int, 1, 160);
}

/// The profile of every picture is tame.
pub proof fn lemma_picture_tame(p: Picture)
    requires
        p.width > 0,
    ensures
        all_tame(picture_levels(p)),
{
    assert forall|y: int| 0 <= y < picture_levels(p).len() implies tame(
        #[trigger] picture_levels(p)[y],
    ) by {
        let values = row_samples(p, y);
        assert forall|i: int| 0 <= i < values.len() implies 0 <= #[trigger] values[i] <= pow2(
            159,
        ) by {
            lemma_gray_bounded(
                p.pixel(sample_column(p.width as int, sample_count(p.width as int), i), y),
            );
        }
        lemma_row_tame(values);
    }
}

/// A pixel is not apart in brightness from itself.
pub proof fn lemma_same_brightness(pixel: Seq<u8>)
    ensures
        magnitude(sum(gray(pixel), -gray(pixel))) == 0,
        0 <= gray(pixel) < limit(),
{
    lemma_gray_bounded(pixel);
    crate::single::lemma_zero_rounded(1);
}

} // verus!
