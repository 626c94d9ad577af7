//! Subtitles gathered from the frames of a film.

use crate::preview::{larger, least, less, minus_or_zero, most, smaller};
use crate::profile::{fraction, gray, total, Weights};
use crate::raster::{
    byte_count, join_rows, lemma_pixels_determine, pad_width, padded, stacked, Image, Picture,
};
use crate::single::{
    confined, lemma_distance_bounded, lemma_bound_finite, lemma_part_finite,
    lemma_quotient_not_negative, lemma_sum_not_negative, lemma_whole_exact, lemma_whole_positive,
    limit, magnitude, nearest_integer, one, product, quotient, sum, Single,
};
use vstd::arithmetic::power2::pow2;
use vstd::prelude::*;

verus! {

/// Columns of the raster by which subtitles are compared.
pub const CELL_COLUMNS: u32 = 32;

/// Rows of the raster by which subtitles are compared.
pub const CELL_ROWS: u32 = 12;

/// How subtitles are gathered.
#[derive(Clone, Copy, Debug)]
pub struct SubtitleConfig {
    pub bottom_ratio: Single,
    pub stable_frames: usize,
    pub min_gap_frames: usize,
    pub calibration_frames: usize,
}

/// The rows of a frame in which subtitles are shown.
#[derive(Clone, Copy, Debug, PartialEq, Eq, Structural)]
pub struct SubtitleRegion {
    pub y: u32,
    pub height: u32,
}

/// What became of a frame.
#[derive(Clone, Copy, Debug, PartialEq, Eq, Structural)]
pub enum SubtitleStatus {
    Calibrating { frames: usize, needed: usize },
    Ready,
    Added,
    Duplicate,
}

/// The greater of two distances in brightness.
pub open spec fn sharper(a: int, b: int) -> int {
    if a < b {
        b
    } else {
        a
    }
}

/// How far two pixels are apart in brightness.
pub open spec fn contrast(p: Picture, x: int, y: int, v: int, w: int) -> int {
    magnitude(sum(gray(p.pixel(x, y)), -gray(p.pixel(v, w)))) as int
}

/// What a pixel adds to the score of its row, if anything.
pub open spec fn row_gain(p: Picture, x: int, y: int) -> Option<int> {
    let level = gray(p.pixel(x, y));
    let edge = sharper(contrast(p, x, y, x - 1, y), contrast(p, x, y, x, less(y, 1)));
    if level > fraction(175, 1) && edge > fraction(22, 1) {
        Some(fraction(2, 1))
    } else if level > fraction(210, 1) && edge > fraction(12, 1) {
        Some(fraction(8, 10))
    } else {
        None
    }
}

/// The distance of the pixels of a row that are looked at for text.
pub open spec fn row_stride(width: int) -> int {
    most(width / 240, 1)
}

/// How many pixels of a row are looked at for text.
pub open spec fn row_looks(width: int) -> nat {
    if width > 1 {
        ((width - 2) / row_stride(width) + 1) as nat
    } else {
        0
    }
}

/// How much text the first `n` pixels looked at in a row show.
pub open spec fn row_score(p: Picture, y: int, n: nat) -> int
    decreases n,
{
    if n == 0 {
        0
    } else {
        let before = row_score(p, y, (n - 1) as nat);
        match row_gain(p, 1 + (n - 1) * row_stride(p.width as int), y) {
            Some(gain) => sum(before, gain),
            None => before,
        }
    }
}

/// How much text a row shows.
pub open spec fn text_in_row(p: Picture, y: int) -> int {
    row_score(p, y, row_looks(p.width as int))
}

/// How much text a row shows in the first `n` of `all` frames, on average over all.
pub open spec fn mean_text(frames: Seq<Picture>, y: int, n: nat, all: nat) -> int
    decreases n,
{
    if n == 0 {
        0
    } else {
        sum(
            mean_text(frames, y, (n - 1) as nat, all),
            quotient(text_in_row(frames[n - 1], y), fraction(all, 1)),
        )
    }
}

/// The rows in which subtitles are searched: the first, and the one after the last.
pub open spec fn searched_rows(height: int) -> (int, int) {
    let h = fraction(height as nat, 1);
    let start = confined(nearest_integer(product(h, fraction(45, 100))), 0, u32::MAX as int);
    let end = most(
        confined(nearest_integer(product(h, fraction(96, 100))), 0, u32::MAX as int),
        confined(
            nearest_integer(sum(fraction(start as nat, 1), fraction(1, 1))),
            0,
            u32::MAX as int,
        ),
    );
    (start, least(end, height))
}

/// How many rows are taken together in the search.
pub open spec fn searched_window(height: int) -> int {
    let (start, end) = searched_rows(height);
    least(confined(height / 18, 16, 80), less(end, start))
}

/// How much text the rows of a frame show, on average over frames; rows outside the search
/// count as empty.
pub open spec fn row_scores(frames: Seq<Picture>, height: int) -> Seq<int> {
    let (start, end) = searched_rows(height);
    Seq::new(
        height as nat,
        |y: int|
            if start <= y < end {
                mean_text(frames, y, frames.len(), frames.len())
            } else {
                0
            },
    )
}

/// A place and the text there.
pub struct Spot {
    pub y: int,
    pub score: int,
}

/// The rows with the most text among the first `n` places from `start` on.
pub open spec fn best_spot(scores: Seq<int>, window: int, start: int, n: nat) -> Spot
    decreases n,
{
    if n == 0 {
        Spot { y: start, score: 0 }
    } else {
        let best = best_spot(scores, window, start, (n - 1) as nat);
        let y = start + n - 1;
        let score = total(scores.subrange(y, y + window));
        if score > best.score {
            Spot { y, score }
        } else {
            best
        }
    }
}

/// How many places are tried in the search.
pub open spec fn tried_places(height: int) -> nat {
    let (start, end) = searched_rows(height);
    let window = searched_window(height);
    if window > 0 && less(end, window) >= start {
        (less(end, window) - start + 1) as nat
    } else {
        0
    }
}

/// The rows at the bottom that are taken where no text is found.
pub open spec fn bottom_region(height: int, ratio: int) -> SubtitleRegion {
    let low = fraction(12, 100);
    let high = fraction(1, 2);
    let bounded = if ratio < low {
        low
    } else if high < ratio {
        high
    } else {
        ratio
    };
    let rows = most(
        confined(
            nearest_integer(product(fraction(height as nat, 1), bounded)),
            0,
            u32::MAX as int,
        ),
        24,
    );
    SubtitleRegion { y: less(height, rows) as u32, height: least(rows, height) as u32 }
}

/// The rows in which subtitles are shown.
pub open spec fn region_of(frames: Seq<Picture>, ratio: int) -> SubtitleRegion {
    if frames.len() == 0 {
        SubtitleRegion { y: 0, height: 1 }
    } else {
        let height = most(frames[0].height as int, 1);
        let width = most(frames[0].width as int, 1);
        let (start, end) = searched_rows(height);
        let window = searched_window(height);
        let best = best_spot(row_scores(frames, height), window, start, tried_places(height));
        if best.score <= product(fraction(width as nat, 1), fraction(8, 100)) {
            bottom_region(height, ratio)
        } else {
            let padding = most(window / 3, 8);
            let top = less(best.y, padding);
            let low = least(best.y + window + padding, height);
            SubtitleRegion { y: top as u32, height: most(low - top, 1) as u32 }
        }
    }
}

/// Whether the rows that are searched are there in all frames.
pub open spec fn rows_there(frames: Seq<Picture>) -> bool {
    forall|i: int|
        0 <= i < frames.len() ==> (#[trigger] frames[i]).width <= 1 || frames[i].height
            >= searched_rows(most(frames[0].height as int, 1)).1
}

/// Brightness of pixels can be compared.
proof fn lemma_levels_apart(a: int, b: int)
    requires
        0 <= a <= pow2(159),
        0 <= b <= pow2(159),
    ensures
        a < limit(),
        b < limit(),
        magnitude(sum(a, -b)) < limit(),
{
    assert(1 * pow2(159) == pow2(159));
    lemma_bound_finite(1, 159);
    lemma_distance_bounded(a, b, 1, 159);
}

fn apart(a: Single, b: Single) -> (distance: Single)
    requires
        0 <= a.units() <= pow2(159),
        0 <= b.units() <= pow2(159),
    ensures
        distance.units() == magnitude(sum(a.units(), -b.units())),
{
    proof {
        lemma_levels_apart(a.units(), b.units());
    }
    a.minus(b).absolute()
}

fn gain_at(weights: &Weights, image: &Image, x: u32, y: u32) -> (gain: Option<Single>)
    requires
        1 <= x < image@.width,
        y < image@.height,
    ensures
        match row_gain(image@, x as int, y as int) {
            Some(expected) => gain matches Some(found) && found.units() == expected
                && found.units() >= 0,
            None => gain is None,
        },
{
    let here = weights.gray(image.get_pixel(x, y));
    let left = weights.gray(image.get_pixel(x - 1, y));
    let up = weights.gray(image.get_pixel(x, minus_or_zero(y, 1)));
    let edge = apart(here, left).greater(apart(here, up));
    if Single::whole(175).below(here) && Single::whole(22).below(edge) {
        Some(Single::whole(2))
    } else if Single::whole(210).below(here) && Single::whole(12).below(edge) {
        Some(Single::ratio(8, 10))
    } else {
        None
    }
}

/// How much text a row shows.
pub fn row_text_score(image: &Image, y: u32) -> (score: Single)
    requires
        image@.width <= 1 || y < image@.height,
    ensures
        score.units() == text_in_row(image@, y as int),
        score.units() >= 0,
{
    let weights = Weights::new();
    let width: u32 = image.width();
    let step: u32 = larger(width / 240, 1);
    let mut score = Single::zero();
    let mut x: u64 = 1;
    let ghost mut n: nat = 0;
    proof {
        assert(0 * step == 0);
    }
    while x < width as u64
        invariant
            width == image@.width,
            width <= 1 || y < image@.height,
            step == row_stride(width as int),
            1 <= step <= width || width <= 1,
            x == 1 + n * step,
            n > 0 ==> 1 + (n - 1) * step < width,
            x <= width + step + 1,
            score.units() == row_score(image@, y as int, n),
            score.units() >= 0,
        decreases width + step + 1 - x,
    {
        if let Some(gain) = gain_at(&weights, image, x as u32, y) {
            proof {
                lemma_sum_not_negative(score.units(), gain.units());
            }
            score = score.plus(gain);
        }
        x += step as u64;
        proof {
            assert((n + 1) * step == n * step + step) by (nonlinear_arith);
            n = n + 1;
            assert((n - 1) * step == n * step - step) by (nonlinear_arith);
        }
    }
    proof {
        if width > 1 {
            let q = (width - 2) / step as int;
            assert(n == q + 1) by (nonlinear_arith)
                requires
                    q == (width - 2) / step as int,
                    step >= 1,
                    n >= 1,
                    (n - 1) * step <= width - 2,
                    width - 2 < n * step,
            ;
        } else {
            assert(n == 0);
        }
    }
    score
}

/// The views of images.
pub open spec fn pictures_of(images: Seq<Image>) -> Seq<Picture> {
    Seq::new(images.len(), |i: int| images[i]@)
}

/// How much text a row shows, on average over frames.
fn mean_row_text(frames: &Vec<Image>, y: u32) -> (score: Single)
    requires
        frames@.len() > 0,
        forall|i: int|
            0 <= i < frames@.len() ==> (#[trigger] frames@[i])@.width <= 1 || y
                < frames@[i]@.height,
    ensures
        score.units() == mean_text(
            pictures_of(frames@),
            y as int,
            frames@.len(),
            frames@.len(),
        ),
        score.units() >= 0,
{
    let ghost all = pictures_of(frames@);
    let count: usize = frames.len();
    proof {
        lemma_whole_positive(count as nat);
    }
    let n = Single::whole(count as u64);
    let mut score = Single::zero();
    let mut i: usize = 0;
    while i < count
        invariant
            i <= count,
            count == frames@.len(),
            all == pictures_of(frames@),
            n.units() == fraction(count as nat, 1),
            0 < n.units() < limit(),
            forall|j: int|
                0 <= j < frames@.len() ==> (#[trigger] frames@[j])@.width <= 1 || y
                    < frames@[j]@.height,
            score.units() == mean_text(all, y as int, i as nat, count as nat),
            score.units() >= 0,
        decreases count - i,
    {
        let text = row_text_score(&frames[i], y);
        let share = text.over(n);
        proof {
            lemma_quotient_not_negative(text.units(), n.units());
            lemma_sum_not_negative(score.units(), share.units());
            assert(all[i as int] == frames@[i as int]@);
        }
        score = score.plus(share);
        i += 1;
    }
    score
}

spec fn units_of(numbers: Seq<Single>) -> Seq<int> {
    Seq::new(numbers.len(), |i: int| numbers[i].units())
}

spec fn none_negative(numbers: Seq<Single>) -> bool {
    forall|i: int| 0 <= i < numbers.len() ==> (#[trigger] numbers[i]).units() >= 0
}

fn find_rows(height: u32) -> (rows: (u32, u32))
    ensures
        (rows.0 as int, rows.1 as int) == searched_rows(height as int),
        rows.1 <= height,
{
    proof {
        lemma_part_finite(height as nat, 1);
        lemma_part_finite(45, 100);
        lemma_part_finite(96, 100);
    }
    let h = Single::whole(height as u64);
    let most_u32: i64 = u32::MAX as i64;
    let start: i64 = h.times(Single::ratio(45, 100)).round_within(0, most_u32);
    let share: i64 = h.times(Single::ratio(96, 100)).round_within(0, most_u32);
    proof {
        lemma_part_finite(start as nat, 1);
    }
    let next: i64 = Single::whole(start as u64).plus(Single::whole(1)).round_within(0, most_u32);
    let end: u32 = larger(share as u32, next as u32);
    (start as u32, smaller(end, height))
}

/// How much text the rows of frames show.
fn score_rows(frames: &Vec<Image>, height: u32, start: u32, end: u32) -> (scores: Vec<Single>)
    requires
        frames@.len() > 0,
        (start as int, end as int) == searched_rows(height as int),
        end <= height,
        forall|i: int|
            0 <= i < frames@.len() ==> (#[trigger] frames@[i])@.width <= 1 || end
                <= frames@[i]@.height,
    ensures
        units_of(scores@) =~= row_scores(pictures_of(frames@), height as int),
        none_negative(scores@),
{
    let mut scores: Vec<Single> = Vec::new();
    let mut y: u32 = 0;
    while y < height
        invariant
            y <= height,
            frames@.len() > 0,
            (start as int, end as int) == searched_rows(height as int),
            end <= height,
            forall|i: int|
                0 <= i < frames@.len() ==> (#[trigger] frames@[i])@.width <= 1 || end
                    <= frames@[i]@.height,
            scores@.len() == y,
            none_negative(scores@),
            forall|j: int|
                0 <= j < y ==> (#[trigger] scores@[j]).units() == row_scores(
                    pictures_of(frames@),
                    height as int,
                )[j],
        decreases height - y,
    {
        let score = if start <= y && y < end {
            mean_row_text(frames, y)
        } else {
            Single::zero()
        };
        scores.push(score);
        y += 1;
    }
    scores
}

fn window_total(scores: &Vec<Single>, y: usize, window: usize) -> (result: Single)
    requires
        y + window <= scores@.len(),
        none_negative(scores@),
    ensures
        result.units() == total(units_of(scores@).subrange(y as int, y + window)),
        result.units() >= 0,
{
    let length: usize = scores.len();
    let ghost part = units_of(scores@).subrange(y as int, y + window);
    let mut result = Single::zero();
    let mut i: usize = 0;
    while i < window
        invariant
            i <= window,
            y + window <= length,
            length == scores@.len(),
            none_negative(scores@),
            part == units_of(scores@).subrange(y as int, y + window),
            result.units() == total(part.take(i as int)),
            result.units() >= 0,
        decreases window - i,
    {
        let score = scores[y + i];
        proof {
            assert(part.take(i + 1).drop_last() =~= part.take(i as int));
            assert(part.take(i + 1).last() == score.units());
            lemma_sum_not_negative(result.units(), score.units());
        }
        result = result.plus(score);
        i += 1;
    }
    proof {
        assert(part.take(window as int) =~= part);
    }
    result
}

fn find_best(scores: &Vec<Single>, window: u32, start: u32, tries: u32) -> (best: (u32, Single))
    requires
        none_negative(scores@),
        scores@.len() <= u32::MAX,
        tries > 0 ==> start + tries - 1 + window <= scores@.len(),
    ensures
        (Spot { y: best.0 as int, score: best.1.units() }) == best_spot(
            units_of(scores@),
            window as int,
            start as int,
            tries as nat,
        ),
        tries > 0 ==> start <= best.0 < start + tries,
        tries == 0 ==> best.0 == start,
{
    let mut best_y: u32 = start;
    let mut best_score = Single::zero();
    let mut n: u32 = 0;
    while n < tries
        invariant
            n <= tries,
            none_negative(scores@),
            scores@.len() <= u32::MAX,
            tries > 0 ==> start + tries - 1 + window <= scores@.len(),
            (Spot { y: best_y as int, score: best_score.units() }) == best_spot(
                units_of(scores@),
                window as int,
                start as int,
                n as nat,
            ),
            n > 0 ==> start <= best_y < start + n,
            n == 0 ==> best_y == start,
        decreases tries - n,
    {
        let y: u32 = start + n;
        let score = window_total(scores, y as usize, window as usize);
        if best_score.below(score) {
            best_score = score;
            best_y = y;
        }
        n += 1;
    }
    (best_y, best_score)
}

fn bottom_rows(height: u32, ratio: Single) -> (region: SubtitleRegion)
    ensures
        region == bottom_region(height as int, ratio.units()),
{
    let low = Single::ratio(12, 100);
    let high = Single::ratio(1, 2);
    let bounded = if ratio.below(low) {
        low
    } else if high.below(ratio) {
        high
    } else {
        ratio
    };
    proof {
        lemma_part_finite(height as nat, 1);
        lemma_part_finite(12, 100);
        lemma_part_finite(1, 2);
    }
    let rounded: i64 = Single::whole(height as u64).times(bounded).round_within(
        0,
        u32::MAX as i64,
    );
    let rows: u32 = larger(rounded as u32, 24);
    SubtitleRegion { y: minus_or_zero(height, rows), height: smaller(rows, height) }
}

/// The rows in which subtitles are shown.
pub fn detect_region(frames: &Vec<Image>, bottom_ratio: Single) -> (region: SubtitleRegion)
    requires
        rows_there(pictures_of(frames@)),
    ensures
        region == region_of(pictures_of(frames@), bottom_ratio.units()),
{
    if frames.len() == 0 {
        return SubtitleRegion { y: 0, height: 1 };
    }
    let ghost all = pictures_of(frames@);
    proof {
        assert(all[0] == frames@[0]@);
    }
    let height: u32 = larger(frames[0].height(), 1);
    let width: u32 = larger(frames[0].width(), 1);
    let (start, end) = find_rows(height);
    let share: u32 = height / 18;
    let wanted: u32 = larger(smaller(share, 80), 16);
    let window: u32 = smaller(wanted, minus_or_zero(end, start));
    proof {
        assert forall|i: int| 0 <= i < frames@.len() implies (#[trigger] frames@[i])@.width <= 1
            || end <= frames@[i]@.height by {
            assert(all[i] == frames@[i]@);
        }
    }
    let scores = score_rows(frames, height, start, end);
    let last: u32 = minus_or_zero(end, window);
    let tries: u32 = if window > 0 && last >= start {
        last - start + 1
    } else {
        0
    };
    proof {
        assert(scores@.len() == units_of(scores@).len());
    }
    let (best_y, best_score) = find_best(&scores, window, start, tries);
    proof {
        lemma_part_finite(width as nat, 1);
        lemma_part_finite(8, 100);
    }
    let needed = Single::whole(width as u64).times(Single::ratio(8, 100));
    if !needed.below(best_score) {
        return bottom_rows(height, bottom_ratio);
    }
    let padding: u32 = larger(window / 3, 8);
    let top: u32 = minus_or_zero(best_y, padding);
    let low: u64 = best_y as u64 + window as u64 + padding as u64;
    let low: u32 = if low < height as u64 {
        low as u32
    } else {
        height
    };
    SubtitleRegion { y: top, height: larger(minus_or_zero(low, top), 1) }
}

/// Whether the rows of a region can be cut out of a frame.
pub open spec fn region_there(p: Picture, region: SubtitleRegion) -> bool {
    p.width == 0 || region.y < p.height
}

/// The rows of a frame in a region.
pub open spec fn strip_of(p: Picture, region: SubtitleRegion) -> Picture {
    let y = least(region.y as int, p.height as int);
    let rows = most(least(region.height as int, p.height - y), 1);
    if p.width == 0 {
        Picture { width: 0, height: rows as nat, bytes: Seq::empty() }
    } else {
        p.band(y, y + rows)
    }
}

/// The rows of a frame in a region.
pub fn crop_region(image: &Image, region: SubtitleRegion) -> (strip: Image)
    requires
        region_there(image@, region),
    ensures
        strip@ == strip_of(image@, region),
        strip@.complete(),
{
    let y: u32 = smaller(region.y, image.height());
    let rows: u32 = larger(smaller(region.height, image.height() - y), 1);
    if image.width() == 0 {
        proof {
            assert(rows * (0 * 4) == 0) by (nonlinear_arith);
        }
        let strip = Image::new(0, rows);
        proof {
            assert(strip@.bytes =~= Seq::<u8>::empty());
        }
        return strip;
    }
    crate::raster::copy_rows(image, y, y + rows)
}

/// How far a pixel is at most apart in brightness from those around it.
pub open spec fn edge_around(p: Picture, x: int, y: int) -> int {
    sharper(
        sharper(
            sharper(
                contrast(p, x, y, less(x, 1), y),
                contrast(p, x, y, least(x + 1, p.width - 1), y),
            ),
            contrast(p, x, y, x, less(y, 1)),
        ),
        contrast(p, x, y, x, least(y + 1, p.height - 1)),
    )
}

/// How much a pixel looks like text.
#[verifier::opaque]
pub open spec fn pixel_score(p: Picture, x: int, y: int) -> int {
    let pixel = p.pixel(x, y);
    let level = gray(pixel);
    let edge = edge_around(p, x, y);
    let blue = pixel[2] > 110 && pixel[0] < 120 && pixel[1] < 170;
    if level > fraction(178, 1) && edge > fraction(24, 1) {
        fraction(1, 1)
    } else if level > fraction(215, 1) && edge > fraction(12, 1) {
        fraction(45, 100)
    } else if blue && edge > fraction(22, 1) {
        fraction(35, 100)
    } else {
        0
    }
}

fn contrast_with(weights: &Weights, image: &Image, here: Single, x: u32, y: u32) -> (distance: Single)
    requires
        x < image@.width,
        y < image@.height,
        0 <= here.units() <= pow2(159),
    ensures
        distance.units() == magnitude(
            sum(here.units(), -gray(image@.pixel(x as int, y as int))),
        ),
{
    apart(here, weights.gray(image.get_pixel(x, y)))
}

fn sharpest(weights: &Weights, image: &Image, here: Single, x: u32, y: u32) -> (edge: Single)
    requires
        x < image@.width,
        y < image@.height,
        here.units() == gray(image@.pixel(x as int, y as int)),
        0 <= here.units() <= pow2(159),
    ensures
        edge.units() == edge_around(image@, x as int, y as int),
{
    let right: u32 = if x < image.width() - 1 {
        x + 1
    } else {
        image.width() - 1
    };
    let down: u32 = if y < image.height() - 1 {
        y + 1
    } else {
        image.height() - 1
    };
    let to_left = contrast_with(weights, image, here, minus_or_zero(x, 1), y);
    let to_right = contrast_with(weights, image, here, right, y);
    let to_up = contrast_with(weights, image, here, x, minus_or_zero(y, 1));
    let to_down = contrast_with(weights, image, here, x, down);
    to_left.greater(to_right).greater(to_up).greater(to_down)
}

/// How much a pixel looks like text.
pub fn text_pixel_score(image: &Image, x: u32, y: u32) -> (score: Single)
    requires
        x < image@.width,
        y < image@.height,
    ensures
        score.units() == pixel_score(image@, x as int, y as int),
{
    proof {
        reveal(pixel_score);
    }
    let weights = Weights::new();
    let pixel = image.get_pixel(x, y);
    let here = weights.gray(pixel);
    let edge = sharpest(&weights, image, here, x, y);
    let blue: bool = pixel[2] > 110 && pixel[0] < 120 && pixel[1] < 170;
    if Single::whole(178).below(here) && Single::whole(24).below(edge) {
        Single::whole(1)
    } else if Single::whole(215).below(here) && Single::whole(12).below(edge) {
        Single::ratio(45, 100)
    } else if blue && Single::whole(22).below(edge) {
        Single::ratio(35, 100)
    } else {
        Single::zero()
    }
}

/// The cell of the raster that a pixel belongs to.
#[verifier::opaque]
pub open spec fn cell_of(p: Picture, x: int, y: int) -> int {
    least(y * CELL_ROWS / p.height as int, CELL_ROWS - 1) * CELL_COLUMNS + least(
        x * CELL_COLUMNS / p.width as int,
        CELL_COLUMNS - 1,
    )
}

/// Whether a pixel counts in a cell: it is not in the first column, and where only text is
/// counted, it looks like text.
pub open spec fn counts_in(p: Picture, cell: int, x: int, y: int, text: bool) -> bool {
    x >= 1 && cell_of(p, x, y) == cell && (text ==> pixel_score(p, x, y) > 0)
}

/// How many of the first `n` pixels count in a cell.
pub open spec fn cell_count(p: Picture, cell: int, n: nat, text: bool) -> nat
    decreases n,
{
    if n == 0 {
        0
    } else {
        let k = n - 1;
        cell_count(p, cell, (n - 1) as nat, text) + if counts_in(
            p,
            cell,
            k % (p.width as int),
            k / (p.width as int),
            text,
        ) {
            1nat
        } else {
            0nat
        }
    }
}

/// Which cells of a strip show text.
pub open spec fn feature_of(p: Picture) -> Seq<bool> {
    Seq::new(
        (CELL_ROWS * CELL_COLUMNS) as nat,
        |cell: int|
            cell_count(p, cell, p.height * p.width, true) >= most(
                cell_count(p, cell, p.height * p.width, false) as int / 80,
                2,
            ),
    )
}

/// The cell of the raster that a pixel belongs to.
fn cell_index(strip: &Image, x: u32, y: u32) -> (cell: usize)
    requires
        x < strip@.width,
        y < strip@.height,
    ensures
        cell == cell_of(strip@, x as int, y as int),
        cell < 384,
{
    proof {
        reveal(cell_of);
    }
    let width: u32 = strip.width();
    let height: u32 = strip.height();
    let by: u64 = y as u64 * 12 / height as u64;
    let bx: u64 = x as u64 * 32 / width as u64;
    let row: u64 = if by < 11 {
        by
    } else {
        11
    };
    let column: u64 = if bx < 31 {
        bx
    } else {
        31
    };
    (row * 32 + column) as usize
}

/// Which cells of a strip show text.
pub fn subtitle_feature(strip: &Image) -> (feature: Vec<bool>)
    ensures
        feature@ =~= feature_of(strip@),
        feature@.len() == CELL_ROWS * CELL_COLUMNS,
{
    let ghost p = strip@;
    let width: u32 = strip.width();
    let height: u32 = strip.height();
    let mut texts: Vec<u64> = vec![0u64; 384];
    let mut counts: Vec<u64> = vec![0u64; 384];
    let mut y: u32 = 0;
    proof {
        assert(0 * width == 0);
        assert(height * width <= 0xffff_ffff * 0xffff_ffff) by (nonlinear_arith)
            requires
                0 <= height <= 0xffff_ffff,
                0 <= width <= 0xffff_ffff,
        ;
    }
    while y < height
        invariant
            y <= height,
            p == strip@,
            width == p.width,
            height == p.height,
            height * width <= 0xffff_fffe_0000_0001,
            0 <= y * width <= height * width,
            texts@.len() == 384,
            counts@.len() == 384,
            forall|c: int|
                0 <= c < 384 ==> (#[trigger] texts@[c]) == cell_count(
                    p,
                    c,
                    (y * width) as nat,
                    true,
                ) && texts@[c] <= y * width,
            forall|c: int|
                0 <= c < 384 ==> (#[trigger] counts@[c]) == cell_count(
                    p,
                    c,
                    (y * width) as nat,
                    false,
                ) && counts@[c] <= y * width,
        decreases height - y,
    {
        proof {
            assert((y + 1) * width == y * width + width && y * width + width <= height * width)
                by (nonlinear_arith)
                requires
                    y + 1 <= height,
                    0 <= width,
            ;
        }
        let mut x: u32 = 0;
        while x < width
            invariant
                x <= width,
                y < height,
                p == strip@,
                width == p.width,
                height == p.height,
                0 <= y * width,
                y * width + width <= height * width,
                height * width <= 0xffff_fffe_0000_0001,
                texts@.len() == 384,
                counts@.len() == 384,
                forall|c: int|
                    0 <= c < 384 ==> (#[trigger] texts@[c]) == cell_count(
                        p,
                        c,
                        (y * width + x) as nat,
                        true,
                    ) && texts@[c] <= y * width + x,
                forall|c: int|
                    0 <= c < 384 ==> (#[trigger] counts@[c]) == cell_count(
                        p,
                        c,
                        (y * width + x) as nat,
                        false,
                    ) && counts@[c] <= y * width + x,
            decreases width - x,
        {
            let ghost k: int = y * width + x;
            proof {
                vstd::arithmetic::div_mod::lemma_fundamental_div_mod_converse(
                    k,
                    width as int,
                    y as int,
                    x as int,
                );
            }
            if x >= 1 {
                let cell: usize = cell_index(strip, x, y);
                let score = text_pixel_score(strip, x, y);
                if Single::zero().below(score) {
                    let text: u64 = texts[cell];
                    texts.set(cell, text + 1);
                }
                let count: u64 = counts[cell];
                counts.set(cell, count + 1);
            }
            x += 1;
        }
        y += 1;
    }
    let mut feature: Vec<bool> = Vec::new();
    let mut c: usize = 0;
    while c < 384
        invariant
            c <= 384,
            texts@.len() == 384,
            counts@.len() == 384,
            p.height == height,
            p.width == width,
            forall|d: int|
                0 <= d < 384 ==> (#[trigger] texts@[d]) == cell_count(
                    p,
                    d,
                    p.height * p.width,
                    true,
                ),
            forall|d: int|
                0 <= d < 384 ==> (#[trigger] counts@[d]) == cell_count(
                    p,
                    d,
                    p.height * p.width,
                    false,
                ),
            feature@.len() == c,
            forall|d: int| 0 <= d < c ==> (#[trigger] feature@[d]) == feature_of(p)[d],
        decreases 384 - c,
    {
        let share: u64 = counts[c] / 80;
        let needed: u64 = if share > 2 {
            share
        } else {
            2
        };
        feature.push(texts[c] >= needed);
        c += 1;
    }
    feature
}

/// How many cells show text in the first, the second, or both.
pub open spec fn cells_in_either(a: Seq<bool>, b: Seq<bool>) -> nat
    decreases a.len(),
{
    if a.len() == 0 {
        0
    } else {
        cells_in_either(a.drop_last(), b.drop_last()) + if a.last() || b.last() {
            1nat
        } else {
            0nat
        }
    }
}

/// How many cells show text in one and not in the other.
pub open spec fn cells_apart(a: Seq<bool>, b: Seq<bool>) -> nat
    decreases a.len(),
{
    if a.len() == 0 {
        0
    } else {
        cells_apart(a.drop_last(), b.drop_last()) + if a.last() != b.last() {
            1nat
        } else {
            0nat
        }
    }
}

/// The share of cells with text that differ; infinite where the features do not go together.
pub open spec fn feature_distance(a: Seq<bool>, b: Seq<bool>) -> int {
    if a.len() != b.len() || a.len() == 0 {
        limit() as int
    } else if cells_in_either(a, b) == 0 {
        0
    } else {
        quotient(fraction(cells_apart(a, b), 1), fraction(cells_in_either(a, b), 1))
    }
}

/// How many cells show text.
pub open spec fn cells_with_text(feature: Seq<bool>) -> nat
    decreases feature.len(),
{
    if feature.len() == 0 {
        0
    } else {
        cells_with_text(feature.drop_last()) + if feature.last() {
            1nat
        } else {
            0nat
        }
    }
}

/// The share of cells that show text.
pub open spec fn energy_of(feature: Seq<bool>) -> int {
    if feature.len() == 0 {
        0
    } else {
        quotient(fraction(cells_with_text(feature), 1), fraction(feature.len(), 1))
    }
}

/// Whether a feature shows a subtitle.
pub open spec fn shows_text(feature: Seq<bool>) -> bool {
    energy_of(feature) > fraction(8, 1000) && cells_with_text(feature) >= 4
}

/// The share of cells with text that differ.
pub fn feature_diff(a: &Vec<bool>, b: &Vec<bool>) -> (diff: Single)
    ensures
        diff.units() == feature_distance(a@, b@),
{
    if a.len() != b.len() || a.len() == 0 {
        return Single::infinity();
    }
    let length: usize = a.len();
    let mut either: usize = 0;
    let mut different: usize = 0;
    let mut i: usize = 0;
    while i < length
        invariant
            i <= length,
            length == a@.len(),
            length == b@.len(),
            either == cells_in_either(a@.take(i as int), b@.take(i as int)),
            different == cells_apart(a@.take(i as int), b@.take(i as int)),
            either <= i,
            different <= i,
        decreases length - i,
    {
        proof {
            assert(a@.take(i + 1).drop_last() =~= a@.take(i as int));
            assert(b@.take(i + 1).drop_last() =~= b@.take(i as int));
        }
        let left: bool = a[i];
        let right: bool = b[i];
        if left || right {
            either += 1;
        }
        if left != right {
            different += 1;
        }
        i += 1;
    }
    proof {
        assert(a@.take(length as int) =~= a@);
        assert(b@.take(length as int) =~= b@);
    }
    if either == 0 {
        return Single::zero();
    }
    proof {
        lemma_whole_positive(either as nat);
    }
    Single::whole(different as u64).over(Single::whole(either as u64))
}

fn count_text(feature: &Vec<bool>) -> (count: usize)
    ensures
        count == cells_with_text(feature@),
{
    let mut count: usize = 0;
    let mut i: usize = 0;
    while i < feature.len()
        invariant
            i <= feature@.len(),
            count == cells_with_text(feature@.take(i as int)),
            count <= i,
        decreases feature@.len() - i,
    {
        proof {
            assert(feature@.take(i + 1).drop_last() =~= feature@.take(i as int));
        }
        if feature[i] {
            count += 1;
        }
        i += 1;
    }
    proof {
        assert(feature@.take(feature@.len() as int) =~= feature@);
    }
    count
}

/// The share of cells that show text.
pub fn feature_energy(feature: &Vec<bool>) -> (energy: Single)
    ensures
        energy.units() == energy_of(feature@),
{
    if feature.len() == 0 {
        return Single::zero();
    }
    let length: usize = feature.len();
    proof {
        lemma_whole_positive(length as nat);
    }
    Single::whole(count_text(feature) as u64).over(Single::whole(length as u64))
}

/// Whether a feature shows a subtitle.
pub fn has_subtitle_text(feature: &Vec<bool>) -> (shows: bool)
    ensures
        shows == shows_text(feature@),
{
    Single::ratio(8, 1000).below(feature_energy(feature)) && count_text(feature) >= 4
}

/// The rows between two subtitles.
pub const SEPARATOR: u32 = 2;

/// The colour between two subtitles.
pub open spec fn separator_color() -> Seq<u8> {
    seq![210u8, 201u8, 115u8, 255u8]
}

/// A bar between two subtitles.
pub open spec fn is_bar(p: Picture, width: nat, rows: nat) -> bool {
    &&& p.complete()
    &&& p.width == width
    &&& p.height == rows
    &&& forall|x: int, y: int|
        0 <= x < width && 0 <= y < rows ==> #[trigger] p.pixel(x, y) == separator_color()
}

/// A bar between two subtitles.
pub open spec fn bar(width: nat, rows: nat) -> Picture {
    choose|p: Picture| is_bar(p, width, rows)
}

/// There is a bar of every size.
pub proof fn lemma_bar_there(width: nat, rows: nat)
    ensures
        is_bar(bar(width, rows), width, rows),
{
    let p = Picture {
        width,
        height: rows,
        bytes: Seq::new(rows * (width * 4), |i: int| separator_color()[i % 4]),
    };
    assert forall|x: int, y: int| 0 <= x < width && 0 <= y < rows implies #[trigger] p.pixel(x, y)
        == separator_color() by {
        crate::raster::lemma_offset_inside(p, x, y);
        let start = p.offset(x, y);
        let before = y * width + x;
        assert(start == before * 4) by (nonlinear_arith)
            requires
                start == y * (width * 4) + x * 4,
                before == y * width + x,
        ;
        assert(p.pixel(x, y) =~= separator_color());
    }
    assert(is_bar(p, width, rows));
}

proof fn lemma_bar_unique(p: Picture, width: nat, rows: nat)
    requires
        is_bar(p, width, rows),
    ensures
        bar(width, rows) == p,
{
    let other = bar(width, rows);
    assert(is_bar(other, width, rows));
    assert forall|x: int, y: int| 0 <= x < width && 0 <= y < rows implies p.pixel(x, y)
        == other.pixel(x, y) by {
        assert(p.pixel(x, y) == separator_color());
        assert(other.pixel(x, y) == separator_color());
    }
    lemma_pixels_determine(p, other);
}

/// Gives the rows of an image from `y` on the colour between two subtitles.
pub fn fill_separator(image: &mut Image, y: u32, height: u32)
    requires
        old(image)@.complete(),
        y + height <= u32::MAX,
    ensures
        final(image)@.complete(),
        final(image)@.width == old(image)@.width,
        final(image)@.height == old(image)@.height,
        forall|v: int, w: int|
            0 <= v < old(image)@.width && 0 <= w < old(image)@.height ==> #[trigger]
            final(image)@.pixel(v, w) == if y <= w < y + height {
                separator_color()
            } else {
                old(image)@.pixel(v, w)
            },
{
    let ghost before = image@;
    let width: u32 = image.width();
    let end: u32 = smaller(y + height, image.height());
    let color: [u8; 4] = [210, 201, 115, 255];
    proof {
        assert(color@ =~= separator_color());
    }
    let mut py: u32 = y;
    while py < end
        invariant
            y <= py,
            py <= end || py == y,
            end == least(y + height, before.height as int),
            width == before.width,
            color@ == separator_color(),
            image@.complete(),
            image@.width == before.width,
            image@.height == before.height,
            forall|v: int, w: int|
                0 <= v < before.width && 0 <= w < before.height ==> #[trigger] image@.pixel(v, w)
                    == if y <= w < y + height && w < py {
                    separator_color()
                } else {
                    before.pixel(v, w)
                },
        decreases end - py,
    {
        let mut px: u32 = 0;
        while px < width
            invariant
                y <= py < end,
                px <= width,
                end == least(y + height, before.height as int),
                width == before.width,
                color@ == separator_color(),
                image@.complete(),
                image@.width == before.width,
                image@.height == before.height,
                forall|v: int, w: int|
                    0 <= v < before.width && 0 <= w < before.height ==> #[trigger] image@.pixel(
                        v,
                        w,
                    ) == if y <= w < y + height && (w < py || (w == py && v < px)) {
                        separator_color()
                    } else {
                        before.pixel(v, w)
                    },
            decreases width - px,
        {
            image.put_pixel(px, py, color);
            px += 1;
        }
        py += 1;
    }
}

/// The subtitles gathered with one more below.
pub open spec fn with_strip(gathered: Option<Picture>, strip: Picture) -> Picture {
    match gathered {
        None => strip,
        Some(before) => {
            let width = if before.width > strip.width {
                before.width
            } else {
                strip.width
            };
            let upper = padded(before, width);
            let lower = padded(strip, width);
            if before.height == 0 {
                stacked(upper, lower)
            } else {
                stacked(stacked(upper, bar(width, SEPARATOR as nat)), lower)
            }
        },
    }
}

/// Whether one more subtitle can be held.
pub open spec fn strip_fits(gathered: Option<Picture>, strip: Picture) -> bool {
    gathered matches Some(before) ==> {
        &&& before.height + SEPARATOR + strip.height <= u32::MAX
        &&& byte_count(
            most(before.width as int, strip.width as int),
            before.height + SEPARATOR + strip.height,
        ) <= usize::MAX
    }
}

/// More rows take no fewer bytes.
proof fn lemma_rows_fit(width: int, fewer: int, more: int)
    requires
        0 <= width,
        0 <= fewer <= more,
    ensures
        byte_count(width, fewer) <= byte_count(width, more),
{
    let row = width * 4;
    assert(fewer * row <= more * row) by (nonlinear_arith)
        requires
            fewer <= more,
            row >= 0,
    ;
}

/// A whole picture is the band of all its rows.
proof fn lemma_whole_band(p: Picture)
    requires
        p.complete(),
    ensures
        p.band(0, p.height as int) == p,
{
    assert(0 * p.row_bytes() == 0);
    assert(p.rows(0, p.height as int) =~= p.bytes);
}

/// The subtitles gathered with one more below.
fn join_strip(gathered: Option<Image>, strip: &Image) -> (joined: Image)
    requires
        match gathered {
            Some(before) => strip_fits(Some(before@), strip@),
            None => true,
        },
    ensures
        joined@ == with_strip(
            match gathered {
                Some(before) => Some(before@),
                None => None,
            },
            strip@,
        ),
        joined@.complete(),
{
    let before = match gathered {
        None => {
            let _ = strip.width();
            return strip.clone();
        },
        Some(before) => before,
    };
    let width: u32 = larger(before.width(), strip.width());
    let rows: u32 = before.height();
    let more: u32 = strip.height();
    proof {
        lemma_rows_fit(width as int, rows as int, rows + SEPARATOR + more);
        lemma_rows_fit(width as int, more as int, rows + SEPARATOR + more);
        lemma_rows_fit(width as int, rows + more, rows + SEPARATOR + more);
        lemma_rows_fit(width as int, SEPARATOR as int, rows + SEPARATOR + more);
        lemma_rows_fit(width as int, rows + SEPARATOR, rows + SEPARATOR + more);
    }
    let upper = pad_width(&before, width);
    let lower = pad_width(strip, width);
    let _ = lower.width();
    proof {
        lemma_whole_band(lower@);
    }
    if rows == 0 {
        return join_rows(&upper, &lower, 0, more, true);
    }
    let mut gap = Image::new(width, SEPARATOR);
    fill_separator(&mut gap, 0, SEPARATOR);
    proof {
        lemma_bar_unique(gap@, width as nat, SEPARATOR as nat);
        lemma_whole_band(gap@);
    }
    let spaced = join_rows(&upper, &gap, 0, SEPARATOR, true);
    join_rows(&spaced, &lower, 0, more, true)
}

/// What is gathered so far.
pub struct Gathering {
    pub region: Option<SubtitleRegion>,
    pub calibration: Seq<Picture>,
    pub last: Option<Seq<bool>>,
    pub pending: Option<Seq<bool>>,
    pub pending_strip: Option<Picture>,
    pub seen: nat,
    pub since: nat,
    pub output: Option<Picture>,
    pub frames: nat,
    pub strips: nat,
}

/// How subtitles are gathered.
pub struct Rules {
    pub ratio: int,
    pub stable: nat,
    pub gap: nat,
    pub calibration: nat,
}

/// How many frames are gathered before it is told where subtitles are: at least one.
pub open spec fn frames_needed(rules: Rules) -> nat {
    if rules.calibration > 1 {
        rules.calibration
    } else {
        1
    }
}

/// Whether frames are all of one size.
pub open spec fn frames_alike(frames: Seq<Picture>, width: nat, height: nat) -> bool {
    forall|i: int|
        0 <= i < frames.len() ==> (#[trigger] frames[i]).width == width && frames[i].height
            == height
}

/// Whether this is what is told about the `k`th frame: that it is gathered until there are
/// enough; then where subtitles are, or that one was taken; then that one was taken or nothing
/// new shown.
pub open spec fn told_in_course(rules: Rules, k: nat, status: SubtitleStatus) -> bool {
    let needed = frames_needed(rules);
    if k < needed {
        status == (SubtitleStatus::Calibrating { frames: k as usize, needed: needed as usize })
    } else if k == needed {
        status == SubtitleStatus::Ready || status == SubtitleStatus::Added
    } else {
        status == SubtitleStatus::Added || status == SubtitleStatus::Duplicate
    }
}

/// The first of the frames from the `k`th on that shows a subtitle.
pub open spec fn first_subtitle(frames: Seq<Picture>, region: SubtitleRegion, k: int) -> Option<Picture>
    decreases frames.len() - k,
{
    if k < 0 || k >= frames.len() {
        None
    } else if shows_text(feature_of(strip_of(frames[k], region))) {
        Some(strip_of(frames[k], region))
    } else {
        first_subtitle(frames, region, k + 1)
    }
}

/// Whether the region can be cut out of the frames from the `k`th on that are looked at.
pub open spec fn subtitles_there(frames: Seq<Picture>, region: SubtitleRegion, k: int) -> bool
    decreases frames.len() - k,
{
    if k < 0 || k >= frames.len() {
        true
    } else {
        &&& region_there(frames[k], region)
        &&& !shows_text(feature_of(strip_of(frames[k], region))) ==> subtitles_there(
            frames,
            region,
            k + 1,
        )
    }
}

impl Gathering {
    /// Nothing gathered yet.
    pub open spec fn blank() -> Gathering {
        Gathering {
            region: None,
            calibration: Seq::empty(),
            last: None,
            pending: None,
            pending_strip: None,
            seen: 0,
            since: (usize::MAX / 2) as nat,
            output: None,
            frames: 0,
            strips: 0,
        }
    }

    /// A subtitle taken.
    pub open spec fn taken(self, strip: Picture, feature: Seq<bool>) -> Gathering {
        Gathering {
            output: Some(with_strip(self.output, strip)),
            strips: self.strips + 1,
            last: Some(feature),
            since: 0,
            ..self
        }
    }

    /// A frame given before it is known where subtitles are shown.
    pub open spec fn calibrated(self, rules: Rules, frame: Picture) -> (Gathering, SubtitleStatus) {
        let frames = self.calibration.push(frame);
        let needed = frames_needed(rules);
        let counted = Gathering { frames: self.frames + 1, calibration: frames, ..self };
        if frames.len() < needed {
            (
                counted,
                SubtitleStatus::Calibrating {
                    frames: frames.len() as usize,
                    needed: needed as usize,
                },
            )
        } else {
            let region = region_of(frames, rules.ratio);
            let known = Gathering { region: Some(region), calibration: Seq::empty(), ..counted };
            match first_subtitle(frames, region, 0) {
                Some(strip) => (known.taken(strip, feature_of(strip)), SubtitleStatus::Added),
                None => (known, SubtitleStatus::Ready),
            }
        }
    }

    /// The strip of a frame in the region.
    pub open spec fn strip(self, frame: Picture) -> Picture {
        strip_of(frame, self.region->0)
    }

    /// Whether a feature is the one taken last.
    pub open spec fn repeats(self, feature: Seq<bool>) -> bool {
        self.last is Some && feature_distance(self.last->0, feature) < fraction(18, 100)
    }

    /// Whether a feature is the one awaited.
    pub open spec fn awaited(self, feature: Seq<bool>) -> bool {
        self.pending is Some && feature_distance(self.pending->0, feature) < fraction(14, 100)
    }

    /// The strip that is taken once it is stable: the first that was awaited.
    pub open spec fn chosen(self, strip: Picture) -> Picture {
        if self.pending_strip is Some {
            self.pending_strip->0
        } else {
            strip
        }
    }

    /// The subtitle awaited seen once more: it is taken once it was seen often enough.
    pub open spec fn confirmed(self, rules: Rules, strip: Picture, feature: Seq<bool>) -> (
        Gathering,
        SubtitleStatus,
    ) {
        let stable = if rules.stable > 1 {
            rules.stable
        } else {
            1
        };
        if self.seen + 1 >= stable {
            (
                (Gathering { pending: None, pending_strip: None, seen: 0, ..self }).taken(
                    self.chosen(strip),
                    feature,
                ),
                SubtitleStatus::Added,
            )
        } else {
            (Gathering { seen: self.seen + 1, ..self }, SubtitleStatus::Duplicate)
        }
    }

    /// A frame given when it is known where subtitles are shown.
    pub open spec fn watched(self, rules: Rules, frame: Picture) -> (Gathering, SubtitleStatus) {
        let counted = Gathering {
            frames: self.frames + 1,
            since: if self.since < usize::MAX {
                self.since + 1
            } else {
                usize::MAX as nat
            },
            ..self
        };
        let strip = self.strip(frame);
        let feature = feature_of(strip);
        let awaiting = Gathering {
            pending: Some(feature),
            pending_strip: Some(strip),
            seen: 1,
            ..counted
        };
        if !shows_text(feature) {
            (counted, SubtitleStatus::Duplicate)
        } else if self.repeats(feature) {
            (
                Gathering { pending: None, pending_strip: None, seen: 0, ..counted },
                SubtitleStatus::Duplicate,
            )
        } else if counted.since < rules.gap {
            (counted, SubtitleStatus::Duplicate)
        } else if !self.awaited(feature) {
            (awaiting, SubtitleStatus::Duplicate)
        } else {
            counted.confirmed(rules, strip, feature)
        }
    }

    /// A frame given.
    pub open spec fn pushed(self, rules: Rules, frame: Picture) -> (Gathering, SubtitleStatus) {
        if self.region is None {
            self.calibrated(rules, frame)
        } else {
            self.watched(rules, frame)
        }
    }

    /// Whether frames given one after the other lead here: they are kept until there are enough
    /// of them to tell where subtitles are.
    pub open spec fn in_order(self, rules: Rules) -> bool {
        if self.frames < frames_needed(rules) {
            self.region is None && self.calibration.len() == self.frames && self.output is None
        } else {
            self.region is Some && self.calibration.len() == 0
        }
    }

    /// Whether the frames given were all of one size.
    pub open spec fn alike(self, width: nat, height: nat) -> bool {
        &&& frames_alike(self.calibration, width, height)
        &&& self.region matches Some(region) ==> region.y < height
    }

    /// What is gathered from frames given one after the other.
    pub open spec fn after(self, rules: Rules, frames: Seq<Picture>) -> Gathering
        decreases frames.len(),
    {
        if frames.len() == 0 {
            self
        } else {
            self.after(rules, frames.drop_last()).pushed(rules, frames.last()).0
        }
    }

    /// What is told about the last of frames given one after the other.
    pub open spec fn told(self, rules: Rules, frames: Seq<Picture>) -> SubtitleStatus {
        self.after(rules, frames.drop_last()).pushed(rules, frames.last()).1
    }

    /// Whether what is looked at is there once a frame completes those gathered, and what is
    /// taken can be held.
    pub open spec fn can_calibrate(self, rules: Rules, frame: Picture) -> bool {
        let frames = self.calibration.push(frame);
        frames.len() >= frames_needed(rules) ==> {
            let region = region_of(frames, rules.ratio);
            &&& rows_there(frames)
            &&& subtitles_there(frames, region, 0)
            &&& first_subtitle(frames, region, 0) matches Some(strip) ==> strip_fits(
                self.output,
                strip,
            )
        }
    }

    /// Whether the region is there in a frame, and what is taken can be held.
    pub open spec fn can_watch(self, rules: Rules, frame: Picture) -> bool {
        &&& region_there(frame, self.region->0)
        &&& self.watched(rules, frame).1 == SubtitleStatus::Added ==> strip_fits(
            self.output,
            self.chosen(self.strip(frame)),
        )
    }

    /// Whether what is looked at in a frame is there, and what is taken can be held.
    pub open spec fn holds(self, rules: Rules, frame: Picture) -> bool {
        &&& self.frames < usize::MAX
        &&& if self.region is None {
            self.can_calibrate(rules, frame)
        } else {
            self.can_watch(rules, frame)
        }
    }

    /// What is gathered in the end: where nothing was taken, the subtitle awaited.
    pub open spec fn finished(self) -> Option<Picture> {
        if self.output is None && self.pending_strip is Some && shows_text(
            feature_of(self.pending_strip->0),
        ) {
            self.pending_strip
        } else {
            self.output
        }
    }
}

/// Gathers subtitles from the frames of a film.
#[derive(Debug)]
pub struct SubtitleStitcher {
    config: SubtitleConfig,
    region: Option<SubtitleRegion>,
    calibration: Vec<Image>,
    last_feature: Option<Vec<bool>>,
    pending_feature: Option<Vec<bool>>,
    pending_strip: Option<Image>,
    pending_seen: usize,
    frames_since_add: usize,
    output: Option<Image>,
    frames: usize,
    strips: usize,
}

spec fn shown(image: Option<Image>) -> Option<Picture> {
    match image {
        Some(image) => Some(image@),
        None => None,
    }
}

spec fn cells(feature: Option<Vec<bool>>) -> Option<Seq<bool>> {
    match feature {
        Some(feature) => Some(feature@),
        None => None,
    }
}

impl View for SubtitleStitcher {
    type V = Gathering;

    closed spec fn view(&self) -> Gathering {
        Gathering {
            region: self.region,
            calibration: pictures_of(self.calibration@),
            last: cells(self.last_feature),
            pending: cells(self.pending_feature),
            pending_strip: shown(self.pending_strip),
            seen: self.pending_seen as nat,
            since: self.frames_since_add as nat,
            output: shown(self.output),
            frames: self.frames as nat,
            strips: self.strips as nat,
        }
    }
}

impl SubtitleStitcher {
    /// How subtitles are gathered.
    pub closed spec fn rules(&self) -> Rules {
        Rules {
            ratio: self.config.bottom_ratio.units(),
            stable: self.config.stable_frames as nat,
            gap: self.config.min_gap_frames as nat,
            calibration: self.config.calibration_frames as nat,
        }
    }

    /// No more subtitles are taken or seen than frames were given.
    #[verifier::type_invariant]
    spec fn counted(&self) -> bool {
        self.strips <= self.frames && self.pending_seen <= self.frames
    }

    pub fn new(config: SubtitleConfig) -> (stitcher: SubtitleStitcher)
        ensures
            stitcher@ == Gathering::blank(),
            stitcher@.in_order(stitcher.rules()),
            stitcher.rules() == (Rules {
                ratio: config.bottom_ratio.units(),
                stable: config.stable_frames as nat,
                gap: config.min_gap_frames as nat,
                calibration: config.calibration_frames as nat,
            }),
    {
        let stitcher = SubtitleStitcher {
            config,
            region: None,
            calibration: Vec::new(),
            last_feature: None,
            pending_feature: None,
            pending_strip: None,
            pending_seen: 0,
            frames_since_add: usize::MAX / 2,
            output: None,
            frames: 0,
            strips: 0,
        };
        proof {
            assert(pictures_of(stitcher.calibration@) =~= Seq::<Picture>::empty());
        }
        stitcher
    }

    /// The subtitles gathered.
    pub fn image(&self) -> (image: Option<&Image>)
        ensures
            (match image {
                Some(image) => Some(image@),
                None => None,
            }) == self@.output,
    {
        match &self.output {
            Some(image) => Some(image),
            None => None,
        }
    }

    /// How many frames were given.
    pub fn frames(&self) -> (frames: usize)
        ensures
            frames == self@.frames,
    {
        self.frames
    }

    /// How many subtitles were taken.
    pub fn strips(&self) -> (strips: usize)
        ensures
            strips == self@.strips,
    {
        self.strips
    }
}

/// The first of frames that shows a subtitle, and its feature.
fn find_first(frames: &Vec<Image>, region: SubtitleRegion) -> (found: Option<(Image, Vec<bool>)>)
    requires
        subtitles_there(pictures_of(frames@), region, 0),
    ensures
        match first_subtitle(pictures_of(frames@), region, 0) {
            Some(strip) => found matches Some(pair) && pair.0@ == strip && pair.1@ == feature_of(
                strip,
            ),
            None => found is None,
        },
{
    let ghost all = pictures_of(frames@);
    let mut k: usize = 0;
    while k < frames.len()
        invariant
            k <= frames@.len(),
            all == pictures_of(frames@),
            subtitles_there(all, region, k as int),
            first_subtitle(all, region, 0) == first_subtitle(all, region, k as int),
        decreases frames@.len() - k,
    {
        proof {
            assert(all[k as int] == frames@[k as int]@);
        }
        let strip = crop_region(&frames[k], region);
        let feature = subtitle_feature(&strip);
        if has_subtitle_text(&feature) {
            return Some((strip, feature));
        }
        k += 1;
    }
    None
}

impl SubtitleStitcher {
    /// Takes a subtitle.
    fn append_strip(&mut self, strip: &Image)
        requires
            strip_fits(old(self)@.output, strip@),
            old(self)@.strips < old(self)@.frames,
        ensures
            final(self)@ == (Gathering {
                output: Some(with_strip(old(self)@.output, strip@)),
                strips: old(self)@.strips + 1,
                ..old(self)@
            }),
            final(self).rules() == old(self).rules(),
    {
        proof {
            use_type_invariant(&*self);
        }
        let mut gathered: Option<Image> = None;
        std::mem::swap(&mut gathered, &mut self.output);
        let merged = join_strip(gathered, strip);
        self.output = Some(merged);
        self.strips = self.strips + 1;
    }

    #[verifier::spinoff_prover]
    fn calibrate(&mut self, frame: &Image) -> (status: SubtitleStatus)
        requires
            old(self)@.region is None,
            old(self)@.frames < usize::MAX,
            old(self)@.can_calibrate(old(self).rules(), frame@),
        ensures
            (final(self)@, status) == old(self)@.calibrated(old(self).rules(), frame@),
            final(self).rules() == old(self).rules(),
    {
        proof {
            use_type_invariant(&*self);
        }
        let mut frames: Vec<Image> = Vec::new();
        std::mem::swap(&mut frames, &mut self.calibration);
        let ghost before = pictures_of(frames@);
        frames.push(frame.clone());
        proof {
            assert(pictures_of(frames@) =~= before.push(frame@));
        }
        self.frames = self.frames + 1;
        let needed: usize = if self.config.calibration_frames > 1 {
            self.config.calibration_frames
        } else {
            1
        };
        let count: usize = frames.len();
        if count < needed {
            self.calibration = frames;
            return SubtitleStatus::Calibrating { frames: count, needed };
        }
        let region = detect_region(&frames, self.config.bottom_ratio);
        self.region = Some(region);
        let found = find_first(&frames, region);
        proof {
            assert(pictures_of(self.calibration@) =~= Seq::<Picture>::empty());
        }
        match found {
            Some((strip, feature)) => {
                self.append_strip(&strip);
                self.last_feature = Some(feature);
                self.frames_since_add = 0;
                SubtitleStatus::Added
            },
            None => SubtitleStatus::Ready,
        }
    }

    fn is_repeated(&self, feature: &Vec<bool>) -> (repeated: bool)
        ensures
            repeated == self@.repeats(feature@),
    {
        match &self.last_feature {
            Some(last) => feature_diff(last, feature).below(Single::ratio(18, 100)),
            None => false,
        }
    }

    fn is_awaited(&self, feature: &Vec<bool>) -> (awaited: bool)
        ensures
            awaited == self@.awaited(feature@),
    {
        match &self.pending_feature {
            Some(pending) => feature_diff(pending, feature).below(Single::ratio(14, 100)),
            None => false,
        }
    }

    #[verifier::spinoff_prover]
    fn watch(&mut self, frame: &Image, region: SubtitleRegion) -> (status: SubtitleStatus)
        requires
            old(self)@.region == Some(region),
            old(self)@.frames < usize::MAX,
            old(self)@.can_watch(old(self).rules(), frame@),
        ensures
            (final(self)@, status) == old(self)@.watched(old(self).rules(), frame@),
            final(self).rules() == old(self).rules(),
    {
        proof {
            use_type_invariant(&*self);
        }
        let strip = crop_region(frame, region);
        let feature = subtitle_feature(&strip);
        let repeated: bool = self.is_repeated(&feature);
        let awaited: bool = self.is_awaited(&feature);
        self.frames = self.frames + 1;
        self.frames_since_add = if self.frames_since_add < usize::MAX {
            self.frames_since_add + 1
        } else {
            usize::MAX
        };
        if !has_subtitle_text(&feature) {
            return SubtitleStatus::Duplicate;
        }
        if repeated {
            self.pending_feature = None;
            self.pending_strip = None;
            self.pending_seen = 0;
            return SubtitleStatus::Duplicate;
        }
        if self.frames_since_add < self.config.min_gap_frames {
            return SubtitleStatus::Duplicate;
        }
        if !awaited {
            self.pending_feature = Some(feature);
            self.pending_strip = Some(strip);
            self.pending_seen = 1;
            return SubtitleStatus::Duplicate;
        }
        self.confirm(strip, feature)
    }

    /// Takes the subtitle awaited once it was seen often enough.
    fn confirm(&mut self, strip: Image, feature: Vec<bool>) -> (status: SubtitleStatus)
        requires
            old(self)@.seen < old(self)@.frames,
            old(self)@.strips < old(self)@.frames,
            old(self)@.confirmed(old(self).rules(), strip@, feature@).1 == SubtitleStatus::Added
                ==> strip_fits(old(self)@.output, old(self)@.chosen(strip@)),
        ensures
            (final(self)@, status) == old(self)@.confirmed(
                old(self).rules(),
                strip@,
                feature@,
            ),
            final(self).rules() == old(self).rules(),
    {
        let stable: usize = if self.config.stable_frames > 1 {
            self.config.stable_frames
        } else {
            1
        };
        if self.pending_seen + 1 < stable {
            self.pending_seen = self.pending_seen + 1;
            return SubtitleStatus::Duplicate;
        }
        let mut pending: Option<Image> = None;
        std::mem::swap(&mut pending, &mut self.pending_strip);
        let chosen = match pending {
            Some(chosen) => chosen,
            None => strip,
        };
        self.append_strip(&chosen);
        self.last_feature = Some(feature);
        self.pending_feature = None;
        self.pending_seen = 0;
        self.frames_since_add = 0;
        SubtitleStatus::Added
    }

    /// Gives a frame, and tells what became of it.
    pub fn push_frame(&mut self, frame: &Image) -> (status: SubtitleStatus)
        requires
            old(self)@.holds(old(self).rules(), frame@),
        ensures
            (final(self)@, status) == old(self)@.pushed(old(self).rules(), frame@),
            final(self).rules() == old(self).rules(),
            final(self)@.frames == old(self)@.frames + 1,
            status == SubtitleStatus::Added ==> final(self)@.strips == old(self)@.strips + 1,
            status != SubtitleStatus::Added ==> final(self)@.strips == old(self)@.strips 
                && final(self)@.output == old(self)@.output,
            old(self)@.in_order(old(self).rules()) ==> final(self)@.in_order(final(self).rules())
                && told_in_course(old(self).rules(), final(self)@.frames, status),
    {
        proof {
            lemma_course_step(self@, self.rules(), frame@);
            lemma_strips_counted(self@, self.rules(), frame@);
        }
        match self.region {
            None => self.calibrate(frame),
            Some(region) => self.watch(frame, region),
        }
    }

    /// What is gathered in the end.
    pub fn finish(self) -> (image: Option<Image>)
        ensures
            (match image {
                Some(image) => Some(image@),
                None => None,
            }) == self@.finished(),
    {
        match self.output {
            Some(output) => Some(output),
            None => match self.pending_strip {
                Some(strip) => {
                    let feature = subtitle_feature(&strip);
                    if has_subtitle_text(&feature) {
                        Some(strip)
                    } else {
                        None
                    }
                },
                None => None,
            },
        }
    }
}

/// A feature is not apart from itself.
pub proof fn lemma_feature_itself(feature: Seq<bool>)
    requires
        0 < feature.len() <= 0xffff_ffff_ffff_ffff,
    ensures
        feature_distance(feature, feature) == 0,
{
    lemma_cells_itself(feature);
    if cells_in_either(feature, feature) > 0 {
        lemma_whole_exact(0);
        lemma_whole_positive(cells_in_either(feature, feature));
        assert(0 * one() == 0);
        crate::single::lemma_zero_rounded(
            fraction(cells_in_either(feature, feature), 1) as nat,
        );
    }
}

proof fn lemma_cells_itself(feature: Seq<bool>)
    ensures
        cells_apart(feature, feature) == 0,
        cells_in_either(feature, feature) <= feature.len(),
    decreases feature.len(),
{
    if feature.len() > 0 {
        lemma_cells_itself(feature.drop_last());
    }
}

/// A subtitle whose cells with text are those of the one taken last is not taken again,
/// whatever the picture around it.
pub proof fn lemma_same_subtitle_not_taken(gathering: Gathering, rules: Rules, frame: Picture)
    requires
        gathering.region is Some,
        gathering.last == Some(feature_of(gathering.strip(frame))),
    ensures
        gathering.pushed(rules, frame).1 == SubtitleStatus::Duplicate,
        gathering.pushed(rules, frame).0.output == gathering.output,
        gathering.pushed(rules, frame).0.strips == gathering.strips,
{
    let feature = feature_of(gathering.strip(frame));
    lemma_feature_itself(feature);
    lemma_whole_positive(18);
    crate::single::lemma_part_positive(18, 100);
}

/// A frame without a subtitle is not taken once it is known where subtitles are shown.
pub proof fn lemma_gap_not_taken(gathering: Gathering, rules: Rules, frame: Picture)
    requires
        gathering.region is Some,
        !shows_text(feature_of(gathering.strip(frame))),
    ensures
        gathering.pushed(rules, frame).1 == SubtitleStatus::Duplicate,
        gathering.pushed(rules, frame).0.output == gathering.output,
        gathering.pushed(rules, frame).0.strips == gathering.strips,
{
}

/// Subtitles are counted as they are taken, and what is gathered changes with them only.
pub proof fn lemma_strips_counted(gathering: Gathering, rules: Rules, frame: Picture)
    ensures
        ({
            let (after, status) = gathering.pushed(rules, frame);
            &&& after.frames == gathering.frames + 1
            &&& status == SubtitleStatus::Added ==> after.strips == gathering.strips + 1
            &&& status != SubtitleStatus::Added ==> after.strips == gathering.strips
                && after.output == gathering.output
        }),
{
}

/// What becomes of a frame while it is not known where subtitles are, and afterwards.
proof fn lemma_course_step(gathering: Gathering, rules: Rules, frame: Picture)
    ensures
        ({
            let (after, told) = gathering.pushed(rules, frame);
            let k = gathering.calibration.len() + 1;
            let needed = frames_needed(rules);
            &&& after.frames == gathering.frames + 1
            &&& gathering.region is Some ==> {
                &&& after.region is Some
                &&& after.calibration == gathering.calibration
                &&& told == SubtitleStatus::Added || told == SubtitleStatus::Duplicate
            }
            &&& gathering.region is None && k < needed ==> {
                &&& after.region is None
                &&& after.calibration == gathering.calibration.push(frame)
                &&& after.output == gathering.output
                &&& told == (SubtitleStatus::Calibrating {
                    frames: k as usize,
                    needed: needed as usize,
                })
            }
            &&& gathering.region is None && k >= needed ==> {
                &&& after.region is Some
                &&& after.calibration == Seq::<Picture>::empty()
                &&& told == SubtitleStatus::Ready || told == SubtitleStatus::Added
            }
        }),
{
}

/// Every frame is counted. The first frames are told to be gathered until there are enough of
/// them; the one that completes them tells where subtitles are, and each frame after it is
/// told to be taken or to show nothing new.
pub proof fn lemma_course(rules: Rules, frames: Seq<Picture>)
    ensures
        ({
            let gathered = Gathering::blank().after(rules, frames);
            &&& gathered.frames == frames.len()
            &&& gathered.in_order(rules)
            &&& gathered.calibration == if frames.len() < frames_needed(rules) {
                frames
            } else {
                Seq::empty()
            }
            &&& frames.len() > 0 ==> told_in_course(
                rules,
                frames.len(),
                Gathering::blank().told(rules, frames),
            )
        }),
    decreases frames.len(),
{
    if frames.len() > 0 {
        let fewer = frames.drop_last();
        lemma_course(rules, fewer);
        lemma_course_step(Gathering::blank().after(rules, fewer), rules, frames.last());
        assert(fewer.push(frames.last()) =~= frames);
    } else {
        assert(frames =~= Seq::empty());
    }
}

/// The place with the most text is one of those tried.
proof fn lemma_spot_tried(scores: Seq<int>, window: int, start: int, n: nat)
    ensures
        ({
            let best = best_spot(scores, window, start, n);
            best.score == 0 || start <= best.y < start + n
        }),
    decreases n,
{
    if n > 0 {
        lemma_spot_tried(scores, window, start, (n - 1) as nat);
    }
}

/// In frames of one size subtitles are shown in rows that are there.
proof fn lemma_region_inside(frames: Seq<Picture>, ratio: int, width: nat, height: nat)
    requires
        frames.len() > 0,
        frames_alike(frames, width, height),
        0 < height <= u32::MAX,
    ensures
        rows_there(frames),
        region_of(frames, ratio).y < height,
{
    assert(frames[0].height == height);
    let rows = height as int;
    let columns = most(frames[0].width as int, 1) as nat;
    let (start, end) = searched_rows(rows);
    let scores = row_scores(frames, rows);
    lemma_spot_tried(scores, searched_window(rows), start, tried_places(rows));
    let share = fraction(columns, 1) * fraction(8, 100);
    assert(columns * one() >= 0 && 8 * one() >= 0) by (nonlinear_arith);
    assert(fraction(columns, 1) >= 0 && fraction(8, 100) >= 0);
    assert(share >= 0) by (nonlinear_arith)
        requires
            share == fraction(columns, 1) * fraction(8, 100),
            fraction(columns, 1) >= 0,
            fraction(8, 100) >= 0,
    ;
    assert(product(fraction(columns, 1), fraction(8, 100)) >= 0);
}

proof fn lemma_subtitles_inside(frames: Seq<Picture>, region: SubtitleRegion, k: int)
    requires
        0 <= k,
        forall|i: int| 0 <= i < frames.len() ==> region.y < (#[trigger] frames[i]).height,
    ensures
        subtitles_there(frames, region, k),
    decreases frames.len() - k,
{
    if k < frames.len() {
        lemma_subtitles_inside(frames, region, k + 1);
    }
}

/// Frames of one size can be given one after the other as long as they can be counted and the
/// subtitle taken can be held with those gathered.
pub proof fn lemma_frames_alike_given(
    gathering: Gathering,
    rules: Rules,
    frame: Picture,
    width: nat,
    height: nat,
)
    requires
        gathering.in_order(rules),
        gathering.alike(width, height),
        frame.width == width,
        frame.height == height,
        0 < height <= u32::MAX,
        gathering.frames < usize::MAX,
        gathering.region is Some && gathering.pushed(rules, frame).1 == SubtitleStatus::Added
            ==> strip_fits(gathering.output, gathering.chosen(gathering.strip(frame))),
    ensures
        Gathering::blank().alike(width, height),
        gathering.holds(rules, frame),
        gathering.pushed(rules, frame).0.in_order(rules),
        gathering.pushed(rules, frame).0.alike(width, height),
{
    lemma_course_step(gathering, rules, frame);
    lemma_region_found(gathering, rules, frame);
    if gathering.region is None {
        let frames = gathering.calibration.push(frame);
        assert forall|i: int| 0 <= i < frames.len() implies (#[trigger] frames[i]).width == width
            && frames[i].height == height by {
            if i < gathering.calibration.len() {
                assert(frames[i] == gathering.calibration[i]);
            }
        }
        let region = region_of(frames, rules.ratio);
        lemma_region_inside(frames, rules.ratio, width, height);
        lemma_subtitles_inside(frames, region, 0);
    }
}

/// The region is found by the frames gathered, and stays.
proof fn lemma_region_found(gathering: Gathering, rules: Rules, frame: Picture)
    ensures
        ({
            let after = gathering.pushed(rules, frame).0;
            &&& gathering.region is Some ==> after.region == gathering.region
            &&& gathering.region is None && after.region is Some ==> after.region == Some(
                region_of(gathering.calibration.push(frame), rules.ratio),
            )
        }),
{
}

} // verus!
