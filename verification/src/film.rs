//! What becomes of the subtitles of a film.

use crate::profile::{fraction, gray};
use crate::raster::{
    lemma_band_pixel, lemma_offset_inside, lemma_padded, lemma_stacked_complete,
    lemma_stacked_pixel, padded, stacked, Picture,
};
use crate::single::{
    half, lemma_halves_exact, lemma_halves_nearest, lemma_halves_sum, lemma_one_large,
    lemma_ratios_ordered, lemma_share_near, lemma_whole_exact, lemma_whole_positive, limit,
    magnitude, nearest_integer, one, product, quotient, rounded, sum,
};
use crate::subtitle::{
    bar, best_spot, bottom_region, cell_count, cell_of, cells_apart, cells_in_either,
    cells_with_text, contrast, feature_distance, feature_of, first_subtitle, lemma_bar_there,
    lemma_feature_itself, pixel_score, region_of, row_gain, row_score, row_scores, row_stride,
    searched_rows, searched_window, shows_text, strip_of, tried_places, with_strip, Gathering, Rules,
    SubtitleRegion, SubtitleStatus,
};
use vstd::prelude::*;

verus! {

/// A subtitle is put below those gathered: the rows gathered come first, then two rows of the
/// colour between subtitles, then the rows of the subtitle. The narrower is widened by
/// transparent pixels on the right.
pub proof fn lemma_strip_below(before: Picture, strip: Picture)
    requires
        before.complete(),
        strip.complete(),
        before.height > 0,
    ensures
        ({
            let after = with_strip(Some(before), strip);
            &&& after.complete()
            &&& after.height == before.height + 2 + strip.height
            &&& after.width >= before.width && after.width >= strip.width
            &&& after.width == before.width || after.width == strip.width
            &&& forall|x: int, y: int|
                0 <= x < after.width && 0 <= y < before.height ==> #[trigger] after.pixel(x, y)
                    == if x < before.width {
                    before.pixel(x, y)
                } else {
                    seq![0u8, 0u8, 0u8, 0u8]
                }
            &&& forall|x: int, y: int|
                0 <= x < after.width && before.height <= y < before.height + 2
                    ==> #[trigger] after.pixel(x, y) == seq![210u8, 201u8, 115u8, 255u8]
            &&& forall|x: int, y: int|
                0 <= x < after.width && before.height + 2 <= y < after.height
                    ==> #[trigger] after.pixel(x, y) == if x < strip.width {
                    strip.pixel(x, y - before.height - 2)
                } else {
                    seq![0u8, 0u8, 0u8, 0u8]
                }
        }),
{
    let width = if before.width > strip.width {
        before.width
    } else {
        strip.width
    };
    let after = with_strip(Some(before), strip);
    let upper = padded(before, width);
    let lower = padded(strip, width);
    let gap = bar(width, 2);
    let spaced = stacked(upper, gap);
    lemma_padded(before, width);
    lemma_padded(strip, width);
    lemma_bar_there(width, 2);
    lemma_stacked_complete(upper, gap);
    lemma_stacked_complete(spaced, lower);
    assert(after == stacked(spaced, lower));
    assert forall|x: int, y: int| 0 <= x < width && 0 <= y < after.height implies #[trigger] after.pixel(
        x,
        y,
    ) == if y < before.height {
        upper.pixel(x, y)
    } else if y < before.height + 2 {
        gap.pixel(x, y - before.height)
    } else {
        lower.pixel(x, y - before.height - 2)
    } by {
        lemma_stacked_pixel(spaced, lower, x, y);
        if y < before.height + 2 {
            lemma_stacked_pixel(upper, gap, x, y);
        }
    }
}

/// The first subtitle is taken as it is.
pub proof fn lemma_first_strip(strip: Picture)
    ensures
        with_strip(None, strip) == strip,
{
}

/// A subtitle that is taken is put below those gathered, and counted; it is the strip awaited
/// first, or else that of the frame.
pub proof fn lemma_taken_below(gathering: Gathering, rules: Rules, frame: Picture)
    requires
        gathering.region is Some,
        gathering.pushed(rules, frame).1 == SubtitleStatus::Added,
    ensures
        ({
            let after = gathering.pushed(rules, frame).0;
            let strip = match gathering.pending_strip {
                Some(first) => first,
                None => strip_of(frame, gathering.region->0),
            };
            &&& after.output == Some(with_strip(gathering.output, strip))
            &&& after.strips == gathering.strips + 1
            &&& after.last == Some(feature_of(strip_of(frame, gathering.region->0)))
            &&& after.pending is None && after.pending_strip is None
            &&& after.since == 0
            &&& after.region == gathering.region
        }),
{
}

/// The rows of a frame in a region are those from the row that the region begins with on, as
/// many as it has, as far as the frame goes.
pub proof fn lemma_strip_rows(p: Picture, region: SubtitleRegion)
    requires
        p.complete(),
        p.width > 0,
        region.height > 0,
        region.y < p.height,
    ensures
        ({
            let strip = strip_of(p, region);
            &&& strip.width == p.width
            &&& region.y + region.height <= p.height ==> strip.height == region.height
            &&& region.y + region.height > p.height ==> region.y + strip.height == p.height
            &&& forall|x: int, y: int|
                0 <= x < p.width && 0 <= y < strip.height ==> #[trigger] strip.pixel(x, y)
                    == p.pixel(x, region.y + y)
        }),
{
    let strip = strip_of(p, region);
    let start = region.y as int;
    assert forall|x: int, y: int| 0 <= x < p.width && 0 <= y < strip.height implies #[trigger] strip.pixel(
        x,
        y,
    ) == p.pixel(x, region.y + y) by {
        lemma_band_pixel(p, start, start + strip.height, x, y);
    }
}

/// The number of cells with text is the number of cells that are set.
pub proof fn lemma_cells_counted(feature: Seq<bool>)
    ensures
        cells_with_text(feature) == feature.to_multiset().count(true),
        cells_with_text(feature) <= feature.len(),
    decreases feature.len(),
{
    broadcast use vstd::seq_lib::group_to_multiset_ensures;

    if feature.len() > 0 {
        let fewer = feature.drop_last();
        lemma_cells_counted(fewer);
        assert(fewer.push(feature.last()) =~= feature);
    } else {
        assert(feature =~= Seq::empty());
    }
}

/// The cells that differ between two features.
pub open spec fn differences(a: Seq<bool>, b: Seq<bool>) -> Seq<bool> {
    Seq::new(a.len(), |i: int| a[i] != b[i])
}

/// Cells are apart where one shows text and the other does not, and every cell with text in one
/// or both is counted once.
pub proof fn lemma_cells_compared(a: Seq<bool>, b: Seq<bool>)
    requires
        a.len() == b.len(),
    ensures
        cells_apart(a, b) == cells_with_text(differences(a, b)),
        2 * cells_in_either(a, b) == cells_with_text(a) + cells_with_text(b) + cells_apart(a, b),
        cells_in_either(a, b) <= a.len(),
        cells_apart(a, b) <= cells_in_either(a, b),
    decreases a.len(),
{
    if a.len() > 0 {
        lemma_cells_compared(a.drop_last(), b.drop_last());
        assert(differences(a, b).drop_last() =~= differences(a.drop_last(), b.drop_last()));
    }
}

/// Of a raster of 384 cells a subtitle is shown if and only if four of them show text.
pub proof fn lemma_four_cells(feature: Seq<bool>)
    requires
        feature.len() == 384,
    ensures
        shows_text(feature) <==> feature.to_multiset().count(true) >= 4,
{
    let n = cells_with_text(feature);
    lemma_cells_counted(feature);
    lemma_share_exact(n, 384);
    lemma_ratios_ordered(8, 1000, n, 384);
}

/// The quotient of two small numbers is their ratio, rounded once.
proof fn lemma_share_exact(n: nat, d: nat)
    requires
        n <= d,
        0 < d <= 1024,
    ensures
        quotient(fraction(n, 1), fraction(d, 1)) == rounded((n * one()) as int, d),
{
    lemma_whole_exact(n);
    lemma_whole_exact(d);
    lemma_whole_positive(d);
    crate::single::lemma_quotient_of_wholes(n, d);
}

/// Two features of 384 cells are the same subtitle if fewer than eighteen in a hundred of the
/// cells with text differ, and the one awaited if fewer than fourteen do.
pub proof fn lemma_features_compared(gathering: Gathering, a: Seq<bool>, b: Seq<bool>)
    requires
        a.len() == 384,
        b.len() == 384,
    ensures
        gathering.last == Some(a) ==> (gathering.repeats(b) <==> 100 * cells_apart(a, b) < 18
            * cells_in_either(a, b) || cells_in_either(a, b) == 0),
        gathering.pending == Some(a) ==> (gathering.awaited(b) <==> 100 * cells_apart(a, b) < 14
            * cells_in_either(a, b) || cells_in_either(a, b) == 0),
        feature_distance(a, b) == feature_distance(b, a),
        gathering.last is None ==> !gathering.repeats(b),
        gathering.pending is None ==> !gathering.awaited(b),
{
    lemma_cells_compared(a, b);
    lemma_cells_compared(b, a);
    assert(differences(a, b) =~= differences(b, a));
    let n = cells_apart(a, b);
    let d = cells_in_either(a, b);
    crate::single::lemma_part_positive(18, 100);
    crate::single::lemma_part_positive(14, 100);
    if d > 0 {
        lemma_share_exact(n, d);
        lemma_ratios_ordered(n, d, 18, 100);
        lemma_ratios_ordered(n, d, 14, 100);
    }
}

/// A frame without a subtitle changes nothing but the counts of frames.
pub proof fn lemma_no_text(gathering: Gathering, rules: Rules, frame: Picture)
    requires
        gathering.region is Some,
        feature_of(strip_of(frame, gathering.region->0)).to_multiset().count(true) < 4,
    ensures
        gathering.pushed(rules, frame).1 == SubtitleStatus::Duplicate,
        gathering.pushed(rules, frame).0 == (Gathering {
            frames: gathering.frames + 1,
            since: gathering.pushed(rules, frame).0.since,
            ..gathering
        }),
{
    lemma_four_cells(feature_of(strip_of(frame, gathering.region->0)));
}

/// The same frame given `n` times.
pub open spec fn repeated(frame: Picture, n: nat) -> Seq<Picture> {
    Seq::new(n, |i: int| frame)
}

/// A new subtitle is taken once it was seen in as many frames as asked for, at least two, and not
/// before: given again and again from the time on that enough frames have passed since the last
/// one was taken, it is awaited until then. Given still more often it is not taken again.
pub proof fn lemma_stable_subtitle_taken(gathering: Gathering, rules: Rules, frame: Picture, n: nat)
    requires
        gathering.region is Some,
        gathering.pending is None,
        gathering.pending_strip is None,
        gathering.since < usize::MAX,
        gathering.since + 1 >= rules.gap,
        0 < n,
        ({
            let feature = feature_of(strip_of(frame, gathering.region->0));
            &&& feature.to_multiset().count(true) >= 4
            &&& gathering.last matches Some(last) ==> last.len() == 384 && 100 * cells_apart(
                last,
                feature,
            ) >= 18 * cells_in_either(last, feature) && cells_in_either(last, feature) > 0
        }),
    ensures
        ({
            let strip = strip_of(frame, gathering.region->0);
            let frames = if rules.stable > 2 {
                rules.stable
            } else {
                2
            };
            let before = gathering.after(rules, repeated(frame, (n - 1) as nat));
            let after = gathering.after(rules, repeated(frame, n));
            &&& after == before.pushed(rules, frame).0
            &&& n < frames ==> before.pushed(rules, frame).1 == SubtitleStatus::Duplicate
                && after.output == gathering.output && after.strips == gathering.strips
            &&& n == frames ==> before.pushed(rules, frame).1 == SubtitleStatus::Added
                && after.output == Some(with_strip(gathering.output, strip)) && after.strips
                == gathering.strips + 1
            &&& n > frames ==> before.pushed(rules, frame).1 == SubtitleStatus::Duplicate
                && after.output == Some(with_strip(gathering.output, strip)) && after.strips
                == gathering.strips + 1
        }),
    decreases n,
{
    let strip = strip_of(frame, gathering.region->0);
    let feature = feature_of(strip);
    let frames: nat = if rules.stable > 2 {
        rules.stable
    } else {
        2
    };
    let before = gathering.after(rules, repeated(frame, (n - 1) as nat));
    assert(repeated(frame, n).drop_last() =~= repeated(frame, (n - 1) as nat));
    assert(repeated(frame, n).last() == frame);
    lemma_stable_state(gathering, rules, frame, (n - 1) as nat);
    lemma_stable_step(before, gathering, rules, frame, (n - 1) as nat);
}

/// How things stand after a new subtitle was given `n` times.
spec fn stands(now: Gathering, start: Gathering, rules: Rules, frame: Picture, n: nat) -> bool {
    let strip = strip_of(frame, start.region->0);
    let feature = feature_of(strip);
    let frames: nat = if rules.stable > 2 {
        rules.stable
    } else {
        2
    };
    &&& now.region == start.region
    &&& n == 0 ==> now == start
    &&& 0 < n < frames ==> {
        &&& now.pending == Some(feature)
        &&& now.pending_strip == Some(strip)
        &&& now.seen == n
        &&& now.last == start.last
        &&& now.output == start.output
        &&& now.strips == start.strips
        &&& now.since + 1 >= rules.gap || now.since >= usize::MAX
    }
    &&& n >= frames ==> {
        &&& now.last == Some(feature)
        &&& now.output == Some(with_strip(start.output, strip))
        &&& now.strips == start.strips + 1
    }
}

proof fn lemma_stable_step(
    now: Gathering,
    start: Gathering,
    rules: Rules,
    frame: Picture,
    n: nat,
)
    requires
        stands(now, start, rules, frame, n),
        start.region is Some,
        start.pending is None,
        start.pending_strip is None,
        start.since < usize::MAX,
        start.since + 1 >= rules.gap,
        rules.gap <= usize::MAX || start.since + 1 >= rules.gap,
        ({
            let feature = feature_of(strip_of(frame, start.region->0));
            &&& feature.to_multiset().count(true) >= 4
            &&& start.last matches Some(last) ==> last.len() == 384 && 100 * cells_apart(
                last,
                feature,
            ) >= 18 * cells_in_either(last, feature) && cells_in_either(last, feature) > 0
        }),
    ensures
        stands(now.pushed(rules, frame).0, start, rules, frame, n + 1),
        ({
            let frames: nat = if rules.stable > 2 {
                rules.stable
            } else {
                2
            };
            now.pushed(rules, frame).1 == if n + 1 == frames {
                SubtitleStatus::Added
            } else {
                SubtitleStatus::Duplicate
            }
        }),
{
    let strip = strip_of(frame, start.region->0);
    let feature = feature_of(strip);
    lemma_four_cells(feature);
    lemma_feature_itself(feature);
    crate::single::lemma_part_positive(18, 100);
    crate::single::lemma_part_positive(14, 100);
    if let Some(last) = start.last {
        lemma_features_compared(start, last, feature);
    }
}

proof fn lemma_stable_state(start: Gathering, rules: Rules, frame: Picture, n: nat)
    requires
        start.region is Some,
        start.pending is None,
        start.pending_strip is None,
        start.since < usize::MAX,
        start.since + 1 >= rules.gap,
        ({
            let feature = feature_of(strip_of(frame, start.region->0));
            &&& feature.to_multiset().count(true) >= 4
            &&& start.last matches Some(last) ==> last.len() == 384 && 100 * cells_apart(
                last,
                feature,
            ) >= 18 * cells_in_either(last, feature) && cells_in_either(last, feature) > 0
        }),
    ensures
        stands(start.after(rules, repeated(frame, n)), start, rules, frame, n),
    decreases n,
{
    if n > 0 {
        lemma_stable_state(start, rules, frame, (n - 1) as nat);
        assert(repeated(frame, n).drop_last() =~= repeated(frame, (n - 1) as nat));
        assert(repeated(frame, n).last() == frame);
        lemma_stable_step(
            start.after(rules, repeated(frame, (n - 1) as nat)),
            start,
            rules,
            frame,
            (n - 1) as nat,
        );
    } else {
        assert(repeated(frame, 0) =~= Seq::empty());
    }
}

/// A pixel belongs to one of 32 columns and 12 rows of cells, by where it lies in the strip.
pub proof fn lemma_cell(p: Picture, x: int, y: int)
    requires
        0 <= x < p.width,
        0 <= y < p.height,
    ensures
        ({
            let row = 12 * y / p.height as int;
            let column = 32 * x / p.width as int;
            &&& 0 <= row < 12
            &&& 0 <= column < 32
            &&& cell_of(p, x, y) == row * 32 + column
        }),
{
    reveal(cell_of);
    let row = 12 * y / p.height as int;
    let column = 32 * x / p.width as int;
    assert(0 <= row < 12) by (nonlinear_arith)
        requires
            row == 12 * y / p.height as int,
            0 <= y < p.height,
    ;
    assert(0 <= column < 32) by (nonlinear_arith)
        requires
            column == 32 * x / p.width as int,
            0 <= x < p.width,
    ;
}

/// Whether a pixel is more than so much apart in brightness from the pixel left, right, above or
/// below.
pub open spec fn edged(p: Picture, x: int, y: int, least: int) -> bool {
    ||| x > 0 && contrast(p, x, y, x - 1, y) > least
    ||| x + 1 < p.width && contrast(p, x, y, x + 1, y) > least
    ||| y > 0 && contrast(p, x, y, x, y - 1) > least
    ||| y + 1 < p.height && contrast(p, x, y, x, y + 1) > least
}

/// A pixel looks like text if it is bright and stands out, if it is very bright and stands out a
/// little, or if it is blue and stands out.
pub proof fn lemma_pixel_like_text(p: Picture, x: int, y: int)
    requires
        0 <= x < p.width,
        0 <= y < p.height,
    ensures
        ({
            let pixel = p.pixel(x, y);
            let level = gray(pixel);
            let blue = pixel[2] > 110 && pixel[0] < 120 && pixel[1] < 170;
            &&& pixel_score(p, x, y) > 0 <==> level > 178 * one() && edged(p, x, y, 24 * one() as int)
                || level > 215 * one() && edged(p, x, y, 12 * one() as int) || blue && edged(
                p,
                x,
                y,
                22 * one() as int,
            )
            &&& level > 178 * one() && edged(p, x, y, 24 * one() as int) ==> pixel_score(p, x, y)
                == one()
        }),
{
    reveal(pixel_score);
    lemma_whole_exact(178);
    lemma_whole_exact(24);
    lemma_whole_exact(215);
    lemma_whole_exact(12);
    lemma_whole_exact(22);
    lemma_whole_exact(1);
    lemma_one_large();
    crate::single::lemma_part_positive(45, 100);
    crate::single::lemma_part_positive(35, 100);
    crate::profile::lemma_same_brightness(p.pixel(x, y));
}

/// A pixel adds to the score of its row if it is bright and stands out from the pixel left of it
/// or above it.
pub proof fn lemma_row_like_text(p: Picture, x: int, y: int)
    requires
        1 <= x < p.width,
        0 <= y < p.height,
    ensures
        ({
            let level = gray(p.pixel(x, y));
            let left = contrast(p, x, y, x - 1, y);
            let up = if y > 0 {
                contrast(p, x, y, x, y - 1)
            } else {
                0
            };
            &&& level > 175 * one() && (left > 22 * one() || up > 22 * one()) ==> row_gain(p, x, y)
                == Some(2 * one() as int)
            &&& row_gain(p, x, y) is Some <==> level > 175 * one() && (left > 22 * one() || up > 22
                * one()) || level > 210 * one() && (left > 12 * one() || up > 12 * one())
        }),
{
    lemma_whole_exact(175);
    lemma_whole_exact(22);
    lemma_whole_exact(210);
    lemma_whole_exact(12);
    lemma_whole_exact(2);
    crate::profile::lemma_same_brightness(p.pixel(x, y));
    lemma_one_large();
}

/// The place with the most text has at least as much as every place that is tried.
pub proof fn lemma_most_text(scores: Seq<int>, window: int, start: int, n: nat, y: int)
    requires
        start <= y < start + n,
    ensures
        crate::profile::total(scores.subrange(y, y + window)) <= best_spot(
            scores,
            window,
            start,
            n,
        ).score,
    decreases n,
{
    if y < start + n - 1 {
        lemma_most_text(scores, window, start, (n - 1) as nat, y);
    }
}

/// Subtitles are searched between forty-five and ninety-six hundredths of the height, to the row.
pub proof fn lemma_rows_searched(height: nat)
    requires
        8 <= height <= 0x10_0000,
    ensures
        ({
            let (start, end) = searched_rows(height as int);
            &&& 0 <= start < end <= height
            &&& -100 <= 100 * start - 45 * height <= 100
            &&& -100 <= 100 * end - 96 * height <= 100
        }),
{
    lemma_share_near(height, 45, 100);
    lemma_share_near(height, 96, 100);
    let h = fraction(height, 1);
    let start = nearest_integer(product(h, fraction(45, 100)));
    lemma_whole_exact(start as nat);
    lemma_whole_exact(1);
    lemma_halves_exact(1);
    let half_unit = half() as int;
    assert(start * (2 * half_unit) == (2 * start) * half_unit) by (nonlinear_arith);
    lemma_halves_sum(2 * start, 2);
    lemma_halves_nearest(2 * start + 2);
}

/// The rows taken together in the search are an eighteenth of the height, at least sixteen and at
/// most eighty.
pub proof fn lemma_window(height: nat)
    requires
        64 <= height <= 0x10_0000,
    ensures
        16 <= searched_window(height as int) <= 80,
        288 <= height < 1440 ==> searched_window(height as int) == height / 18,
        height < 288 ==> searched_window(height as int) == 16,
        height >= 1440 ==> searched_window(height as int) == 80,
{
    lemma_rows_searched(height);
}

/// Where no text is found, the rows at the bottom are taken: as many hundredths of the height as
/// asked for, between twelve and fifty, and at least twenty-four.
pub proof fn lemma_bottom_taken(height: nat, hundredths: nat)
    requires
        0 < height <= 0x10_0000,
        hundredths <= 100,
    ensures
        ({
            let region = bottom_region(height as int, fraction(hundredths, 100));
            let share = if hundredths < 12 {
                12
            } else if hundredths > 50 {
                50
            } else {
                hundredths as int
            };
            &&& region.y + region.height == height
            &&& 0 < region.height
            &&& 24 < region.height ==> -100 <= 100 * region.height - share * height <= 100
            &&& region.height == 24 ==> share * height <= 2500
            &&& region.height < 24 ==> region.height == height
        }),
{
    lemma_ratios_ordered(hundredths, 100, 12, 100);
    lemma_ratios_ordered(1, 2, hundredths, 100);
    let share: nat = if hundredths < 12 {
        12
    } else if hundredths > 50 {
        50
    } else {
        hundredths
    };
    if hundredths > 50 {
        lemma_ratios_ordered(1, 2, 50, 100);
    }
    lemma_share_near(height, share, 100);
    assert(share * height == height * share) by (nonlinear_arith);
    let rows = nearest_integer(product(fraction(height, 1), fraction(share, 100)));
    assert(height * share <= 100 * height) by (nonlinear_arith)
        requires
            share <= 100,
    ;
    assert(rows * 100 == 100 * rows);
}

/// Where text is found, the rows with the most of it are taken, with a third of their number, at
/// least eight, above and below, as far as the frame goes.
pub proof fn lemma_text_taken(frames: Seq<Picture>, ratio: int)
    requires
        frames.len() > 0,
        64 <= frames[0].height <= 0x10_0000,
        ({
            let height = frames[0].height as int;
            let (start, end) = searched_rows(height);
            let best = best_spot(
                row_scores(frames, height),
                searched_window(height),
                start,
                tried_places(height),
            );
            let width = if frames[0].width > 1 {
                frames[0].width
            } else {
                1
            };
            best.score > product(fraction(width, 1), fraction(8, 100))
        }),
    ensures
        ({
            let height = frames[0].height as int;
            let (start, end) = searched_rows(height);
            let window = searched_window(height);
            let best = best_spot(row_scores(frames, height), window, start, tried_places(height));
            let region = region_of(frames, ratio);
            let around = if window < 27 {
                8
            } else {
                window / 3
            };
            &&& best.y >= around ==> region.y == best.y - around
            &&& best.y < around ==> region.y == 0
            &&& region.y + region.height == if best.y + window + around < height {
                best.y + window + around
            } else {
                height
            }
            &&& start <= best.y && best.y + window <= end
        }),
{
    let height = frames[0].height as int;
    lemma_rows_searched(frames[0].height);
    lemma_window(frames[0].height);
    let (start, end) = searched_rows(height);
    lemma_spot_inside(
        row_scores(frames, height),
        searched_window(height),
        start,
        tried_places(height),
    );
    assert(tried_places(height) == end - searched_window(height) - start + 1);
}

proof fn lemma_spot_inside(scores: Seq<int>, window: int, start: int, n: nat)
    ensures
        start <= best_spot(scores, window, start, n).y <= start + if n > 0 {
            n - 1
        } else {
            0
        },
    decreases n,
{
    if n > 0 {
        lemma_spot_inside(scores, window, start, (n - 1) as nat);
    }
}

/// A cell shows text if at least two of its pixels look like text, and at least one in eighty.
pub proof fn lemma_cell_shows_text(p: Picture, cell: int)
    requires
        0 <= cell < 384,
    ensures
        feature_of(p).len() == 384,
        ({
            let all = cell_count(p, cell, p.height * p.width, false);
            let text = cell_count(p, cell, p.height * p.width, true);
            feature_of(p)[cell] <==> text >= 2 && 80 * text + 80 > all
        }),
{
}

/// Once enough frames were given to tell where subtitles are, the first of them that shows one is
/// taken, and none is where none shows any.
pub proof fn lemma_first_found(gathering: Gathering, rules: Rules, frame: Picture, first: int)
    requires
        gathering.region is None,
        gathering.calibration.len() + 1 >= rules.calibration,
        0 <= first <= gathering.calibration.len() + 1,
        ({
            let frames = gathering.calibration.push(frame);
            let region = region_of(frames, rules.ratio);
            &&& forall|i: int|
                0 <= i < first ==> !shows_text(feature_of(strip_of(#[trigger] frames[i], region)))
            &&& first < frames.len() ==> shows_text(feature_of(strip_of(frames[first], region)))
        }),
    ensures
        ({
            let frames = gathering.calibration.push(frame);
            let region = region_of(frames, rules.ratio);
            let (after, status) = gathering.pushed(rules, frame);
            &&& after.region == Some(region)
            &&& after.frames == gathering.frames + 1
            &&& first == frames.len() ==> status == SubtitleStatus::Ready && after.output
                == gathering.output && after.strips == gathering.strips
            &&& first < frames.len() ==> {
                let strip = strip_of(frames[first], region);
                &&& status == SubtitleStatus::Added
                &&& after.strips == gathering.strips + 1
                &&& gathering.output is None ==> after.output == Some(strip)
                &&& after.last == Some(feature_of(strip))
                &&& after.since == 0
            }
        }),
{
    let frames = gathering.calibration.push(frame);
    let region = region_of(frames, rules.ratio);
    lemma_first_of_frames(frames, region, 0, first);
}

proof fn lemma_first_of_frames(frames: Seq<Picture>, region: SubtitleRegion, k: int, first: int)
    requires
        0 <= k <= first <= frames.len(),
        forall|i: int|
            k <= i < first ==> !shows_text(feature_of(strip_of(#[trigger] frames[i], region))),
        first < frames.len() ==> shows_text(feature_of(strip_of(frames[first], region))),
    ensures
        first_subtitle(frames, region, k) == if first < frames.len() {
            Some(strip_of(frames[first], region))
        } else {
            None
        },
    decreases first - k,
{
    if k < first {
        assert(!shows_text(feature_of(strip_of(frames[k], region))));
        lemma_first_of_frames(frames, region, k + 1, first);
    }
}

/// A subtitle that follows too soon after the one taken last is not awaited yet; one that comes
/// later and is not the one awaited is awaited from then on; and where the one taken last is seen
/// again, none is awaited any more.
pub proof fn lemma_awaited_anew(gathering: Gathering, rules: Rules, frame: Picture)
    requires
        gathering.region is Some,
        gathering.since < usize::MAX,
        shows_text(feature_of(strip_of(frame, gathering.region->0))),
    ensures
        ({
            let strip = strip_of(frame, gathering.region->0);
            let feature = feature_of(strip);
            let (after, status) = gathering.pushed(rules, frame);
            &&& gathering.repeats(feature) ==> status == SubtitleStatus::Duplicate && after.pending
                is None && after.pending_strip is None && after.seen == 0
            &&& !gathering.repeats(feature) && gathering.since + 1 < rules.gap ==> status
                == SubtitleStatus::Duplicate && after.pending == gathering.pending && after.seen
                == gathering.seen && after.output == gathering.output
            &&& !gathering.repeats(feature) && gathering.since + 1 >= rules.gap
                && !gathering.awaited(feature) ==> status == SubtitleStatus::Duplicate
                && after.pending == Some(feature) && after.pending_strip == Some(strip)
                && after.seen == 1 && after.output == gathering.output
            &&& status == SubtitleStatus::Added ==> after.last == Some(feature) && after.since == 0
                && after.pending is None && after.seen == 0
            &&& status != SubtitleStatus::Added ==> after.since == gathering.since + 1 && after.last
                == gathering.last
            &&& after.frames == gathering.frames + 1
            &&& after.region == gathering.region
        }),
{
}

/// The text of a row is that of the pixels looked at, one in so many that two hundred and forty
/// or a few more fit; a pixel that does not look like text adds nothing.
pub proof fn lemma_row_score(p: Picture, y: int, n: nat)
    ensures
        row_score(p, y, 0) == 0,
        row_gain(p, 1 + n * row_stride(p.width as int), y) is None ==> row_score(p, y, n + 1)
            == row_score(p, y, n),
        row_gain(p, 1 + n * row_stride(p.width as int), y) matches Some(gain) ==> row_score(
            p,
            y,
            n + 1,
        ) == sum(row_score(p, y, n), gain),
        p.width < 480 ==> row_stride(p.width as int) == 1,
        p.width >= 240 ==> row_stride(p.width as int) * 240 <= p.width < (row_stride(p.width as int)
            + 1) * 240,
{
    assert(n + 1 - 1 == n);
}

/// Where the rows with the most text show no more than eight hundredths of the width, the rows at
/// the bottom are taken.
pub proof fn lemma_no_text_found(frames: Seq<Picture>, ratio: int)
    requires
        frames.len() > 0,
        0 < frames[0].height,
        0 < frames[0].width,
        ({
            let height = frames[0].height as int;
            let (start, end) = searched_rows(height);
            let best = best_spot(
                row_scores(frames, height),
                searched_window(height),
                start,
                tried_places(height),
            );
            best.score <= product(fraction(frames[0].width, 1), fraction(8, 100))
        }),
    ensures
        region_of(frames, ratio) == bottom_region(frames[0].height as int, ratio),
{
}

} // verus!
