//! Edges in the rows of an image, and the overlap of two images found by them.

use crate::profile::{
    fraction, gray_over_white, sample_column, spread, Weights,
};
use crate::raster::{Image, Picture};
use crate::signature::{byte_difference, bytes_apart};
use crate::single::{
    confined, lemma_bound_finite, lemma_distance_bounded, lemma_whole_exact, lemma_whole_positive,
    limit, magnitude, nearest_integer, one, quotient, sum, Single,
};
use vstd::arithmetic::div_mod::lemma_fundamental_div_mod_converse;
use vstd::arithmetic::power2::{lemma_pow2_pos, pow2};
use vstd::prelude::*;
use vstd::slice::slice_subrange;

verus! {

/// How many pixels of a row are looked at for edges, at most.
pub const EDGE_SAMPLES: u32 = 160;

/// A value above this counts as an edge.
pub const EDGE_LEVEL: u8 = 18;

/// How many edges two rows must hold together to be compared.
pub const EDGES_NEEDED: usize = 24;

/// The brightness over white of one of `count` pixels spread over row `y`.
pub open spec fn spread_level(p: Picture, count: int, y: int, step: int) -> int {
    gray_over_white(p.pixel(sample_column(p.width as int, count, step), y))
}

/// The strength of the edge at one of `count` pixels spread over row `y`: its distance in
/// brightness from the one to the left and from the one above.
pub open spec fn edge_strength(p: Picture, count: int, y: int, step: int) -> int {
    let here = spread_level(p, count, y, step);
    let left = if step == 0 {
        here
    } else {
        spread_level(p, count, y, step - 1)
    };
    let up = spread_level(p, count, if y == 0 { 0 } else { y - 1 }, step);
    sum(magnitude(sum(here, -left)) as int, magnitude(sum(here, -up)) as int)
}

/// The strength of an edge as a byte.
#[verifier::opaque]
pub open spec fn edge_byte(p: Picture, count: int, y: int, step: int) -> u8 {
    let strength = edge_strength(p, count, y, step);
    let bounded = if fraction(255, 1) < strength {
        fraction(255, 1)
    } else {
        strength
    };
    confined(nearest_integer(bounded), 0, 255) as u8
}

/// The edges of `height` rows from row `start` on.
#[verifier::opaque]
pub open spec fn edge_map(p: Picture, start: int, height: int, count: int) -> Seq<u8> {
    Seq::new(
        (height * count) as nat,
        |i: int| edge_byte(p, count, start + i / count, i % count),
    )
}

/// How many values count as edges.
pub open spec fn edges_in(values: Seq<u8>) -> nat
    decreases values.len(),
{
    if values.len() == 0 {
        0
    } else {
        edges_in(values.drop_last()) + if values.last() > EDGE_LEVEL {
            1nat
        } else {
            0nat
        }
    }
}

/// The mean distance of two edge maps; infinite where they differ in size or are empty.
pub open spec fn edge_distance(a: Seq<u8>, b: Seq<u8>) -> int {
    if a.len() != b.len() || a.len() == 0 {
        limit() as int
    } else {
        quotient(fraction(bytes_apart(a, b), 1), fraction(a.len(), 1))
    }
}

/// How many pixels of each row are looked at for edges in an image of the given width.
pub open spec fn edge_samples(width: int) -> int {
    confined(width, 1, EDGE_SAMPLES as int)
}

/// The edges of the last `overlap` rows of a picture.
pub open spec fn tail_edges(base: Picture, overlap: int) -> Seq<u8> {
    edge_map(base, base.height - overlap, overlap, edge_samples(base.width as int))
}

/// The edges of the first `overlap` rows of `next`, seen as coarsely as those of `base`.
pub open spec fn head_edges(base: Picture, next: Picture, overlap: int) -> Seq<u8> {
    edge_map(next, 0, overlap, edge_samples(base.width as int))
}

/// How far the end of `base` and the start of `next` are apart over `overlap` rows.
pub open spec fn overlap_distance(base: Picture, next: Picture, overlap: int) -> int {
    edge_distance(tail_edges(base, overlap), head_edges(base, next, overlap))
}

/// Whether an overlap is looked at: it is shorter than both pictures and holds enough edges.
pub open spec fn overlap_considered(
    base: Picture,
    next: Picture,
    min_overlap: int,
    overlap: int,
) -> bool {
    &&& min_overlap <= overlap < base.height
    &&& overlap < next.height
    &&& edges_in(tail_edges(base, overlap)) + edges_in(head_edges(base, next, overlap))
        >= EDGES_NEEDED
}

/// Whether an overlap is the closest one considered, and the shortest such.
pub open spec fn overlap_closest(
    base: Picture,
    next: Picture,
    min_overlap: int,
    overlap: int,
) -> bool {
    &&& overlap_considered(base, next, min_overlap, overlap)
    &&& forall|other: int| #[trigger]
        overlap_considered(base, next, min_overlap, other) ==> overlap_distance(
            base,
            next,
            overlap,
        ) <= overlap_distance(base, next, other) && (other < overlap ==> overlap_distance(
            base,
            next,
            overlap,
        ) < overlap_distance(base, next, other))
}

/// Whether an overlap is the one by which `next` continues `base`.
pub open spec fn overlap_found(base: Picture, next: Picture, min_overlap: int, overlap: int) -> bool {
    &&& base.width > 0
    &&& next.width > 0
    &&& overlap_closest(base, next, min_overlap, overlap)
    &&& overlap_distance(base, next, overlap) <= fraction(16, 1)
}

/// The overlap by which `next` continues `base`.
pub open spec fn found_overlap(base: Picture, next: Picture, min_overlap: int) -> Option<int> {
    if exists|overlap: int| overlap_found(base, next, min_overlap, overlap) {
        Some(choose|overlap: int| overlap_found(base, next, min_overlap, overlap))
    } else {
        None
    }
}

/// At most one overlap continues a picture.
pub proof fn lemma_overlap_unique(base: Picture, next: Picture, min_overlap: int, a: int, b: int)
    requires
        overlap_closest(base, next, min_overlap, a),
        overlap_closest(base, next, min_overlap, b),
    ensures
        a == b,
{
}

proof fn lemma_edge_bounded(here: int, left: int, up: int)
    requires
        0 <= here <= pow2(160),
        0 <= left <= pow2(160),
        0 <= up <= pow2(160),
    ensures
        pow2(160) < limit(),
        magnitude(sum(here, -left)) < limit(),
        magnitude(sum(here, -up)) < limit(),
{
    assert(1 * pow2(160) == pow2(160));
    lemma_bound_finite(1, 160);
    lemma_distance_bounded(here, left, 1, 160);
    lemma_distance_bounded(here, up, 1, 160);
}

/// The edge at one of `samples` pixels spread over row `y`, and the brightness there.
fn edge_at(
    weights: &Weights,
    image: &Image,
    samples: u32,
    y: u32,
    step: u32,
    previous: Single,
) -> (edge: (u8, Single))
    requires
        step < samples,
        1 <= image@.width,
        y < image@.height,
        step > 0 ==> previous.units() == spread_level(image@, samples as int, y as int, step - 1),
        0 <= previous.units() <= pow2(160),
    ensures
        edge.0 == edge_byte(image@, samples as int, y as int, step as int),
        edge.1.units() == spread_level(image@, samples as int, y as int, step as int),
        0 <= edge.1.units() <= pow2(160),
{
    let above: u32 = if y == 0 {
        0
    } else {
        y - 1
    };
    let x: u32 = spread(image.width(), samples, step);
    let here = weights.gray_alpha(image.get_pixel(x, y));
    let left = if step == 0 {
        here
    } else {
        previous
    };
    let up = weights.gray_alpha(image.get_pixel(x, above));
    proof {
        lemma_edge_bounded(here.units(), left.units(), up.units());
        reveal(edge_byte);
    }
    let strength = here.minus(left).absolute().plus(here.minus(up).absolute());
    let value: i64 = strength.lesser(Single::whole(255)).round_within(0, 255);
    (value as u8, here)
}

/// The edges of `height` rows from row `start_y` on, `samples` to a row.
pub fn edge_rows(image: &Image, start_y: u32, height: u32, samples: u32) -> (rows: Vec<u8>)
    requires
        1 <= samples,
        1 <= image@.width,
        start_y + height <= image@.height,
    ensures
        rows@ =~= edge_map(image@, start_y as int, height as int, samples as int),
{
    let weights = Weights::new();
    let width: u32 = image.width();
    let rows_of_image: u32 = image.height();
    let ghost all = edge_map(image@, start_y as int, height as int, samples as int);
    let mut rows: Vec<u8> = Vec::new();
    let mut local: u32 = 0;
    proof {
        reveal(edge_map);
        assert(0 * samples == 0);
        assert(0 <= height * samples) by (nonlinear_arith);
    }
    while local < height
        invariant
            local <= height,
            width == image@.width,
            1 <= samples,
            1 <= width,
            start_y + height <= image@.height,
            image@.height == rows_of_image,
            all == edge_map(image@, start_y as int, height as int, samples as int),
            all.len() == height * samples,
            rows@ =~= all.take(local * samples),
            0 <= local * samples <= height * samples,
        decreases height - local,
    {
        let y: u32 = start_y + local;
        proof {
            assert((local + 1) * samples == local * samples + samples && local * samples + samples
                <= height * samples) by (nonlinear_arith)
                requires
                    local + 1 <= height,
                    samples >= 0,
            ;
        }
        let mut previous = Single::zero();
        let mut step: u32 = 0;
        while step < samples
            invariant
                step <= samples,
                local < height,
                width == image@.width,
                1 <= samples,
            1 <= width,
                start_y + height <= image@.height,
                y == start_y + local,
                all == edge_map(image@, start_y as int, height as int, samples as int),
                all.len() == height * samples,
                rows@ =~= all.take(local * samples + step),
                0 <= local * samples,
                local * samples + samples <= height * samples,
                step > 0 ==> previous.units() == spread_level(
                    image@,
                    samples as int,
                    y as int,
                    step - 1,
                ),
                0 <= previous.units() <= pow2(160),
            decreases samples - step,
        {
            let (value, here) = edge_at(&weights, image, samples, y, step, previous);
            rows.push(value);
            proof {
                let i: int = local * samples + step;
                lemma_fundamental_div_mod_converse(
                    i,
                    samples as int,
                    local as int,
                    step as int,
                );
                reveal(edge_map);
                assert(all.take(i + 1) =~= all.take(i).push(all[i]));
                assert(all[i] == edge_byte(image@, samples as int, y as int, step as int));
            }
            previous = here;
            step += 1;
        }
        local += 1;
    }
    proof {
        assert(all.take(height * samples) =~= all);
    }
    rows
}

/// The mean distance of two edge maps.
pub fn edge_diff(a: &[u8], b: &[u8]) -> (diff: Single)
    requires
        255 * a@.len() <= u64::MAX,
    ensures
        diff.units() == edge_distance(a@, b@),
        a@.len() == b@.len() && a@.len() > 0 ==> diff.units() < limit(),
{
    if a.len() != b.len() || a.len() == 0 {
        return Single::infinity();
    }
    let length: usize = a.len();
    let mut apart: u64 = 0;
    let mut i: usize = 0;
    while i < length
        invariant
            i <= length,
            length == a@.len(),
            length == b@.len(),
            255 * length <= u64::MAX,
            apart == bytes_apart(a@.take(i as int), b@.take(i as int)),
            apart <= 255 * i,
        decreases length - i,
    {
        proof {
            assert(a@.take(i + 1).drop_last() =~= a@.take(i as int));
            assert(b@.take(i + 1).drop_last() =~= b@.take(i as int));
        }
        apart += byte_difference(a[i], b[i]) as u64;
        i += 1;
    }
    proof {
        assert(a@.take(length as int) =~= a@);
        assert(b@.take(length as int) =~= b@);
        lemma_whole_positive(length as nat);
        lemma_mean_finite(apart as nat, length as nat);
    }
    Single::whole(apart).over(Single::whole(length as u64))
}

/// A mean of bytes is finite.
proof fn lemma_mean_finite(apart: nat, length: nat)
    requires
        0 < length <= 0xffff_ffff_ffff_ffff,
        apart <= 0xffff_ffff_ffff_ffff,
    ensures
        quotient(fraction(apart, 1), fraction(length, 1)) < limit(),
        fraction(apart, 1) < limit(),
{
    lemma_whole_positive(length);
    if apart > 0 {
        lemma_whole_positive(apart);
        crate::single::lemma_whole_bounds(apart);
    } else {
        lemma_whole_exact(0);
    }
    crate::single::lemma_whole_bounds(length);
    lemma_pow2_pos(149);
    lemma_pow2_pos(213);
    let n = fraction(apart, 1);
    let d = fraction(length, 1);
    let top: nat = pow2(213);
    let unit: nat = one();
    assert(n * unit <= (1 * top) * d) by (nonlinear_arith)
        requires
            0 <= n <= top,
            0 < unit <= d,
    ;
    crate::single::lemma_quotient_bounded(n, d, 1, 213);
}

fn count_edges(values: &[u8]) -> (count: usize)
    ensures
        count == edges_in(values@),
        count <= values@.len(),
{
    let mut count: usize = 0;
    let mut i: usize = 0;
    while i < values.len()
        invariant
            i <= values@.len(),
            count == edges_in(values@.take(i as int)),
            count <= i,
        decreases values@.len() - i,
    {
        proof {
            assert(values@.take(i + 1).drop_last() =~= values@.take(i as int));
        }
        if values[i] > EDGE_LEVEL {
            count += 1;
        }
        i += 1;
    }
    proof {
        assert(values@.take(values@.len() as int) =~= values@);
    }
    count
}

/// The rows of an edge map are the edge map of the rows.
proof fn lemma_edge_map_rows(p: Picture, start: int, height: int, count: int, from: int, rows: int)
    requires
        0 < count,
        0 <= from,
        0 <= rows,
        from + rows <= height,
    ensures
        0 <= from * count <= (from + rows) * count <= height * count,
        edge_map(p, start, height, count).subrange(from * count, (from + rows) * count) =~= edge_map(
            p,
            start + from,
            rows,
            count,
        ),
{
    assert(0 <= from * count && from * count + rows * count == (from + rows) * count && (from
        + rows) * count <= height * count && 0 <= rows * count) by (nonlinear_arith)
        requires
            0 <= from,
            0 <= rows,
            from + rows <= height,
            0 < count,
    ;
    reveal(edge_map);
    let whole = edge_map(p, start, height, count);
    let part = edge_map(p, start + from, rows, count);
    assert forall|i: int| 0 <= i < rows * count implies whole[from * count + i] == part[i] by {
        let q = i / count;
        let r = i % count;
        vstd::arithmetic::div_mod::lemma_fundamental_div_mod(i, count);
        vstd::arithmetic::div_mod::lemma_mod_bound(i, count);
        assert(from * count + i == (from + q) * count + r) by (nonlinear_arith)
            requires
                i == count * q + r,
        ;
        lemma_fundamental_div_mod_converse(from * count + i, count, from + q, r);
    }
}

/// The overlap by which `next` continues `base`, found by the edges in their rows.
pub fn edge_overlap_tail_head(base: &Image, next: &Image, min_overlap: u32) -> (found: Option<u32>)
    ensures
        found is Some <==> found_overlap(base@, next@, min_overlap as int) is Some,
        found matches Some(overlap) ==> found_overlap(base@, next@, min_overlap as int) == Some(
            overlap as int,
        ) && min_overlap <= overlap < base@.height && overlap < next@.height,
{
    let search: u32 = if base.height() < next.height() {
        base.height()
    } else {
        next.height()
    };
    let ghost low = min_overlap as int;
    if search <= min_overlap || base.width() == 0 || next.width() == 0 {
        proof {
            assert forall|overlap: int| !overlap_found(base@, next@, low, overlap) by {}
        }
        return None;
    }
    let samples: u32 = if base.width() < EDGE_SAMPLES {
        base.width()
    } else {
        EDGE_SAMPLES
    };
    let bytes: usize = base.as_raw().len();
    proof {
        let height = base@.height;
        let width = base@.width;
        assert(search * samples <= height * (width * 4)) by (nonlinear_arith)
            requires
                search <= height,
                samples <= width * 4,
                0 <= search,
                0 <= samples,
        ;
        assert(search * samples <= bytes);
    }
    let base_edges = edge_rows(base, base.height() - search, search, samples);
    let next_edges = edge_rows(next, 0, search, samples);
    assert(base_edges@.len() == search * samples && next_edges@.len() == search * samples) by {
        reveal(edge_map);
    }
    let mut best: Option<u32> = None;
    let mut best_diff = Single::infinity();
    let mut overlap: u32 = min_overlap;
    while overlap < search
        invariant
            low == min_overlap,
            min_overlap <= overlap <= search,
            search <= base@.height,
            search <= next@.height,
            search == base@.height || search == next@.height,
            0 < samples <= EDGE_SAMPLES,
            samples == edge_samples(base@.width as int),
            search * samples <= usize::MAX,
            base_edges@ == edge_map(base@, base@.height - search, search as int, samples as int),
            next_edges@ == edge_map(next@, 0, search as int, samples as int),
            base_edges@.len() == search * samples,
            next_edges@.len() == search * samples,
            best is None ==> best_diff.units() == limit() && forall|other: int|
                other < overlap ==> !#[trigger] overlap_considered(base@, next@, low, other),
            best matches Some(o) ==> {
                &&& min_overlap <= o < overlap
                &&& overlap_considered(base@, next@, low, o as int)
                &&& best_diff.units() == overlap_distance(base@, next@, o as int)
                &&& best_diff.units() < limit()
                &&& forall|other: int|
                    other < overlap && #[trigger] overlap_considered(base@, next@, low, other)
                        ==> best_diff.units() <= overlap_distance(base@, next@, other) && (other < o
                        ==> best_diff.units() < overlap_distance(base@, next@, other))
            },
        decreases search - overlap,
    {
        proof {
            lemma_edge_map_rows(
                base@,
                base@.height - search,
                search as int,
                samples as int,
                search - overlap,
                overlap as int,
            );
            lemma_edge_map_rows(next@, 0, search as int, samples as int, 0, overlap as int);
            assert((search - overlap) + overlap == search);
            assert(0 * samples == 0);
            assert(0 <= overlap * samples <= 0xffff_ffff * 160) by (nonlinear_arith)
                requires
                    0 <= overlap <= 0xffff_ffff,
                    0 <= samples <= 160,
            ;
        }
        let tail = slice_subrange(
            base_edges.as_slice(),
            (search - overlap) as usize * samples as usize,
            search as usize * samples as usize,
        );
        let head = slice_subrange(
            next_edges.as_slice(),
            0,
            overlap as usize * samples as usize,
        );
        proof {
            assert(tail@ =~= tail_edges(base@, overlap as int));
            assert(head@ =~= head_edges(base@, next@, overlap as int));
            assert(tail@.len() == overlap * samples) by {
                reveal(edge_map);
            }
        }
        let tail_count: usize = count_edges(tail);
        let head_count: usize = count_edges(head);
        if tail_count >= EDGES_NEEDED || head_count >= EDGES_NEEDED - tail_count {
            let diff = edge_diff(tail, head);
            if diff.below(best_diff) {
                best_diff = diff;
                best = Some(overlap);
            }
        }
        overlap += 1;
    }
    match best {
        Some(o) if !Single::whole(16).below(best_diff) => {
            proof {
                assert(overlap_found(base@, next@, low, o as int));
                let chosen = choose|c: int| overlap_found(base@, next@, low, c);
                lemma_overlap_unique(base@, next@, low, o as int, chosen);
            }
            Some(o)
        },
        Some(o) => {
            proof {
                assert forall|other: int| !overlap_found(base@, next@, low, other) by {
                    if overlap_found(base@, next@, low, other) {
                        assert(overlap_considered(base@, next@, low, other));
                    }
                }
            }
            None
        },
        None => {
            proof {
                assert forall|other: int| !overlap_found(base@, next@, low, other) by {
                    if overlap_found(base@, next@, low, other) {
                        assert(overlap_considered(base@, next@, low, other));
                    }
                }
            }
            None
        },
    }
}

} // verus!
