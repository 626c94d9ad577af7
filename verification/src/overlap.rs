//! How well two row profiles agree where they overlap.

use crate::profile::{
    all_tame, fraction, levels_of, tame, total, Levels, RowProfile,
};
use crate::single::{
    infinite, lemma_bound_finite, lemma_distance_bounded, lemma_whole_positive, limit, magnitude,
    quotient, sum, Single,
};
use vstd::arithmetic::power2::pow2;
use vstd::prelude::*;

verus! {

/// How far two rows are apart.
pub open spec fn row_distance(a: Levels, b: Levels) -> int {
    sum(
        sum(
            magnitude(sum(a.mean, -b.mean)) as int,
            magnitude(sum(a.contrast, -b.contrast)) as int,
        ),
        magnitude(sum(a.detail, -b.detail)) as int,
    )
}

/// The rows at the top of an overlap that are left out.
pub open spec fn top_ignored(height: int) -> int {
    if height < 80 {
        0
    } else {
        let tenth = if height / 10 < 16 {
            16
        } else {
            height / 10
        };
        if height / 4 < tenth {
            height / 4
        } else {
            tenth
        }
    }
}

/// The rows at the bottom of an overlap that are left out.
pub open spec fn bottom_ignored(height: int) -> int {
    if height < 80 {
        0
    } else {
        let part = if height * 8 / 100 < 16 {
            16
        } else {
            height * 8 / 100
        };
        if height / 4 < part {
            height / 4
        } else {
            part
        }
    }
}

/// The distances of the rows that count in an overlap of `length` rows.
pub open spec fn compared(
    a: Seq<Levels>,
    b: Seq<Levels>,
    a_start: int,
    b_start: int,
    length: int,
) -> Seq<int> {
    let top = top_ignored(length);
    Seq::new(
        (length - bottom_ignored(length) - top) as nat,
        |i: int| row_distance(a[a_start + top + i], b[b_start + top + i]),
    )
}

/// The mean distance of an overlap of `length` rows; infinite where too few rows count.
#[verifier::opaque]
pub open spec fn range_distance(
    a: Seq<Levels>,
    b: Seq<Levels>,
    a_start: int,
    b_start: int,
    length: int,
    min_overlap: int,
) -> int {
    let rows = compared(a, b, a_start, b_start, length);
    if length < min_overlap + top_ignored(length) + bottom_ignored(length) || rows.len() == 0 {
        limit() as int
    } else {
        quotient(total(rows), fraction(3 * rows.len(), 1))
    }
}

/// How well `b` agrees with `a` when moved down by `offset` rows.
pub open spec fn shifted_distance(
    a: Seq<Levels>,
    b: Seq<Levels>,
    offset: int,
    min_overlap: int,
) -> int {
    let a_start = if offset >= 0 {
        offset
    } else {
        0
    };
    let b_start = if offset >= 0 {
        0
    } else {
        -offset
    };
    let length = if a.len() - a_start < b.len() - b_start {
        a.len() - a_start
    } else {
        b.len() - b_start
    };
    if length < min_overlap {
        limit() as int
    } else {
        range_distance(a, b, a_start, b_start, length, min_overlap)
    }
}

/// The rows at the top of an overlap that are left out.
pub fn content_top_ignore(height: usize) -> (rows: usize)
    ensures
        rows == top_ignored(height as int),
        2 * rows <= height,
{
    if height < 80 {
        0
    } else {
        let tenth: usize = if height / 10 < 16 {
            16
        } else {
            height / 10
        };
        if height / 4 < tenth {
            height / 4
        } else {
            tenth
        }
    }
}

/// The rows at the bottom of an overlap that are left out.
pub fn content_bottom_ignore(height: usize) -> (rows: usize)
    ensures
        rows == bottom_ignored(height as int),
        2 * rows <= height,
{
    if height < 80 {
        0
    } else {
        let eighths: usize = height / 100 * 8 + height % 100 * 8 / 100;
        assert(eighths == height * 8 / 100);
        let part: usize = if eighths < 16 {
            16
        } else {
            eighths
        };
        if height / 4 < part {
            height / 4
        } else {
            part
        }
    }
}

impl RowProfile {
    /// How far two rows are apart.
    pub fn distance(&self, other: &RowProfile) -> (result: Single)
        requires
            tame(self@),
            tame(other@),
        ensures
            result.units() == row_distance(self@, other@),
            result.units() >= 0,
    {
        let (mean, contrast, detail) = self.parts();
        let (other_mean, other_contrast, other_detail) = other.parts();
        proof {
            assert(1 * pow2(161) == pow2(161));
            lemma_bound_finite(1, 161);
            lemma_distance_bounded(self@.mean, other@.mean, 1, 161);
            lemma_distance_bounded(self@.contrast, other@.contrast, 1, 161);
            lemma_distance_bounded(self@.detail, other@.detail, 1, 161);
        }
        mean.minus(other_mean).absolute().plus(contrast.minus(other_contrast).absolute()).plus(
            detail.minus(other_detail).absolute(),
        )
    }
}

/// The mean distance of an overlap of `length` rows, from row `a_start` of the first
/// profile and row `b_start` of the second on.
pub fn range_diff(
    cols1: &[RowProfile],
    cols2: &[RowProfile],
    a_start: usize,
    b_start: usize,
    length: usize,
    min_overlap: i32,
) -> (diff: Single)
    requires
        all_tame(levels_of(cols1@)),
        all_tame(levels_of(cols2@)),
        a_start + length <= cols1@.len(),
        b_start + length <= cols2@.len(),
        length <= i32::MAX,
        0 <= min_overlap,
    ensures
        diff.units() == range_distance(
            levels_of(cols1@),
            levels_of(cols2@),
            a_start as int,
            b_start as int,
            length as int,
            min_overlap as int,
        ),
        diff.units() >= 0,
{
    proof {
        reveal(range_distance);
    }
    let top: usize = content_top_ignore(length);
    let bottom: usize = content_bottom_ignore(length);
    if length < min_overlap as usize + (top + bottom) {
        return Single::infinity();
    }
    let end: usize = length - bottom;
    if end == top {
        return Single::infinity();
    }
    let ghost a = levels_of(cols1@);
    let ghost b = levels_of(cols2@);
    let ghost rows = compared(a, b, a_start as int, b_start as int, length as int);
    let mut whole = Single::zero();
    let mut row: usize = top;
    while row < end
        invariant
            top <= row <= end,
            end <= length,
            a_start + length <= cols1@.len(),
            b_start + length <= cols2@.len(),
            a == levels_of(cols1@),
            b == levels_of(cols2@),
            all_tame(a),
            all_tame(b),
            top == top_ignored(length as int),
            end == length - bottom_ignored(length as int),
            rows == compared(a, b, a_start as int, b_start as int, length as int),
            whole.units() == total(rows.take(row - top)),
            whole.units() >= 0,
        decreases end - row,
    {
        assert(a_start + row < cols1.len() && b_start + row < cols2.len());
        let left = &cols1[a_start + row];
        let right = &cols2[b_start + row];
        proof {
            assert(left@ == a[a_start + row]);
            assert(right@ == b[b_start + row]);
            assert(rows.take(row - top + 1).drop_last() =~= rows.take(row - top));
            assert(rows.take(row - top + 1).last() == row_distance(left@, right@));
        }
        let distance = left.distance(right);
        whole = whole.plus(distance);
        proof {
            crate::single::lemma_sum_not_negative(
                total(rows.take(row - top)),
                distance.units(),
            );
        }
        row += 1;
    }
    proof {
        assert(rows.take(end - top) =~= rows);
        lemma_whole_positive((3 * (end - top)) as nat);
        crate::single::lemma_quotient_not_negative(
            whole.units(),
            fraction((3 * rows.len()) as nat, 1),
        );
    }
    whole.over(Single::whole(3 * (end - top) as u64))
}

/// How well `cols2` agrees with `cols1` when moved down by `offset` rows.
pub fn col_diff(cols1: &[RowProfile], cols2: &[RowProfile], offset: i32, min_overlap: i32) -> (diff:
    Single)
    requires
        all_tame(levels_of(cols1@)),
        all_tame(levels_of(cols2@)),
        cols1@.len() <= i32::MAX,
        cols2@.len() <= i32::MAX,
        i32::MIN < offset,
        0 <= min_overlap,
    ensures
        diff.units() == shifted_distance(
            levels_of(cols1@),
            levels_of(cols2@),
            offset as int,
            min_overlap as int,
        ),
        diff.units() >= 0,
{
    let h1: i32 = cols1.len() as i32;
    let h2: i32 = cols2.len() as i32;
    let a_start: i32 = if offset >= 0 {
        offset
    } else {
        0
    };
    let b_start: i32 = if offset >= 0 {
        0
    } else {
        -offset
    };
    let length: i32 = if h1 - a_start < h2 - b_start {
        h1 - a_start
    } else {
        h2 - b_start
    };
    if length < min_overlap {
        return Single::infinity();
    }
    range_diff(cols1, cols2, a_start as usize, b_start as usize, length as usize, min_overlap)
}

/// A row is not apart from itself.
pub proof fn lemma_row_itself(row: Levels)
    requires
        tame(row),
    ensures
        row_distance(row, row) == 0,
{
    assert(1 * pow2(161) == pow2(161));
    lemma_bound_finite(1, 161);
    crate::single::lemma_zero_rounded(1);
}

proof fn lemma_nothing_adds_up(values: Seq<int>)
    requires
        forall|i: int| 0 <= i < values.len() ==> #[trigger] values[i] == 0,
    ensures
        total(values) == 0,
    decreases values.len(),
{
    lemma_bound_finite(1, 161);
    crate::single::lemma_zero_rounded(1);
    if values.len() > 0 {
        let fewer = values.drop_last();
        assert forall|i: int| 0 <= i < fewer.len() implies #[trigger] fewer[i] == 0 by {
            assert(fewer[i] == values[i]);
        }
        lemma_nothing_adds_up(fewer);
    }
}

/// How many rows of an overlap may be left out, at most: none of a short one, else a tenth at the
/// top and eight hundredths at the bottom, or sixteen.
pub open spec fn rows_left_out(length: int) -> int {
    if length < 80 {
        0
    } else {
        (if length < 160 {
            16
        } else {
            length / 10
        }) + (if length < 200 {
            16
        } else {
            length * 8 / 100
        })
    }
}

/// Rows that are the same agree, as long as enough of them count.
pub proof fn lemma_same_rows_agree(
    a: Seq<Levels>,
    b: Seq<Levels>,
    a_start: int,
    b_start: int,
    length: int,
    min_overlap: int,
)
    requires
        all_tame(a),
        0 <= a_start,
        0 <= b_start,
        a_start + length <= a.len(),
        b_start + length <= b.len(),
        0 < min_overlap,
        length <= 0xffff_ffff,
        length >= min_overlap + rows_left_out(length),
        a.subrange(a_start, a_start + length) == b.subrange(b_start, b_start + length),
    ensures
        range_distance(a, b, a_start, b_start, length, min_overlap) == 0,
{
    reveal(range_distance);
    let rows = compared(a, b, a_start, b_start, length);
    assert forall|i: int| 0 <= i < rows.len() implies #[trigger] rows[i] == 0 by {
        let k = top_ignored(length) + i;
        assert(a.subrange(a_start, a_start + length)[k] == a[a_start + k]);
        assert(b.subrange(b_start, b_start + length)[k] == b[b_start + k]);
        lemma_row_itself(a[a_start + k]);
    }
    lemma_nothing_adds_up(rows);
    lemma_whole_positive(3 * rows.len());
    lemma_bound_finite(1, 161);
    assert(0 * crate::single::one() == 0);
    crate::single::lemma_zero_rounded(fraction(3 * rows.len(), 1) as nat);
}

} // verus!
