//! A coarse picture of a frame, by which a frame is recognised that shows nothing new.

use crate::profile::{fraction, gray, Weights};
use crate::raster::{Image, Picture};
use crate::single::{
    confined, lemma_whole_exact, lemma_whole_positive, nearest_integer, one, quotient, Single,
};
use vstd::arithmetic::power2::lemma_pow2_pos;
use vstd::prelude::*;

verus! {

/// Columns of a signature.
pub const COLUMNS: u32 = 18;

/// Rows of a signature.
pub const ROWS: u32 = 24;

/// The position of cell `index` of `count` in a length.
pub open spec fn cell_start(index: int, count: int, length: int) -> int {
    index * length / count
}

/// The signature of a picture: the brightness of the first pixel of each cell.
pub open spec fn signature_of(p: Picture) -> Seq<u8> {
    Seq::new(
        (ROWS * COLUMNS) as nat,
        |i: int|
            confined(
                nearest_integer(
                    gray(
                        p.pixel(
                            cell_start(i % COLUMNS as int, COLUMNS as int, p.width as int),
                            cell_start(i / COLUMNS as int, ROWS as int, p.height as int),
                        ),
                    ),
                ),
                0,
                255,
            ) as u8,
    )
}

/// The distance of two bytes.
pub open spec fn byte_distance(a: u8, b: u8) -> nat {
    if a < b {
        (b - a) as nat
    } else {
        (a - b) as nat
    }
}

/// The sum of the distances of the bytes of two sequences.
pub open spec fn bytes_apart(a: Seq<u8>, b: Seq<u8>) -> nat
    decreases a.len(),
{
    if a.len() == 0 {
        0
    } else {
        bytes_apart(a.drop_last(), b.drop_last()) + byte_distance(a.last(), b.last())
    }
}

/// Whether two signatures are so close that the frames show the same.
pub open spec fn duplicates(a: Seq<u8>, b: Seq<u8>) -> bool {
    &&& a.len() == b.len()
    &&& a.len() > 0
    &&& quotient(fraction(bytes_apart(a, b), 1), fraction(a.len(), 1)) <= fraction(11, 10)
    &&& forall|i: int| 0 <= i < a.len() ==> byte_distance(#[trigger] a[i], b[i]) <= 4
}

/// The distance of two bytes.
pub fn byte_difference(a: u8, b: u8) -> (distance: u8)
    ensures
        distance == byte_distance(a, b),
{
    if a < b {
        b - a
    } else {
        a - b
    }
}

proof fn lemma_cell_inside(index: int, count: int, length: int)
    requires
        0 <= index < count,
        0 < length,
    ensures
        0 <= cell_start(index, count, length) < length,
        0 <= index * length <= count * length,
{
    assert(0 <= index * length && index * length + length <= count * length) by (nonlinear_arith)
        requires
            0 <= index,
            index + 1 <= count,
            0 < length,
    ;
    let n = index * length;
    assert(0 <= n / count < length) by (nonlinear_arith)
        requires
            0 <= n < count * length,
            count > 0,
    ;
}

fn cell(index: u32, count: u32, length: u32) -> (position: u32)
    requires
        index < count <= 24,
        0 < length,
    ensures
        position == cell_start(index as int, count as int, length as int),
        position < length,
{
    proof {
        lemma_cell_inside(index as int, count as int, length as int);
        assert(count * length <= 24 * 0xffff_ffff) by (nonlinear_arith)
            requires
                count <= 24,
                length <= 0xffff_ffff,
        ;
    }
    (index as u64 * length as u64 / count as u64) as u32
}

/// The signature of a frame.
pub fn frame_signature(image: &Image) -> (signature: Vec<u8>)
    requires
        image@.width > 0,
        image@.height > 0,
    ensures
        signature@ =~= signature_of(image@),
        signature@.len() == ROWS * COLUMNS,
{
    let weights = Weights::new();
    let width: u32 = image.width();
    let height: u32 = image.height();
    let mut signature: Vec<u8> = Vec::new();
    let mut row: u32 = 0;
    while row < ROWS
        invariant
            row <= ROWS,
            width == image@.width,
            height == image@.height,
            width > 0,
            height > 0,
            signature@ =~= signature_of(image@).take(row * COLUMNS),
        decreases ROWS - row,
    {
        let y: u32 = cell(row, ROWS, height);
        let mut col: u32 = 0;
        while col < COLUMNS
            invariant
                row < ROWS,
                col <= COLUMNS,
                width == image@.width,
                height == image@.height,
                width > 0,
                height > 0,
                y == cell_start(row as int, ROWS as int, height as int),
                y < height,
                signature@ =~= signature_of(image@).take(row * COLUMNS + col),
            decreases COLUMNS - col,
        {
            let x: u32 = cell(col, COLUMNS, width);
            let level = weights.gray(image.get_pixel(x, y));
            let value: i64 = level.round_within(0, 255);
            signature.push(value as u8);
            proof {
                let i: int = row * COLUMNS + col;
                assert(i % COLUMNS as int == col && i / COLUMNS as int == row);
                assert(signature_of(image@).take(i + 1) =~= signature_of(image@).take(i).push(
                    signature_of(image@)[i],
                ));
            }
            col += 1;
        }
        row += 1;
    }
    proof {
        assert(signature_of(image@).take(ROWS * COLUMNS) =~= signature_of(image@));
    }
    signature
}

/// Whether a frame with the signature `current` shows what the one before showed.
pub fn is_duplicate_signature(previous: &Vec<u8>, current: &Vec<u8>) -> (same: bool)
    requires
        255 * previous@.len() <= u64::MAX,
    ensures
        same == duplicates(previous@, current@),
{
    if previous.len() != current.len() || previous.len() == 0 {
        return false;
    }
    let length: usize = previous.len();
    let mut apart: u64 = 0;
    let mut near: bool = true;
    let mut i: usize = 0;
    while i < length
        invariant
            i <= length,
            length == previous@.len(),
            length == current@.len(),
            255 * length <= u64::MAX,
            apart == bytes_apart(previous@.take(i as int), current@.take(i as int)),
            apart <= 255 * i,
            near == forall|j: int|
                0 <= j < i ==> byte_distance(#[trigger] previous@[j], current@[j]) <= 4,
        decreases length - i,
    {
        let distance: u8 = byte_difference(previous[i], current[i]);
        proof {
            let a = previous@.take(i + 1);
            let b = current@.take(i + 1);
            assert(a.drop_last() =~= previous@.take(i as int));
            assert(b.drop_last() =~= current@.take(i as int));
        }
        apart += distance as u64;
        near = near && distance <= 4;
        i += 1;
    }
    proof {
        assert(previous@.take(length as int) =~= previous@);
        assert(current@.take(length as int) =~= current@);
        lemma_whole_positive(length as nat);
    }
    let mean = Single::whole(apart).over(Single::whole(length as u64));
    near && !Single::ratio(11, 10).below(mean)
}

/// A signature that is not empty is a duplicate of itself.
pub proof fn lemma_duplicates_itself(a: Seq<u8>)
    requires
        0 < a.len() <= 0xffff_ffff_ffff_ffff,
    ensures
        duplicates(a, a),
{
    lemma_apart_from_itself(a);
    lemma_whole_exact(0);
    lemma_whole_positive(a.len());
    assert(0 * one() == 0);
    crate::single::lemma_zero_rounded(fraction(a.len(), 1) as nat);
    lemma_pow2_pos(149);
    assert(11 * one() >= 0);
}

proof fn lemma_apart_from_itself(a: Seq<u8>)
    ensures
        bytes_apart(a, a) == 0,
    decreases a.len(),
{
    if a.len() > 0 {
        lemma_apart_from_itself(a.drop_last());
    }
}

} // verus!
