//! Raster images of four bytes per pixel: red, green, blue and alpha.

use vstd::prelude::*;
use vstd::slice::slice_subrange;

verus! {

/// What an image shows: its size and its bytes, row after row from the top.
pub struct Picture {
    pub width: nat,
    pub height: nat,
    pub bytes: Seq<u8>,
}

impl Picture {
    /// The bytes of one row.
    pub open spec fn row_bytes(self) -> nat {
        self.width * 4
    }

    /// Whether the bytes are exactly those of `height` rows of `width` pixels.
    pub open spec fn complete(self) -> bool {
        self.bytes.len() == self.height * self.row_bytes()
    }

    /// Where the bytes of a pixel start.
    pub open spec fn offset(self, x: int, y: int) -> int {
        y * self.row_bytes() + x * 4
    }

    /// The four bytes of a pixel.
    pub open spec fn pixel(self, x: int, y: int) -> Seq<u8> {
        let start = self.offset(x, y);
        self.bytes.subrange(start, start + 4)
    }

    /// The rows from `start` up to but without `end`.
    pub open spec fn rows(self, start: int, end: int) -> Seq<u8> {
        self.bytes.subrange(start * self.row_bytes(), end * self.row_bytes())
    }

    /// The part of the picture between two rows.
    pub open spec fn band(self, start: int, end: int) -> Picture {
        Picture {
            width: self.width,
            height: (end - start) as nat,
            bytes: self.rows(start, end),
        }
    }
}

/// One picture on top of another of the same width.
pub open spec fn stacked(upper: Picture, lower: Picture) -> Picture {
    Picture {
        width: upper.width,
        height: upper.height + lower.height,
        bytes: upper.bytes + lower.bytes,
    }
}

/// Whether two pictures agree in size and in every pixel.
pub open spec fn same_pixels(a: Picture, b: Picture) -> bool {
    &&& a.width == b.width
    &&& a.height == b.height
    &&& forall|x: int, y: int|
        0 <= x < a.width && 0 <= y < a.height ==> a.pixel(x, y) == b.pixel(x, y)
}

/// A pixel lies inside the bytes of a complete picture.
pub proof fn lemma_offset_inside(p: Picture, x: int, y: int)
    requires
        p.complete(),
        0 <= x < p.width,
        0 <= y < p.height,
    ensures
        0 <= y * p.row_bytes(),
        0 <= p.offset(x, y),
        p.offset(x, y) + 4 <= p.bytes.len(),
        p.offset(x, y) + 4 <= (y + 1) * p.row_bytes(),
{
    let r = p.row_bytes();
    assert(0 <= y * r && (y + 1) * r <= p.height * r && (y + 1) * r == y * r + r)
        by (nonlinear_arith)
        requires
            0 <= y < p.height,
            r >= 0,
    ;
}

/// Different pixels have bytes of their own.
pub proof fn lemma_offsets_apart(width: nat, x: int, y: int, v: int, w: int)
    requires
        0 <= x < width,
        0 <= v < width,
        x != v || y != w,
    ensures
        (y * (width * 4) + x * 4) + 4 <= w * (width * 4) + v * 4 || (w * (width * 4) + v * 4)
            + 4 <= y * (width * 4) + x * 4,
{
    let r = (width * 4) as int;
    if y < w {
        assert(y * r + r <= w * r) by (nonlinear_arith)
            requires
                y + 1 <= w,
                r >= 0,
        ;
    } else if w < y {
        assert(w * r + r <= y * r) by (nonlinear_arith)
            requires
                w + 1 <= y,
                r >= 0,
        ;
    }
}

/// Complete pictures that agree in every pixel are equal.
pub proof fn lemma_pixels_determine(a: Picture, b: Picture)
    requires
        a.complete(),
        b.complete(),
        same_pixels(a, b),
    ensures
        a == b,
{
    let r = a.row_bytes() as int;
    assert forall|i: int| 0 <= i < a.bytes.len() implies a.bytes[i] == b.bytes[i] by {
        if r == 0 {
            assert(a.height * r == 0) by (nonlinear_arith)
                requires
                    r == 0,
            ;
        } else {
            let y = i / r;
            let x = (i % r) / 4;
            let k = (i % r) % 4;
            vstd::arithmetic::div_mod::lemma_fundamental_div_mod(i, r);
            vstd::arithmetic::div_mod::lemma_mod_bound(i, r);
            assert(0 <= y < a.height) by (nonlinear_arith)
                requires
                    i == r * y + i % r,
                    0 <= i % r < r,
                    0 <= i < a.height * r,
            ;
            assert(i == a.offset(x, y) + k) by (nonlinear_arith)
                requires
                    i == r * y + i % r,
                    a.offset(x, y) == y * r + x * 4,
                    i % r == x * 4 + k,
            ;
            lemma_offset_inside(a, x, y);
            lemma_offset_inside(b, x, y);
            assert(a.pixel(x, y)[k] == b.pixel(x, y)[k]);
        }
    }
    assert(a.bytes =~= b.bytes);
}

/// An image in memory.
#[derive(Debug)]
pub struct Image {
    width: u32,
    height: u32,
    data: Vec<u8>,
}

impl View for Image {
    type V = Picture;

    closed spec fn view(&self) -> Picture {
        Picture { width: self.width as nat, height: self.height as nat, bytes: self.data@ }
    }
}

/// How many bytes an image of the given size holds.
pub open spec fn byte_count(width: int, height: int) -> int {
    height * (width * 4)
}

impl Image {
    #[verifier::type_invariant]
    spec fn consistent(self) -> bool {
        self@.complete()
    }

    /// An image whose bytes are all zero.
    pub fn new(width: u32, height: u32) -> (image: Image)
        requires
            byte_count(width as int, height as int) <= usize::MAX,
        ensures
            image@.width == width,
            image@.height == height,
            image@.complete(),
            forall|i: int| 0 <= i < image@.bytes.len() ==> image@.bytes[i] == 0,
    {
        proof {
            if height > 0 {
                assert(width * 4 <= height * (width * 4)) by (nonlinear_arith)
                    requires
                        height > 0,
                        width >= 0,
                ;
            }
        }
        if height == 0 {
            proof {
                assert(0 * (width * 4) == 0);
            }
            return Image { width, height, data: Vec::new() };
        }
        let size: usize = height as usize * (width as usize * 4);
        let data: Vec<u8> = vec![0u8; size];
        Image { width, height, data }
    }

    /// The image with the given bytes, if there are exactly as many as its size asks for.
    pub fn from_raw(width: u32, height: u32, data: Vec<u8>) -> (result: Option<Image>)
        ensures
            result is Some <==> data@.len() == byte_count(width as int, height as int),
            result matches Some(image) ==> image@ == (Picture {
                width: width as nat,
                height: height as nat,
                bytes: data@,
            }) && image@.complete(),
    {
        proof {
            assert(height as int * (width as int * 4) <= 0x1_0000_0000 * (0x1_0000_0000 * 4))
                by (nonlinear_arith)
                requires
                    0 <= height < 0x1_0000_0000,
                    0 <= width < 0x1_0000_0000,
            ;
        }
        if data.len() as u128 == height as u128 * (width as u128 * 4) {
            Some(Image { width, height, data })
        } else {
            None
        }
    }

    /// The width in pixels.
    pub fn width(&self) -> (width: u32)
        ensures
            width == self@.width,
            self@.complete(),
    {
        proof {
            use_type_invariant(self);
        }
        self.width
    }

    /// The height in pixels.
    pub fn height(&self) -> (height: u32)
        ensures
            height == self@.height,
            self@.complete(),
    {
        proof {
            use_type_invariant(self);
        }
        self.height
    }

    /// The bytes, row after row.
    pub fn as_raw(&self) -> (data: &Vec<u8>)
        ensures
            data@ == self@.bytes,
            self@.complete(),
    {
        proof {
            use_type_invariant(self);
        }
        &self.data
    }

    /// The bytes, row after row, of an image that is no longer needed.
    pub fn into_raw(self) -> (data: Vec<u8>)
        ensures
            data@ == self@.bytes,
            self@.complete(),
    {
        proof {
            use_type_invariant(&self);
        }
        self.data
    }

    /// The four bytes of a pixel.
    pub fn get_pixel(&self, x: u32, y: u32) -> (pixel: [u8; 4])
        requires
            x < self@.width,
            y < self@.height,
        ensures
            pixel@ == self@.pixel(x as int, y as int),
    {
        proof {
            use_type_invariant(self);
            lemma_offset_inside(self@, x as int, y as int);
        }
        let at: usize = self.position(x, y);
        let pixel = [self.data[at], self.data[at + 1], self.data[at + 2], self.data[at + 3]];
        proof {
            assert(pixel@ =~= self@.pixel(x as int, y as int));
        }
        pixel
    }

    /// Replaces the four bytes of a pixel.
    pub fn put_pixel(&mut self, x: u32, y: u32, pixel: [u8; 4])
        requires
            x < old(self)@.width,
            y < old(self)@.height,
        ensures
            final(self)@.width == old(self)@.width,
            final(self)@.height == old(self)@.height,
            final(self)@.complete(),
            final(self)@.pixel(x as int, y as int) == pixel@,
            forall|v: int, w: int|
                0 <= v < old(self)@.width && 0 <= w < old(self)@.height && (v != x || w != y)
                    ==> final(self)@.pixel(v, w) == old(self)@.pixel(v, w),
    {
        let at: usize = self.position(x, y);
        let ghost before = self@;
        proof {
            use_type_invariant(&*self);
            lemma_offset_inside(self@, x as int, y as int);
        }
        self.data[at] = pixel[0];
        self.data[at + 1] = pixel[1];
        self.data[at + 2] = pixel[2];
        self.data[at + 3] = pixel[3];
        proof {
            let after = self@;
            assert(after.pixel(x as int, y as int) =~= pixel@);
            assert forall|v: int, w: int|
                0 <= v < before.width && 0 <= w < before.height && (v != x || w != y) implies
                after.pixel(v, w) == before.pixel(v, w) by {
                lemma_offset_inside(before, v, w);
                lemma_offsets_apart(before.width, x as int, y as int, v, w);
                assert(after.pixel(v, w) =~= before.pixel(v, w));
            }
        }
    }

    fn position(&self, x: u32, y: u32) -> (at: usize)
        requires
            x < self@.width,
            y < self@.height,
        ensures
            at == self@.offset(x as int, y as int),
            at + 4 <= usize::MAX,
    {
        let total: usize = self.data.len();
        proof {
            use_type_invariant(self);
            lemma_offset_inside(self@, x as int, y as int);
            let r = self@.row_bytes();
            assert(r <= self@.height * r) by (nonlinear_arith)
                requires
                    self@.height >= 1,
                    r >= 0,
            ;
        }
        let row: usize = self.width as usize * 4;
        y as usize * row + x as usize * 4
    }
}

impl Clone for Image {
    fn clone(&self) -> (copy: Self)
        ensures
            copy@ == self@,
    {
        proof {
            use_type_invariant(self);
        }
        let data: Vec<u8> = self.data.clone();
        proof {
            assert(data@ =~= self.data@);
        }
        Image { width: self.width, height: self.height, data }
    }
}

/// A picture widened to `width` by transparent black pixels on the right. A picture that
/// is wide enough stays as it is.
pub open spec fn is_padded(from: Picture, width: nat, to: Picture) -> bool {
    if from.width >= width {
        to == from
    } else {
        &&& to.complete()
        &&& to.width == width
        &&& to.height == from.height
        &&& forall|x: int, y: int|
            0 <= x < width && 0 <= y < from.height ==> #[trigger] to.pixel(x, y) == if x
                < from.width {
                from.pixel(x, y)
            } else {
                seq![0u8, 0u8, 0u8, 0u8]
            }
    }
}

/// The picture widened to `width`, the new pixels being zero.
pub open spec fn padded(from: Picture, width: nat) -> Picture {
    choose|to: Picture| is_padded(from, width, to)
}

/// There is at most one way to widen a picture.
pub proof fn lemma_padded_unique(from: Picture, width: nat, to: Picture)
    requires
        is_padded(from, width, to),
    ensures
        padded(from, width) == to,
{
    let other = padded(from, width);
    assert(is_padded(from, width, other));
    if from.width < width {
        assert forall|x: int, y: int|
            0 <= x < to.width && 0 <= y < to.height implies to.pixel(x, y) == other.pixel(x, y) by {
            assert(to.pixel(x, y) == to.pixel(x, y));
        }
        lemma_pixels_determine(to, other);
    }
}

/// The bytes of a picture widened to `width`.
spec fn padded_byte(from: Picture, width: nat, i: int) -> u8 {
    let row = width * 4;
    let x = (i % (row as int)) / 4;
    if x < from.width {
        from.bytes[from.offset(x, i / (row as int)) + (i % (row as int)) % 4]
    } else {
        0
    }
}

/// Every picture can be widened: its pixels stay, those to the right of them are zero.
pub proof fn lemma_padded(from: Picture, width: nat)
    requires
        from.complete(),
    ensures
        is_padded(from, width, padded(from, width)),
        padded(from, width).complete(),
        padded(from, width).height == from.height,
        padded(from, width).width == if from.width < width {
            width
        } else {
            from.width
        },
{
    if from.width >= width {
        lemma_padded_unique(from, width, from);
    } else {
        let row = (width * 4) as int;
        let to = Picture {
            width,
            height: from.height,
            bytes: Seq::new(from.height * (width * 4), |i: int| padded_byte(from, width, i)),
        };
        assert forall|x: int, y: int|
            0 <= x < width && 0 <= y < from.height implies #[trigger] to.pixel(x, y) == if x
            < from.width {
            from.pixel(x, y)
        } else {
            seq![0u8, 0u8, 0u8, 0u8]
        } by {
            lemma_offset_inside(to, x, y);
            if x < from.width {
                lemma_offset_inside(from, x, y);
            }
            assert forall|k: int| 0 <= k < 4 implies to.pixel(x, y)[k] == if x < from.width {
                from.pixel(x, y)[k]
            } else {
                0u8
            } by {
                let i = to.offset(x, y) + k;
                vstd::arithmetic::div_mod::lemma_fundamental_div_mod_converse(
                    i,
                    row,
                    y,
                    x * 4 + k,
                );
                assert(to.bytes[i] == padded_byte(from, width, i));
            }
            assert(to.pixel(x, y) =~= if x < from.width {
                from.pixel(x, y)
            } else {
                seq![0u8, 0u8, 0u8, 0u8]
            });
        }
        assert(is_padded(from, width, to));
        lemma_padded_unique(from, width, to);
    }
}

/// The image widened to `width`, or a copy of it where it is wide enough.
pub fn pad_width(image: &Image, width: u32) -> (wide: Image)
    requires
        byte_count(width as int, image@.height as int) <= usize::MAX,
    ensures
        is_padded(image@, width as nat, wide@),
        wide@ == padded(image@, width as nat),
{
    if image.width() >= width {
        let copy = image.clone();
        proof {
            lemma_padded_unique(image@, width as nat, copy@);
        }
        return copy;
    }
    let columns: u32 = image.width();
    let rows: u32 = image.height();
    let mut wide = Image::new(width, rows);
    proof {
        assert forall|x: int, y: int| 0 <= x < width && 0 <= y < rows implies #[trigger]
        wide@.pixel(x, y) == seq![0u8, 0u8, 0u8, 0u8] by {
            lemma_offset_inside(wide@, x, y);
            assert(wide@.pixel(x, y) =~= seq![0u8, 0u8, 0u8, 0u8]);
        }
    }
    let mut row: u32 = 0;
    while row < rows
        invariant
            row <= rows,
            rows == image@.height,
            columns == image@.width,
            columns < width,
            wide@.complete(),
            wide@.width == width,
            wide@.height == rows,
            forall|x: int, y: int|
                0 <= x < width && 0 <= y < rows ==> #[trigger] wide@.pixel(x, y) == if x
                    < columns && y < row {
                    image@.pixel(x, y)
                } else {
                    seq![0u8, 0u8, 0u8, 0u8]
                },
        decreases rows - row,
    {
        let mut column: u32 = 0;
        while column < columns
            invariant
                row < rows,
                rows == image@.height,
                column <= columns,
                columns == image@.width,
                columns < width,
                wide@.complete(),
                wide@.width == width,
                wide@.height == rows,
                forall|x: int, y: int|
                    0 <= x < width && 0 <= y < rows ==> #[trigger] wide@.pixel(x, y) == if x
                        < columns && (y < row || (y == row && x < column)) {
                        image@.pixel(x, y)
                    } else {
                        seq![0u8, 0u8, 0u8, 0u8]
                    },
            decreases columns - column,
        {
            wide.put_pixel(column, row, image.get_pixel(column, row));
            column += 1;
        }
        row += 1;
    }
    proof {
        lemma_padded_unique(image@, width as nat, wide@);
    }
    wide
}

/// The picture between two rows of an image.
pub proof fn lemma_band_complete(p: Picture, start: int, end: int)
    requires
        p.complete(),
        0 <= start <= end <= p.height,
    ensures
        0 <= start * p.row_bytes() <= end * p.row_bytes() <= p.bytes.len(),
        p.band(start, end).complete(),
{
    let r = p.row_bytes();
    assert(0 <= start * r <= end * r <= p.height * r && end * r - start * r == (end - start) * r)
        by (nonlinear_arith)
        requires
            0 <= start <= end <= p.height,
            r >= 0,
    ;
}

/// The pixels of a band are those of the picture, counted from its first row.
pub proof fn lemma_band_pixel(p: Picture, start: int, end: int, x: int, y: int)
    requires
        p.complete(),
        0 <= start <= end <= p.height,
        0 <= x < p.width,
        0 <= y < end - start,
    ensures
        p.band(start, end).pixel(x, y) == p.pixel(x, start + y),
{
    lemma_band_complete(p, start, end);
    let b = p.band(start, end);
    lemma_offset_inside(b, x, y);
    lemma_offset_inside(p, x, start + y);
    assert((start + y) * p.row_bytes() == start * p.row_bytes() + y * p.row_bytes())
        by (nonlinear_arith);
    assert(b.pixel(x, y) =~= p.pixel(x, start + y));
}

/// The pixels of a stack are those of its parts.
pub proof fn lemma_stacked_pixel(upper: Picture, lower: Picture, x: int, y: int)
    requires
        upper.complete(),
        lower.complete(),
        upper.width == lower.width,
        0 <= x < upper.width,
        0 <= y < upper.height + lower.height,
    ensures
        stacked(upper, lower).complete(),
        stacked(upper, lower).pixel(x, y) == if y < upper.height {
            upper.pixel(x, y)
        } else {
            lower.pixel(x, y - upper.height)
        },
{
    lemma_stacked_complete(upper, lower);
    let all = stacked(upper, lower);
    let r = upper.row_bytes();
    lemma_offset_inside(all, x, y);
    if y < upper.height {
        lemma_offset_inside(upper, x, y);
        assert(all.pixel(x, y) =~= upper.pixel(x, y));
    } else {
        lemma_offset_inside(lower, x, y - upper.height);
        assert(y * r == upper.height * r + (y - upper.height) * r) by (nonlinear_arith);
        assert(all.pixel(x, y) =~= lower.pixel(x, y - upper.height));
    }
}

/// Stacking complete pictures of one width gives a complete picture.
pub proof fn lemma_stacked_complete(upper: Picture, lower: Picture)
    requires
        upper.complete(),
        lower.complete(),
        upper.width == lower.width,
    ensures
        stacked(upper, lower).complete(),
{
    let r = upper.row_bytes();
    assert((upper.height + lower.height) * r == upper.height * r + lower.height * r)
        by (nonlinear_arith);
}

/// One image on top of the rows `start..end` of another, or below them.
pub fn join_rows(image: &Image, other: &Image, start: u32, end: u32, below: bool) -> (joined:
    Image)
    requires
        image@.width == other@.width,
        start <= end <= other@.height,
        image@.height + (end - start) <= u32::MAX,
        byte_count(image@.width as int, image@.height + (end - start)) <= usize::MAX,
    ensures
        joined@ == if below {
            stacked(image@, other@.band(start as int, end as int))
        } else {
            stacked(other@.band(start as int, end as int), image@)
        },
        joined@.complete(),
{
    let width: u32 = image.width();
    let height: u32 = image.height() + (end - start);
    let total: usize = other.as_raw().len();
    proof {
        lemma_band_complete(other@, start as int, end as int);
        lemma_stacked_complete(image@, other@.band(start as int, end as int));
        lemma_stacked_complete(other@.band(start as int, end as int), image@);
        if other@.height > 0 {
            assert(other@.row_bytes() <= other@.height * other@.row_bytes()) by (nonlinear_arith)
                requires
                    other@.height > 0,
            ;
        }
    }
    let (first, last): (usize, usize) = if other.height() == 0 {
        (0, 0)
    } else {
        let row: usize = width as usize * 4;
        (start as usize * row, end as usize * row)
    };
    let piece: &[u8] = slice_subrange(other.as_raw().as_slice(), first, last);
    let mut data: Vec<u8> = Vec::with_capacity(image.as_raw().len());
    if below {
        data.extend_from_slice(image.as_raw().as_slice());
        data.extend_from_slice(piece);
        proof {
            assert(data@ =~= image@.bytes + other@.rows(start as int, end as int));
        }
    } else {
        data.extend_from_slice(piece);
        data.extend_from_slice(image.as_raw().as_slice());
        proof {
            assert(data@ =~= other@.rows(start as int, end as int) + image@.bytes);
        }
    }
    Image { width, height, data }
}

/// A copy of the rows `start..end` of an image.
pub fn copy_rows(image: &Image, start: u32, end: u32) -> (copy: Image)
    requires
        start <= end <= image@.height,
    ensures
        copy@ == image@.band(start as int, end as int),
        copy@.complete(),
{
    let width: u32 = image.width();
    let total: usize = image.as_raw().len();
    proof {
        lemma_band_complete(image@, start as int, end as int);
        if image@.height > 0 {
            assert(image@.row_bytes() <= image@.height * image@.row_bytes()) by (nonlinear_arith)
                requires
                    image@.height > 0,
            ;
        }
    }
    let (first, last): (usize, usize) = if image.height() == 0 {
        (0, 0)
    } else {
        let row: usize = width as usize * 4;
        (start as usize * row, end as usize * row)
    };
    let mut data: Vec<u8> = Vec::new();
    data.extend_from_slice(slice_subrange(image.as_raw().as_slice(), first, last));
    proof {
        assert(data@ =~= image@.rows(start as int, end as int));
    }
    Image { width, height: end - start, data }
}

} // verus!
