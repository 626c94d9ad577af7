//! What the pixels of the drawings show.

use crate::canvas::{
    cleared, in_rounded, ink, lemma_paint_pixel, line_area, paint, rounded_area, snapped,
    stroked_rect, stroked_rounded, tint, Area, Form,
};
use crate::drawing::{
    content_slot, cropped_over, handle_at, handled, indicated, lemma_blitted_pixel, marker_of, possible_crop,
    previewed, shaded_bottom, shaded_top, source_column, source_row, Slot,
};
use crate::preview::{drawn_row, viewport_of, PreviewOptions, PreviewViewport};
use crate::profile::fraction;
use crate::raster::{lemma_offset_inside, Picture};
use crate::single::{
    half, lemma_fraction_near, lemma_halves_exact, lemma_halves_nearest, lemma_halves_sum,
    lemma_one_large, lemma_whole_exact, magnitude, one, sum,
};
use vstd::prelude::*;

verus! {

/// A colour is drawn as its blue, green and red share and its alpha: an opaque colour as it is,
/// any other darkened by its alpha.
pub proof fn lemma_ink(color: Seq<u8>)
    ensures
        ink(color).len() == 4,
        ink(color)[3] == color[3],
        255 * ink(color)[0] <= color[2] * color[3] < 255 * (ink(color)[0] + 1),
        255 * ink(color)[1] <= color[1] * color[3] < 255 * (ink(color)[1] + 1),
        255 * ink(color)[2] <= color[0] * color[3] < 255 * (ink(color)[2] + 1),
        color[3] == 255 ==> ink(color) == seq![color[2], color[1], color[0], 255u8],
        color[3] == 0 ==> ink(color) == seq![0u8, 0u8, 0u8, 0u8],
{
    lemma_darkened(color[0], color[3]);
    lemma_darkened(color[1], color[3]);
    lemma_darkened(color[2], color[3]);
    if color[3] == 255 {
        assert(ink(color) =~= seq![color[2], color[1], color[0], 255u8]);
    }
    if color[3] == 0 {
        assert(ink(color) =~= seq![0u8, 0u8, 0u8, 0u8]);
    }
}

proof fn lemma_darkened(value: u8, alpha: u8)
    ensures
        ({
            let n = value as int * alpha as int;
            &&& 0 <= n / 255 <= 255
            &&& 255 * (n / 255) <= n < 255 * (n / 255 + 1)
            &&& alpha == 255 ==> n / 255 == value
            &&& alpha == 0 ==> n / 255 == 0
        }),
{
    let n = value as int * alpha as int;
    assert(0 <= n <= 255 * 255) by (nonlinear_arith)
        requires
            n == value as int * alpha as int,
            0 <= value <= 255,
            0 <= alpha <= 255,
    ;
    if alpha == 255 {
        assert(n == 255 * value as int);
    }
    if alpha == 0 {
        assert(n == 0);
    }
}

/// A rectangle is painted from its first column and row on, as wide and as high as it is.
pub proof fn lemma_rectangle(
    p: Picture,
    x: int,
    y: int,
    width: int,
    height: int,
    color: Seq<u8>,
    px: int,
    py: int,
)
    requires
        p.complete(),
        0 <= px < p.width,
        0 <= py < p.height,
    ensures
        paint(p, Area::plain(x, y, width, height), color).pixel(px, py) == if x <= px < x + width
            && y <= py < y + height {
            ink(color)
        } else {
            p.pixel(px, py)
        },
        paint(p, Area::plain(x, y, width, height), color).complete(),
{
    lemma_paint_pixel(p, Area::plain(x, y, width, height), color, px, py);
}

/// Rounded corners are alike, and quarters of discs.
pub proof fn lemma_corners(x: int, y: int, width: int, height: int, radius: int)
    requires
        0 <= radius,
        2 * radius <= width,
        2 * radius <= height,
        0 <= x < width,
        0 <= y < height,
    ensures
        in_rounded(x, y, width, height, radius) <==> in_rounded(
            width - 1 - x,
            y,
            width,
            height,
            radius,
        ),
        in_rounded(x, y, width, height, radius) <==> in_rounded(
            x,
            height - 1 - y,
            width,
            height,
            radius,
        ),
        x < radius && y < radius ==> (in_rounded(x, y, width, height, radius) <==> (radius - x) * (
        radius - x) + (radius - y) * (radius - y) <= radius * radius),
        radius <= x < width - radius || radius <= y < height - radius ==> in_rounded(
            x,
            y,
            width,
            height,
            radius,
        ),
        radius == 0 ==> in_rounded(x, y, width, height, radius),
{
    if width == 2 * radius || height == 2 * radius {
        lemma_tight(x, y, width, height, radius);
    }
}

/// Where nothing is left between two corners, they meet in the middle.
proof fn lemma_tight(x: int, y: int, width: int, height: int, radius: int)
    requires
        0 <= radius,
        2 * radius <= width,
        2 * radius <= height,
        0 <= x < width,
        0 <= y < height,
    ensures
        in_rounded(x, y, width, height, radius) <==> in_rounded(
            width - 1 - x,
            y,
            width,
            height,
            radius,
        ),
        in_rounded(x, y, width, height, radius) <==> in_rounded(
            x,
            height - 1 - y,
            width,
            height,
            radius,
        ),
{
}

/// The rim is one pixel wide: it covers what has a side towards the outside.
pub proof fn lemma_rim(x: int, y: int, width: int, height: int)
    requires
        3 <= width,
        3 <= height,
    ensures
        rounded_area(0, 0, width, height, 0, Form::Rim).covers(x, y) <==> 0 <= x < width && 0 <= y
            < height && (x == 0 || y == 0 || x == width - 1 || y == height - 1),
{
}

proof fn lemma_whole_snapped(n: nat)
    requires
        n < 0x40_0000,
    ensures
        fraction(n, 1) == (2 * n) * half(),
        snapped(fraction(n, 1)) == n,
{
    lemma_whole_exact(n);
    lemma_halves_exact(1);
    lemma_halves_nearest((2 * n) as int);
    let h = half();
    assert(n * (2 * h) == (2 * n) * h) by (nonlinear_arith);
}

/// A line between pixels of one row covers them and those between, and half its thickness above
/// and below.
pub proof fn lemma_level_line(x0: nat, x1: nat, y: nat, line_width: int, px: int, py: int)
    requires
        x0 < x1 < 0x40_0000,
        y < 0x40_0000,
        0 <= line_width,
    ensures
        line_area(fraction(x0, 1), fraction(y, 1), fraction(x1, 1), fraction(y, 1), line_width).covers(
            px,
            py,
        ) <==> x0 <= px <= x1 && y - line_width / 2 <= py <= y + line_width / 2,
        line_area(fraction(x1, 1), fraction(y, 1), fraction(x0, 1), fraction(y, 1), line_width).covers(
            px,
            py,
        ) <==> x0 <= px <= x1 && y - line_width / 2 <= py <= y + line_width / 2,
{
    reveal(line_area);
    lemma_whole_snapped(x0);
    lemma_whole_snapped(x1);
    lemma_whole_snapped(y);
    lemma_same_place(y);
    lemma_apart(x0, x1);
}

/// A line between pixels of one column covers them and those between, and half its thickness on
/// the left and on the right.
pub proof fn lemma_upright_line(x: nat, y0: nat, y1: nat, line_width: int, px: int, py: int)
    requires
        y0 < y1 < 0x40_0000,
        x < 0x40_0000,
        0 <= line_width,
    ensures
        line_area(fraction(x, 1), fraction(y0, 1), fraction(x, 1), fraction(y1, 1), line_width).covers(
            px,
            py,
        ) <==> y0 <= py <= y1 && x - line_width / 2 <= px <= x + line_width / 2,
        line_area(fraction(x, 1), fraction(y1, 1), fraction(x, 1), fraction(y0, 1), line_width).covers(
            px,
            py,
        ) <==> y0 <= py <= y1 && x - line_width / 2 <= px <= x + line_width / 2,
{
    reveal(line_area);
    lemma_whole_snapped(x);
    lemma_whole_snapped(y0);
    lemma_whole_snapped(y1);
    lemma_same_place(x);
    lemma_apart(y0, y1);
}

proof fn lemma_same_place(n: nat)
    requires
        n < 0x40_0000,
    ensures
        magnitude(sum(fraction(n, 1), -fraction(n, 1))) < fraction(1, 1000),
{
    lemma_whole_snapped(n);
    lemma_one_large();
    let h = half() as int;
    let a = (2 * n) as int;
    assert(-(a * h) == (-a) * h) by (nonlinear_arith);
    lemma_halves_sum(a, -a);
    assert(0 * h == 0);
    lemma_fraction_near(1, 1000);
}

proof fn lemma_apart(a: nat, b: nat)
    requires
        a < b < 0x40_0000,
    ensures
        fraction(a, 1) < fraction(b, 1),
        magnitude(sum(fraction(a, 1), -fraction(b, 1))) >= fraction(1, 1000),
        magnitude(sum(fraction(b, 1), -fraction(a, 1))) >= fraction(1, 1000),
{
    lemma_whole_snapped(a);
    lemma_whole_snapped(b);
    lemma_one_large();
    lemma_halves_exact(1);
    let h = half() as int;
    let m = (2 * a) as int;
    let n = (2 * b) as int;
    assert(-(n * h) == (-n) * h && -(m * h) == (-m) * h) by (nonlinear_arith);
    lemma_halves_sum(m, -n);
    lemma_halves_sum(n, -m);
    let d = n - m;
    assert(d * h >= 2 * h && (-d) * h == -(d * h) && n * h == m * h + d * h) by (nonlinear_arith)
        requires
            d >= 2,
            h > 0,
            d == n - m,
    ;
    assert(m - n == -d && m + -n == -d);
    lemma_fraction_near(1, 1000);
}

/// The sides of a rectangle drawn two pixels thick cover one pixel on both sides of them.
proof fn lemma_sides(
    p: Picture,
    x: nat,
    y: nat,
    w: nat,
    h: nat,
    color: Seq<u8>,
    px: int,
    py: int,
)
    requires
        p.complete(),
        0 < w,
        0 < h,
        x + w < 0x40_0000,
        y + h < 0x40_0000,
        0 <= px < p.width,
        0 <= py < p.height,
    ensures
        stroked_rect(p, fraction(x, 1), fraction(y, 1), fraction(w, 1), fraction(h, 1), 2, color).pixel(
            px,
            py,
        ) == if (x <= px <= x + w && (y - 1 <= py <= y + 1 || y + h - 1 <= py <= y + h + 1)) || (y
            <= py <= y + h && (x - 1 <= px <= x + 1 || x + w - 1 <= px <= x + w + 1)) {
            ink(color)
        } else {
            p.pixel(px, py)
        },
{
    lemma_added(x, w);
    lemma_added(y, h);
    let fx = fraction(x, 1);
    let fy = fraction(y, 1);
    let right = fraction((x + w) as nat, 1);
    let low = fraction((y + h) as nat, 1);
    let top_line = line_area(fx, fy, right, fy, 2);
    let right_line = line_area(right, fy, right, low, 2);
    let low_line = line_area(right, low, fx, low, 2);
    let left_line = line_area(fx, low, fx, fy, 2);
    let one_side = paint(p, top_line, color);
    let two_sides = paint(one_side, right_line, color);
    let three_sides = paint(two_sides, low_line, color);
    lemma_painted_size(p, top_line, color);
    lemma_painted_size(one_side, right_line, color);
    lemma_painted_size(two_sides, low_line, color);
    lemma_paint_pixel(p, top_line, color, px, py);
    lemma_paint_pixel(one_side, right_line, color, px, py);
    lemma_paint_pixel(two_sides, low_line, color, px, py);
    lemma_paint_pixel(three_sides, left_line, color, px, py);
    lemma_level_line(x, x + w, y, 2, px, py);
    lemma_level_line(x, x + w, y + h, 2, px, py);
    lemma_upright_line(x, y, y + h, 2, px, py);
    lemma_upright_line(x + w, y, y + h, 2, px, py);
}

proof fn lemma_painted_size(p: Picture, area: Area, color: Seq<u8>)
    ensures
        paint(p, area, color).width == p.width,
        paint(p, area, color).height == p.height,
{
    reveal(paint);
}

proof fn lemma_added(a: nat, b: nat)
    requires
        a + b < 0x40_0000,
    ensures
        sum(fraction(a, 1), fraction(b, 1)) == fraction((a + b) as nat, 1),
{
    lemma_whole_snapped(a);
    lemma_whole_snapped(b);
    lemma_whole_snapped(a + b);
    lemma_halves_sum((2 * a) as int, (2 * b) as int);
}

/// A preview on which no crop and no indicator are drawn: a border, the image eight pixels inside
/// it, and a faint ground between both.
pub proof fn lemma_preview_pixel(
    p: Picture,
    image: Picture,
    accent: Seq<u8>,
    options: PreviewOptions,
    px: int,
    py: int,
)
    requires
        p.complete(),
        17 <= p.width < 0x40_0000,
        17 <= p.height < 0x40_0000,
        0 <= px < p.width,
        0 <= py < p.height,
        image.width > 0,
        image.height > 0,
        !options.crop_enabled,
        options.capture_len == 0,
    ensures
        ({
            let w = p.width as int;
            let h = p.height as int;
            let v = viewport_of(
                image.width as int,
                image.height as int,
                w - 16,
                h - 16,
                options.source_pos as int,
                options.frame_len as int,
                options.edge,
            );
            let slot = Slot { x: 8, y: 8, width: (w - 16) as u32, height: (h - 16) as u32 };
            let pixel = previewed(p, image, accent, options).pixel(px, py);
            let border = (1 <= px <= w - 2 && (py <= 2 || py >= h - 3)) || (1 <= py <= h - 2 && (px
                <= 2 || px >= w - 3));
            let content = 8 <= px < w - 8 && 8 <= py < h - 8;
            &&& border ==> pixel == ink(seq![accent[0], accent[1], accent[2], 77u8])
            &&& content ==> pixel == ink(
                image.pixel(
                    source_column(image, slot, px - 8),
                    source_row(image, v, py - 8),
                ),
            )
            &&& !border && !content && 0 < px < w - 1 && 0 < py < h - 1 ==> pixel == ink(
                seq![accent[0], accent[1], accent[2], 28u8],
            )
            &&& !border && !content && !(0 < px < w - 1 && 0 < py < h - 1) ==> pixel
                == seq![0u8, 0u8, 0u8, 0u8]
        }),
{
    let w = p.width as int;
    let h = p.height as int;
    let slot = content_slot(w, h);
    let v = viewport_of(
        image.width as int,
        image.height as int,
        w - 16,
        h - 16,
        options.source_pos as int,
        options.frame_len as int,
        options.edge,
    );
    let blank = cleared(p);
    let area = Area::plain(1, 1, w - 2, h - 2);
    let ground = paint(blank, area, tint(accent, 28));
    assert(blank.complete());
    lemma_offset_inside(blank, px, py);
    assert(blank.pixel(px, py) =~= seq![0u8, 0u8, 0u8, 0u8]);
    lemma_paint_pixel(blank, area, tint(accent, 28), px, py);
    lemma_painted_size(blank, area, tint(accent, 28));
    lemma_blitted_pixel(ground, image, slot, v, px, py);
    let shown = crate::drawing::blitted(ground, image, slot, v);
    lemma_shown_size(ground, image, slot, v);
    assert(indicated(
        shown,
        image.height as int,
        slot,
        v,
        options.capture_pos as int,
        options.capture_len as int,
        accent,
    ) == shown);
    lemma_sides(shown, 1, 1, (w - 3) as nat, (h - 3) as nat, tint(accent, 77), px, py);
}

proof fn lemma_shown_size(p: Picture, image: Picture, slot: Slot, v: PreviewViewport)
    ensures
        crate::drawing::blitted(p, image, slot, v).width == p.width,
        crate::drawing::blitted(p, image, slot, v).height == p.height,
{
    reveal(crate::drawing::blitted);
}

/// The columns of an image are drawn in order over the whole width of a slot.
pub proof fn lemma_column_drawn(image: Picture, slot: Slot, dx: int)
    requires
        0 <= dx < slot.width,
        image.width > 0,
    ensures
        ({
            let column = source_column(image, slot, dx);
            &&& 0 <= column < image.width
            &&& column * slot.width <= dx * image.width < (column + 1) * slot.width
        }),
{
    let n = dx * image.width;
    let d = slot.width as int;
    assert(0 <= n && n < d * image.width) by (nonlinear_arith)
        requires
            n == dx * image.width,
            0 <= dx < d,
            image.width > 0,
    ;
    lemma_quotient(n, d, image.width as int);
}

/// The rows of an image are drawn in order, from the first that is shown on.
pub proof fn lemma_row_drawn(image: Picture, v: PreviewViewport, dy: int)
    requires
        0 <= dy,
        v.scaled_start + dy < v.scaled_height,
        0 < image.height <= u32::MAX,
    ensures
        ({
            let row = source_row(image, v, dy);
            &&& 0 <= row < image.height
            &&& row * v.scaled_height <= (v.scaled_start + dy) * image.height < (row + 1)
                * v.scaled_height
        }),
{
    let n = (v.scaled_start + dy) * image.height;
    let d = v.scaled_height as int;
    assert(0 <= n && n < d * image.height) by (nonlinear_arith)
        requires
            n == (v.scaled_start + dy) * image.height,
            0 <= v.scaled_start + dy < d,
            image.height > 0,
    ;
    lemma_quotient(n, d, image.height as int);
    let q = n / d;
    assert(crate::preview::low_bits(q) == q);
}

proof fn lemma_quotient(n: int, d: int, m: int)
    requires
        0 <= n < d * m,
        0 < d,
    ensures
        0 <= n / d < m,
        (n / d) * d <= n < (n / d + 1) * d,
{
    vstd::arithmetic::div_mod::lemma_fundamental_div_mod(n, d);
    vstd::arithmetic::div_mod::lemma_mod_bound(n, d);
    let q = n / d;
    assert(0 <= q < m && q * d <= n < (q + 1) * d) by (nonlinear_arith)
        requires
            n == d * q + n % d,
            0 <= n % d < d,
            0 <= n < d * m,
    ;
}

/// What is cropped away at the top is dark: the rows drawn before the first that is left. Where
/// nothing that is shown is cropped away at the top, nothing changes.
pub proof fn lemma_top_dark(
    p: Picture,
    slot: Slot,
    v: PreviewViewport,
    crop_top: int,
    px: int,
    py: int,
)
    requires
        p.complete(),
        0 <= px < p.width,
        0 <= py < p.height,
        0 < slot.height,
        0 < v.source_len,
        v.source_start + v.source_len <= u32::MAX,
    ensures
        ({
            let after = shaded_top(p, slot, v, crop_top);
            let left = drawn_row(
                crop_top,
                v.source_start as int,
                v.source_len as int,
                slot.height as int,
            );
            let across = slot.x <= px < slot.x + slot.width;
            &&& crop_top <= v.source_start ==> after == p
            &&& crop_top > v.source_start && across && slot.y <= py < slot.y + left ==> after.pixel(
                px,
                py,
            ) == ink(seq![0u8, 0u8, 0u8, 140u8])
            &&& !across || py < slot.y || (py >= slot.y + left && py > slot.y) ==> after.pixel(
                px,
                py,
            ) == p.pixel(px, py)
        }),
{
    let start = v.source_start as int;
    let end = start + v.source_len;
    let len = v.source_len as int;
    let high = slot.height as int;
    crate::layout::lemma_drawn_in_order(start, end, start, len, high);
    crate::layout::lemma_drawn_in_order(crop_top, crop_top, start, len, high);
    let last = if crop_top < end {
        crop_top
    } else {
        end
    };
    if crop_top > start {
        crate::layout::lemma_span_drawn(start, last, start, len, high);
        lemma_rectangle(
            p,
            slot.x as int,
            slot.y as int,
            slot.width as int,
            crate::preview::drawn_rows(start, last, start, len, high),
            seq![0u8, 0u8, 0u8, 140u8],
            px,
            py,
        );
    }
}

/// What is cropped away at the bottom is dark: the rows drawn from the first that is cropped away
/// on. Where nothing that is shown is cropped away at the bottom, nothing changes.
pub proof fn lemma_bottom_dark(
    p: Picture,
    slot: Slot,
    v: PreviewViewport,
    bottom: int,
    px: int,
    py: int,
)
    requires
        p.complete(),
        0 <= px < p.width,
        0 <= py < p.height,
        0 < slot.height,
        0 < v.source_len,
        v.source_start + v.source_len <= u32::MAX,
    ensures
        ({
            let after = shaded_bottom(p, slot, v, bottom);
            let first = drawn_row(
                bottom,
                v.source_start as int,
                v.source_len as int,
                slot.height as int,
            );
            let across = slot.x <= px < slot.x + slot.width;
            let dark = bottom < v.source_start + v.source_len && across && slot.y + first <= py
                < slot.y + slot.height;
            after.pixel(px, py) == if dark {
                ink(seq![0u8, 0u8, 0u8, 140u8])
            } else {
                p.pixel(px, py)
            }
        }),
{
    let start = v.source_start as int;
    let len = v.source_len as int;
    let high = slot.height as int;
    crate::layout::lemma_drawn_in_order(bottom, bottom, start, len, high);
    crate::layout::lemma_drawn_in_order(start, start, start, len, high);
    let from = if bottom > start {
        bottom
    } else {
        start
    };
    let row = drawn_row(from, start, len, high);
    if bottom < start + len {
        lemma_rectangle(
            p,
            slot.x as int,
            slot.y + row,
            slot.width as int,
            high - row,
            seq![0u8, 0u8, 0u8, 140u8],
            px,
            py,
        );
    }
}

/// As many rows are cropped away as asked for, as long as one is left; the top goes first.
pub proof fn lemma_crop_possible(height: int, top: int, bottom: int)
    requires
        0 < height,
        0 <= top,
        0 <= bottom,
    ensures
        ({
            let crop = possible_crop(height, top, bottom);
            &&& top + bottom < height ==> crop.top == top && crop.bottom == bottom
            &&& crop.top + crop.bottom < height
            &&& top < height ==> crop.top == top
            &&& top + bottom >= height ==> crop.top + crop.bottom + 1 == height
        }),
{
}

/// A crop handle on a wide slot: nothing more than six rows away changes, its line runs over the
/// whole width, and three grips stand in its middle.
#[verifier::spinoff_prover]
pub proof fn lemma_handle_pixel(
    p: Picture,
    x: int,
    y: int,
    width: int,
    accent: Seq<u8>,
    px: int,
    py: int,
)
    requires
        p.complete(),
        0 <= px < p.width,
        0 <= py < p.height,
        0 <= x,
        6 <= y,
        76 <= width,
    ensures
        ({
            let pixel = handled(p, x, y, width, accent).pixel(px, py);
            let left = x + (width - 76) / 2;
            let across = x <= px < x + width;
            let grip = left + 30 <= px < left + 33 || left + 38 <= px < left + 41 || left + 46
                <= px < left + 49;
            &&& py < y - 6 || py > y + 6 || !across ==> pixel == p.pixel(px, py)
            &&& across && py == y - 1 ==> pixel == ink(seq![accent[0], accent[1], accent[2], 110u8])
            &&& across && (px < left || px >= left + 76) && (py == y || py == y + 1) ==> pixel
                == ink(seq![accent[0], accent[1], accent[2], 180u8])
            &&& grip && y - 2 <= py <= y + 2 && py != y - 1 ==> pixel == ink(
                seq![255u8, 255u8, 255u8, 210u8],
            )
            &&& (px < left || px >= left + 76) && (py < y - 1 || py > y + 1) ==> pixel == p.pixel(
                px,
                py,
            )
            &&& left + 7 <= px < left + 30 && y - 4 <= py <= y + 4 && py != y - 1 ==> pixel == ink(
                seq![18u8, 18u8, 18u8, 220u8],
            )
        }),
{
    let left = x + (width - 76) / 2;
    let top = y - 6;
    let line = tint(accent, 180);
    let bright = seq![255u8, 255u8, 255u8, 210u8];
    let dark = seq![18u8, 18u8, 18u8, 220u8];
    let first_line = Area::plain(x, y - 1, width, 3);
    let body = rounded_area(left, top, 76, 13, 6, Form::Rounded);
    let outer = rounded_area(left, top, 76, 13, 6, Form::Rim);
    let inner = rounded_area(left + 1, top + 1, 74, 11, 5, Form::Rim);
    let grip_one = Area::plain(left + 30, top + 4, 3, 5);
    let grip_two = Area::plain(left + 38, top + 4, 3, 5);
    let grip_three = Area::plain(left + 46, top + 4, 3, 5);
    let last_line = Area::plain(x, y - 1, width, 1);
    let a = paint(p, first_line, line);
    let b = paint(a, body, dark);
    let c = paint(b, outer, line);
    let d = paint(c, inner, line);
    let e = paint(d, grip_one, bright);
    let f = paint(e, grip_two, bright);
    let g = paint(f, grip_three, bright);
    let after = paint(g, last_line, tint(accent, 110));
    reveal_with_fuel(stroked_rounded, 3);
    assert(stroked_rounded(b, left, top, 76, 13, 0, 6, line) == b);
    assert(left + 0 == left && top + 0 == top);
    assert(stroked_rounded(b, left, top, 76, 13, 1, 6, line) == c);
    assert(stroked_rounded(b, left, top, 76, 13, 2, 6, line) == d);
    assert(handled(p, x, y, width, accent) == after);
    lemma_painted_size(p, first_line, line);
    lemma_painted_size(a, body, dark);
    lemma_painted_size(b, outer, line);
    lemma_painted_size(c, inner, line);
    lemma_painted_size(d, grip_one, bright);
    lemma_painted_size(e, grip_two, bright);
    lemma_painted_size(f, grip_three, bright);
    lemma_paint_pixel(p, first_line, line, px, py);
    lemma_paint_pixel(a, body, dark, px, py);
    lemma_paint_pixel(b, outer, line, px, py);
    lemma_paint_pixel(c, inner, line, px, py);
    lemma_paint_pixel(d, grip_one, bright, px, py);
    lemma_paint_pixel(e, grip_two, bright, px, py);
    lemma_paint_pixel(f, grip_three, bright, px, py);
    lemma_paint_pixel(g, last_line, tint(accent, 110), px, py);
}

/// The mark of what was captured last does not reach below its track, is at least four rows high,
/// and has the middle and the height on the track that the capture has in the picture.
pub proof fn lemma_marker(top: int, usable: int, height: int, pos: int, len: int)
    requires
        0 <= top,
        8 <= usable,
        0 < height <= u32::MAX,
        0 <= pos,
        0 < len,
        pos + len <= height,
    ensures
        ({
            let m = marker_of(top, usable, height, pos, len);
            &&& 4 <= m.height <= usable
            &&& 0 <= m.y && m.y + m.height <= top + usable
            &&& len == height ==> m.height == usable
            &&& m.height > 4 ==> -height <= 2 * (m.height * height - len * usable) <= height
            &&& m.height == 4 ==> 2 * (len * usable) <= 9 * height
            &&& 0 < m.y && m.y + m.height < top + usable ==> -height <= 2 * ((m.y + m.height / 2
                - top) * height - (pos + len / 2) * usable) <= height
        }),
{
    let n = len * usable + height / 2;
    let c = (pos + len / 2) * usable + height / 2;
    assert(len * usable <= height * usable && 0 < len * usable && 0 <= (pos + len / 2) * usable
        <= height * usable) by (nonlinear_arith)
        requires
            0 < len <= height,
            0 <= pos + len / 2 <= height,
            0 < usable,
    ;
    assert(n < height * (usable + 1) && c < height * (usable + 1)) by (nonlinear_arith)
        requires
            2 * n <= 2 * (height * usable) + height,
            2 * c <= 2 * (height * usable) + height,
            0 < height,
    ;
    lemma_quotient(n, height, usable + 1);
    lemma_quotient(c, height, usable + 1);
    let q = n / height;
    let k = c / height;
    assert((q + 1) * height == q * height + height && (k + 1) * height == k * height + height)
        by (nonlinear_arith);
    let m = marker_of(top, usable, height, pos, len);
    if len == height {
        assert(q >= usable) by (nonlinear_arith)
            requires
                n < (q + 1) * height,
                n >= height * usable,
                0 < height,
        ;
    }
    if m.height == 4 {
        assert(q <= 4);
        assert(q * height <= 4 * height) by (nonlinear_arith)
            requires
                q <= 4,
                0 < height,
        ;
    }
    if 0 < m.y && m.y + m.height < top + usable {
        assert(m.y + m.height / 2 - top == k);
    }
}

/// The indicator stands five pixels wide near the right side of the slot, and changes nothing
/// else. The mark of what was captured last lies on top.
pub proof fn lemma_indicator_pixel(
    p: Picture,
    height: int,
    slot: Slot,
    v: PreviewViewport,
    pos: int,
    len: int,
    accent: Seq<u8>,
    px: int,
    py: int,
)
    requires
        p.complete(),
        0 <= px < p.width,
        0 <= py < p.height,
        0 < height,
        0 < len,
        12 <= slot.height,
        8 <= slot.width,
        v.source_start <= v.max_source_start,
        v.max_source_start + v.source_len == height,
        0 < v.source_len,
    ensures
        ({
            let pixel = indicated(p, height, slot, v, pos, len, accent).pixel(px, py);
            let right = slot.x + slot.width;
            let top = slot.y + 2;
            let usable = slot.height - 4;
            let m = marker_of(top, usable, height, pos, len);
            let marked = right - 6 <= px < right - 1 && m.y <= py < m.y + m.height;
            let track = right - 5 <= px < right - 2 && top <= py < top + usable;
            &&& marked ==> pixel == ink(seq![accent[0], accent[1], accent[2], 205u8])
            &&& !marked && !track ==> pixel == p.pixel(px, py)
            &&& !marked && track ==> pixel == ink(seq![255u8, 255u8, 255u8, 38u8]) || pixel == ink(
                seq![255u8, 255u8, 255u8, 92u8],
            )
            &&& !marked && track && v.max_source_start > 0 && v.source_start == 0 && py < top + 8
                ==> pixel == ink(seq![255u8, 255u8, 255u8, 92u8])
            &&& !marked && track && v.max_source_start > 0 && v.source_start == v.max_source_start
                && py >= top + usable - 8 ==> pixel == ink(seq![255u8, 255u8, 255u8, 92u8])
            &&& !marked && track && v.max_source_start == 0 ==> pixel == ink(
                seq![255u8, 255u8, 255u8, 38u8],
            )
        }),
{
    let track_x = slot.x + (slot.width - 5);
    let top = slot.y + 2;
    let usable = slot.height - 4;
    let pale = seq![255u8, 255u8, 255u8, 38u8];
    let clear = seq![255u8, 255u8, 255u8, 92u8];
    let whole = Area::plain(track_x, top, 3, usable);
    let track = paint(p, whole, pale);
    let share = v.source_len * usable / height;
    let thumb = if share > 10 {
        if share < usable {
            share
        } else {
            usable
        }
    } else if usable < 10 {
        usable
    } else {
        10
    };
    let most_start = v.max_source_start as int;
    lemma_painted_size(p, whole, pale);
    lemma_paint_pixel(p, whole, pale, px, py);
    let m = marker_of(top, usable, height, pos, len);
    let mark = Area::plain(track_x - 1, m.y, 5, m.height);
    if most_start > 0 {
        let room = usable - thumb;
        let n = v.source_start * room;
        assert(0 <= n && n <= most_start * room) by (nonlinear_arith)
            requires
                n == v.source_start * room,
                0 <= v.source_start <= most_start,
                0 <= room,
        ;
        assert(n < most_start * (room + 1)) by (nonlinear_arith)
            requires
                n <= most_start * room,
                0 < most_start,
        ;
        lemma_quotient(n, most_start, room + 1);
        let down = n / most_start;
        if v.source_start == 0 {
            assert(n == 0) by (nonlinear_arith)
                requires
                    n == v.source_start * room,
                    v.source_start == 0,
            ;
            assert(0int / most_start == 0) by (nonlinear_arith)
                requires
                    most_start > 0,
            ;
        }
        if v.source_start == most_start {
            assert(down == room) by (nonlinear_arith)
                requires
                    down == n / most_start,
                    n == most_start * room,
                    most_start > 0,
            ;
        }
        let part = Area::plain(track_x, top + down, 3, thumb);
        let thumbed = paint(track, part, clear);
        lemma_painted_size(track, part, clear);
        lemma_paint_pixel(track, part, clear, px, py);
        lemma_paint_pixel(thumbed, mark, tint(accent, 205), px, py);
    } else {
        lemma_paint_pixel(track, mark, tint(accent, 205), px, py);
    }
}

/// Away from the handles the crop darkens what is cropped away and leaves the rest.
pub proof fn lemma_crop_pixel(
    p: Picture,
    height: int,
    slot: Slot,
    v: PreviewViewport,
    top: int,
    bottom: int,
    accent: Seq<u8>,
    px: int,
    py: int,
)
    requires
        p.complete(),
        0 <= px < p.width,
        0 <= py < p.height,
        76 <= slot.width,
        0 < slot.height,
        6 <= slot.y,
        slot.x <= px < slot.x + slot.width,
        slot.y < py < slot.y + slot.height,
        0 < v.source_len,
        v.source_start + v.source_len <= height <= u32::MAX,
        0 <= top,
        0 <= bottom,
        top + bottom < height,
        ({
            let start = v.source_start as int;
            let len = v.source_len as int;
            let upper = slot.y + drawn_row(top, start, len, slot.height as int);
            let lower = slot.y + drawn_row(height - bottom, start, len, slot.height as int);
            (py < upper - 6 || py > upper + 6) && (py < lower - 6 || py > lower + 6)
        }),
    ensures
        ({
            let start = v.source_start as int;
            let len = v.source_len as int;
            let pixel = cropped_over(p, height, slot, v, top, bottom, accent).pixel(px, py);
            let row = py - slot.y;
            let above = row < drawn_row(top, start, len, slot.height as int);
            let below = height - bottom < start + len && row >= drawn_row(
                height - bottom,
                start,
                len,
                slot.height as int,
            );
            pixel == if above || below {
                ink(seq![0u8, 0u8, 0u8, 140u8])
            } else {
                p.pixel(px, py)
            }
        }),
{
    let start = v.source_start as int;
    let len = v.source_len as int;
    let low = height - bottom;
    lemma_crop_possible(height, top, bottom);
    let a = shaded_top(p, slot, v, top);
    let b = shaded_bottom(a, slot, v, low);
    let c = handle_at(b, slot, v, top, accent);
    reveal(paint);
    assert(a.complete() && a.width == p.width && a.height == p.height);
    assert(b.complete() && b.width == p.width && b.height == p.height);
    lemma_top_dark(p, slot, v, top, px, py);
    lemma_bottom_dark(a, slot, v, low, px, py);
    crate::layout::lemma_drawn_in_order(top, low, start, len, slot.height as int);
    crate::layout::lemma_drawn_in_order(low, low, start, len, slot.height as int);
    let upper = slot.y + drawn_row(top, start, len, slot.height as int);
    let lower = slot.y + drawn_row(low, start, len, slot.height as int);
    lemma_handle_pixel(b, slot.x as int, upper, slot.width as int, accent, px, py);
    lemma_handled_size(b, slot.x as int, upper, slot.width as int, accent);
    assert(c.complete() && c.width == p.width && c.height == p.height);
    lemma_handle_pixel(c, slot.x as int, lower, slot.width as int, accent, px, py);
}

proof fn lemma_handled_size(p: Picture, x: int, y: int, width: int, accent: Seq<u8>)
    requires
        p.complete(),
    ensures
        handled(p, x, y, width, accent).complete(),
        handled(p, x, y, width, accent).width == p.width,
        handled(p, x, y, width, accent).height == p.height,
{
    reveal(paint);
    reveal_with_fuel(stroked_rounded, 3);
}

} // verus!
