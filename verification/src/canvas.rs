//! Drawing on a surface of premultiplied pixels whose bytes are blue, green, red and alpha.

use crate::profile::fraction;
use crate::raster::{
    byte_count, lemma_offset_inside, lemma_pixels_determine, same_pixels, Image, Picture,
};
use crate::single::{
    confined, half, lemma_bound_finite, lemma_halves_exact, lemma_halves_nearest, lemma_halves_sum,
    lemma_rounded_at_most, lemma_sum_within, lemma_three_halves, lemma_whole_exact,
    lemma_whole_within, lemma_within_more, limit, magnitude, nearest_integer, one, product,
    quotient, sum, within, Single,
};
use vstd::arithmetic::div_mod::lemma_fundamental_div_mod_converse;
use vstd::arithmetic::power2::{lemma2_to64, lemma_pow2_adds, lemma_pow2_pos, pow2};
use vstd::prelude::*;

verus! {

/// The form of an area inside its bounds.
#[derive(Clone, Copy, Debug, PartialEq, Eq, Structural)]
pub enum Form {
    /// All of it.
    Plain,
    /// All but the corners.
    Rounded,
    /// The rim of what is left without the corners.
    Rim,
}

/// An area to paint: what lies from `left` and `top` up to but without `right` and `bottom`.
pub struct Area {
    pub left: int,
    pub top: int,
    pub right: int,
    pub bottom: int,
    pub form: Form,
    pub radius: int,
}

/// Whether a point lies in a rectangle with rounded corners.
pub open spec fn in_rounded(x: int, y: int, width: int, height: int, radius: int) -> bool {
    let right = if width > radius + 1 {
        width - (radius + 1)
    } else {
        0
    };
    let bottom = if height > radius + 1 {
        height - (radius + 1)
    } else {
        0
    };
    if radius == 0 {
        x < width && y < height
    } else if radius <= x <= right || radius <= y <= bottom {
        true
    } else {
        let dx = if x < radius {
            radius - x
        } else {
            x - right
        };
        let dy = if y < radius {
            radius - y
        } else {
            y - bottom
        };
        dx * dx + dy * dy <= radius * radius
    }
}

/// Whether a point of a rectangle with rounded corners lies on its rim.
pub open spec fn on_rim(x: int, y: int, width: int, height: int, radius: int) -> bool {
    ||| width <= 2
    ||| height <= 2
    ||| x == 0
    ||| y == 0
    ||| x + 1 == width
    ||| y + 1 == height
    ||| !in_rounded(x - 1, y, width, height, radius)
    ||| !in_rounded(x + 1, y, width, height, radius)
    ||| !in_rounded(x, y - 1, width, height, radius)
    ||| !in_rounded(x, y + 1, width, height, radius)
}

impl Area {
    /// A rectangle.
    pub open spec fn plain(x: int, y: int, width: int, height: int) -> Area {
        Area {
            left: x,
            top: y,
            right: x + width,
            bottom: y + height,
            form: Form::Plain,
            radius: 0,
        }
    }

    /// Whether a point belongs to the area.
    pub open spec fn covers(self, x: int, y: int) -> bool {
        let width = self.right - self.left;
        let height = self.bottom - self.top;
        &&& self.left <= x < self.right
        &&& self.top <= y < self.bottom
        &&& self.form != Form::Plain ==> in_rounded(
            x - self.left,
            y - self.top,
            width,
            height,
            self.radius,
        )
        &&& self.form == Form::Rim ==> on_rim(
            x - self.left,
            y - self.top,
            width,
            height,
            self.radius,
        )
    }
}

/// The bytes of a pixel of the given colour.
pub open spec fn ink(rgba: Seq<u8>) -> Seq<u8> {
    seq![
        (rgba[2] as int * rgba[3] as int / 255) as u8,
        (rgba[1] as int * rgba[3] as int / 255) as u8,
        (rgba[0] as int * rgba[3] as int / 255) as u8,
        rgba[3],
    ]
}

/// The colour of an accent with the given alpha.
pub open spec fn tint(accent: Seq<u8>, alpha: u8) -> Seq<u8> {
    seq![accent[0], accent[1], accent[2], alpha]
}

/// A picture with an area painted over.
#[verifier::opaque]
pub open spec fn paint(p: Picture, area: Area, color: Seq<u8>) -> Picture {
    Picture {
        bytes: Seq::new(
            p.bytes.len(),
            |i: int|
                if area.covers((i / 4) % (p.width as int), (i / 4) / (p.width as int)) {
                    ink(color)[i % 4]
                } else {
                    p.bytes[i]
                },
        ),
        ..p
    }
}

/// A picture of the same size on which nothing is drawn.
pub open spec fn cleared(p: Picture) -> Picture {
    Picture { bytes: Seq::new(p.bytes.len(), |i: int| 0u8), ..p }
}

/// Which pixel a byte belongs to.
pub proof fn lemma_byte_of_pixel(width: int, x: int, y: int, k: int)
    requires
        0 <= x < width,
        0 <= y,
        0 <= k < 4,
    ensures
        ({
            let i = y * (width * 4) + x * 4 + k;
            &&& i / 4 == y * width + x
            &&& i % 4 == k
            &&& (i / 4) % width == x
            &&& (i / 4) / width == y
            &&& 0 <= i
        }),
{
    let i = y * (width * 4) + x * 4 + k;
    assert(i == (y * width + x) * 4 + k && 0 <= y * width) by (nonlinear_arith)
        requires
            i == y * (width * 4) + x * 4 + k,
            0 <= y,
            0 <= width,
    ;
    lemma_fundamental_div_mod_converse(i, 4, y * width + x, k);
    lemma_fundamental_div_mod_converse(y * width + x, width, y, x);
}

/// Painting gives the pixels of the area the colour and leaves the others.
pub proof fn lemma_paint_pixel(p: Picture, area: Area, color: Seq<u8>, x: int, y: int)
    requires
        p.complete(),
        0 <= x < p.width,
        0 <= y < p.height,
    ensures
        paint(p, area, color).complete(),
        paint(p, area, color).pixel(x, y) == if area.covers(x, y) {
            ink(color)
        } else {
            p.pixel(x, y)
        },
{
    reveal(paint);
    lemma_offset_inside(p, x, y);
    let after = paint(p, area, color);
    let start = p.offset(x, y);
    assert forall|k: int| 0 <= k < 4 implies #[trigger] after.pixel(x, y)[k] == if area.covers(
        x,
        y,
    ) {
        ink(color)[k]
    } else {
        p.bytes[start + k]
    } by {
        lemma_byte_of_pixel(p.width as int, x, y, k);
        assert(after.pixel(x, y)[k] == after.bytes[start + k]);
    }
    if area.covers(x, y) {
        assert(after.pixel(x, y) =~= ink(color));
    } else {
        assert(after.pixel(x, y) =~= p.pixel(x, y));
    }
}

/// What is painted is determined by the pixels it covers.
proof fn lemma_painted(p: Picture, area: Area, color: Seq<u8>, after: Picture)
    requires
        p.complete(),
        after.complete(),
        after.width == p.width,
        after.height == p.height,
        forall|x: int, y: int|
            0 <= x < p.width && 0 <= y < p.height ==> #[trigger] after.pixel(x, y)
                == if area.covers(x, y) {
                ink(color)
            } else {
                p.pixel(x, y)
            },
    ensures
        after == paint(p, area, color),
{
    let other = paint(p, area, color);
    reveal(paint);
    assert forall|x: int, y: int|
        0 <= x < p.width && 0 <= y < p.height implies #[trigger] after.pixel(x, y) == other.pixel(
        x,
        y,
    ) by {
        lemma_paint_pixel(p, area, color, x, y);
    }
    assert(same_pixels(after, other));
    lemma_pixels_determine(after, other);
}

/// Areas that cover the same pixels of a picture are painted alike.
pub proof fn lemma_paint_alike(p: Picture, a: Area, b: Area, color: Seq<u8>)
    requires
        p.complete(),
        forall|x: int, y: int|
            0 <= x < p.width && 0 <= y < p.height ==> a.covers(x, y) == b.covers(x, y),
    ensures
        paint(p, a, color) == paint(p, b, color),
{
    reveal(paint);
    assert forall|x: int, y: int|
        0 <= x < p.width && 0 <= y < p.height implies #[trigger] paint(p, a, color).pixel(x, y)
        == if b.covers(x, y) {
        ink(color)
    } else {
        p.pixel(x, y)
    } by {
        lemma_paint_pixel(p, a, color, x, y);
    }
    lemma_painted(p, b, color, paint(p, a, color));
}

/// Puts a pixel of the given colour.
pub fn put_argb_pixel(canvas: &mut Image, x: u32, y: u32, rgba: [u8; 4])
    requires
        x < old(canvas)@.width,
        y < old(canvas)@.height,
    ensures
        final(canvas)@.complete(),
        final(canvas)@.width == old(canvas)@.width,
        final(canvas)@.height == old(canvas)@.height,
        final(canvas)@.pixel(x as int, y as int) == ink(rgba@),
        forall|v: int, w: int|
            0 <= v < old(canvas)@.width && 0 <= w < old(canvas)@.height && (v != x || w != y)
                ==> final(canvas)@.pixel(v, w) == old(canvas)@.pixel(v, w),
{
    let alpha: u32 = rgba[3] as u32;
    proof {
        lemma_shaded(rgba[0], rgba[3]);
        lemma_shaded(rgba[1], rgba[3]);
        lemma_shaded(rgba[2], rgba[3]);
    }
    let pixel: [u8; 4] = [
        (rgba[2] as u32 * alpha / 255) as u8,
        (rgba[1] as u32 * alpha / 255) as u8,
        (rgba[0] as u32 * alpha / 255) as u8,
        rgba[3],
    ];
    proof {
        assert(pixel@ =~= ink(rgba@));
    }
    canvas.put_pixel(x, y, pixel);
}

proof fn lemma_shaded(value: u8, alpha: u8)
    ensures
        0 <= value as int * alpha as int <= 65025,
        0 <= value as int * alpha as int / 255 <= 255,
{
    assert(0 <= value as int * alpha as int <= 255 * 255) by (nonlinear_arith)
        requires
            0 <= value <= 255,
            0 <= alpha <= 255,
    ;
}

/// Puts a pixel of the given colour where the point lies on the canvas.
pub fn put_argb_pixel_checked(canvas: &mut Image, x: i64, y: i64, rgba: [u8; 4])
    requires
        old(canvas)@.complete(),
    ensures
        final(canvas)@ == paint(old(canvas)@, Area::plain(x as int, y as int, 1, 1), rgba@),
        final(canvas)@.complete(),
{
    let ghost before = canvas@;
    let ghost area = Area::plain(x as int, y as int, 1, 1);
    if 0 <= x && x < canvas.width() as i64 && 0 <= y && y < canvas.height() as i64 {
        put_argb_pixel(canvas, x as u32, y as u32, rgba);
    }
    proof {
        lemma_painted(before, area, rgba@, canvas@);
    }
}

/// Whether a point lies in a rectangle with rounded corners.
pub fn rounded_rect_contains(x: u32, y: u32, width: u32, height: u32, radius: u32) -> (inside: bool)
    requires
        x <= width,
        y <= height,
        2 * radius <= width,
        2 * radius <= height,
    ensures
        inside == in_rounded(x as int, y as int, width as int, height as int, radius as int),
{
    if radius == 0 {
        return x < width && y < height;
    }
    let right: u32 = if width > radius + 1 {
        width - (radius + 1)
    } else {
        0
    };
    let bottom: u32 = if height > radius + 1 {
        height - (radius + 1)
    } else {
        0
    };
    if (radius <= x && x <= right) || (radius <= y && y <= bottom) {
        return true;
    }
    let dx: u64 = if x < radius {
        (radius - x) as u64
    } else {
        (x - right) as u64
    };
    let dy: u64 = if y < radius {
        (radius - y) as u64
    } else {
        (y - bottom) as u64
    };
    let reach: u64 = radius as u64;
    proof {
        assert(dx * dx <= 0x8000_0001 * 0x8000_0001) by (nonlinear_arith)
            requires
                0 <= dx <= 0x8000_0001,
        ;
        assert(dy * dy <= 0x8000_0001 * 0x8000_0001) by (nonlinear_arith)
            requires
                0 <= dy <= 0x8000_0001,
        ;
        assert(reach * reach <= 0x8000_0001 * 0x8000_0001) by (nonlinear_arith)
            requires
                0 <= reach <= 0x8000_0001,
        ;
    }
    dx * dx + dy * dy <= reach * reach
}

/// Whether a point of a rectangle with rounded corners lies on its rim.
pub fn is_rounded_rect_edge(x: u32, y: u32, width: u32, height: u32, radius: u32) -> (edge: bool)
    requires
        x < width,
        y < height,
        2 * radius <= width,
        2 * radius <= height,
    ensures
        edge == on_rim(x as int, y as int, width as int, height as int, radius as int),
{
    if width <= 2 || height <= 2 {
        return true;
    }
    x == 0 || y == 0 || x + 1 == width || y + 1 == height || !rounded_rect_contains(
        x - 1,
        y,
        width,
        height,
        radius,
    ) || !rounded_rect_contains(x + 1, y, width, height, radius) || !rounded_rect_contains(
        x,
        y - 1,
        width,
        height,
        radius,
    ) || !rounded_rect_contains(x, y + 1, width, height, radius)
}

/// Paints an area, of which `right` and `bottom` may lie beyond the canvas.
fn fill_area(
    canvas: &mut Image,
    left: u32,
    top: u32,
    right: u64,
    bottom: u64,
    form: Form,
    radius: u32,
    rgba: [u8; 4],
)
    requires
        old(canvas)@.complete(),
        left <= right <= left + u32::MAX,
        top <= bottom <= top + u32::MAX,
        2 * radius <= right - left,
        2 * radius <= bottom - top,
    ensures
        final(canvas)@ == paint(
            old(canvas)@,
            Area {
                left: left as int,
                top: top as int,
                right: right as int,
                bottom: bottom as int,
                form,
                radius: radius as int,
            },
            rgba@,
        ),
        final(canvas)@.complete(),
{
    let ghost before = canvas@;
    let ghost area = Area {
        left: left as int,
        top: top as int,
        right: right as int,
        bottom: bottom as int,
        form,
        radius: radius as int,
    };
    let end_x: u32 = if right < canvas.width() as u64 {
        right as u32
    } else {
        canvas.width()
    };
    let end_y: u32 = if bottom < canvas.height() as u64 {
        bottom as u32
    } else {
        canvas.height()
    };
    let mut py: u32 = top;
    while py < end_y
        invariant
            top <= py,
            py <= end_y || py == top,
            left <= right <= left + u32::MAX,
            top <= bottom <= top + u32::MAX,
            end_x <= right,
            end_y <= bottom,
            end_x <= before.width,
            end_y <= before.height,
            end_x == right || end_x == before.width,
            end_y == bottom || end_y == before.height,
            2 * radius <= right - left,
            2 * radius <= bottom - top,
            area == (Area {
                left: left as int,
                top: top as int,
                right: right as int,
                bottom: bottom as int,
                form,
                radius: radius as int,
            }),
            canvas@.complete(),
            canvas@.width == before.width,
            canvas@.height == before.height,
            forall|x: int, y: int|
                0 <= x < before.width && 0 <= y < before.height ==> #[trigger] canvas@.pixel(x, y)
                    == if area.covers(x, y) && y < py {
                    ink(rgba@)
                } else {
                    before.pixel(x, y)
                },
        decreases end_y - py,
    {
        let mut px: u32 = left;
        while px < end_x
            invariant
                top <= py < end_y,
                left <= px,
                px <= end_x || px == left,
                left <= right <= left + u32::MAX,
                top <= bottom <= top + u32::MAX,
                end_x <= right,
                end_y <= bottom,
                end_x <= before.width,
                end_y <= before.height,
                end_x == right || end_x == before.width,
                2 * radius <= right - left,
                2 * radius <= bottom - top,
                area == (Area {
                    left: left as int,
                    top: top as int,
                    right: right as int,
                    bottom: bottom as int,
                    form,
                    radius: radius as int,
                }),
                canvas@.complete(),
                canvas@.width == before.width,
                canvas@.height == before.height,
                forall|x: int, y: int|
                    0 <= x < before.width && 0 <= y < before.height ==> #[trigger] canvas@.pixel(
                        x,
                        y,
                    ) == if area.covers(x, y) && (y < py || (y == py && x < px)) {
                        ink(rgba@)
                    } else {
                        before.pixel(x, y)
                    },
            decreases end_x - px,
        {
            let x: u32 = px - left;
            let y: u32 = py - top;
            let width: u32 = (right - left as u64) as u32;
            let height: u32 = (bottom - top as u64) as u32;
            let covered: bool = match form {
                Form::Plain => true,
                Form::Rounded => rounded_rect_contains(x, y, width, height, radius),
                Form::Rim => rounded_rect_contains(x, y, width, height, radius)
                    && is_rounded_rect_edge(x, y, width, height, radius),
            };
            if covered {
                put_argb_pixel(canvas, px, py, rgba);
            }
            px += 1;
        }
        py += 1;
    }
    proof {
        lemma_painted(before, area, rgba@, canvas@);
    }
}

/// Paints a rectangle.
pub fn fill_rect(canvas: &mut Image, x: u32, y: u32, width: u32, height: u32, rgba: [u8; 4])
    requires
        old(canvas)@.complete(),
        x + width <= u32::MAX,
        y + height <= u32::MAX,
    ensures
        final(canvas)@ == paint(
            old(canvas)@,
            Area::plain(x as int, y as int, width as int, height as int),
            rgba@,
        ),
        final(canvas)@.complete(),
{
    let right: u64 = x as u64 + width as u64;
    let bottom: u64 = y as u64 + height as u64;
    fill_area(canvas, x, y, right, bottom, Form::Plain, 0, rgba);
}

/// The radius that the corners of a rectangle can have.
pub open spec fn fitting_radius(radius: int, width: int, height: int) -> int {
    let narrow = if radius < width / 2 {
        radius
    } else {
        width / 2
    };
    if narrow < height / 2 {
        narrow
    } else {
        height / 2
    }
}

fn fitted(radius: u32, width: u32, height: u32) -> (result: u32)
    ensures
        result == fitting_radius(radius as int, width as int, height as int),
        2 * result <= width,
        2 * result <= height,
{
    let narrow: u32 = if radius < width / 2 {
        radius
    } else {
        width / 2
    };
    if narrow < height / 2 {
        narrow
    } else {
        height / 2
    }
}

/// A rectangle with rounded corners, or its rim.
pub open spec fn rounded_area(
    x: int,
    y: int,
    width: int,
    height: int,
    radius: int,
    form: Form,
) -> Area {
    Area {
        left: x,
        top: y,
        right: x + width,
        bottom: y + height,
        form,
        radius: fitting_radius(radius, width, height),
    }
}

/// Paints a rectangle with rounded corners.
pub fn fill_rounded_rect(
    canvas: &mut Image,
    x: u32,
    y: u32,
    width: u32,
    height: u32,
    radius: u32,
    rgba: [u8; 4],
)
    requires
        old(canvas)@.complete(),
    ensures
        final(canvas)@ == paint(
            old(canvas)@,
            rounded_area(
                x as int,
                y as int,
                width as int,
                height as int,
                radius as int,
                Form::Rounded,
            ),
            rgba@,
        ),
        final(canvas)@.complete(),
{
    let radius: u32 = fitted(radius, width, height);
    let right: u64 = x as u64 + width as u64;
    let bottom: u64 = y as u64 + height as u64;
    fill_area(canvas, x, y, right, bottom, Form::Rounded, radius, rgba);
}

/// Paints the rim of a rectangle with rounded corners.
pub fn draw_rounded_rect_outline(
    canvas: &mut Image,
    x: u32,
    y: u32,
    width: u32,
    height: u32,
    radius: u32,
    rgba: [u8; 4],
)
    requires
        old(canvas)@.complete(),
    ensures
        final(canvas)@ == paint(
            old(canvas)@,
            rounded_area(
                x as int,
                y as int,
                width as int,
                height as int,
                radius as int,
                Form::Rim,
            ),
            rgba@,
        ),
        final(canvas)@.complete(),
{
    let radius: u32 = fitted(radius, width, height);
    let right: u64 = x as u64 + width as u64;
    let bottom: u64 = y as u64 + height as u64;
    fill_area(canvas, x, y, right, bottom, Form::Rim, radius, rgba);
}

/// A picture with the outermost rims of a rectangle with rounded corners painted.
pub open spec fn stroked_rounded(
    p: Picture,
    x: int,
    y: int,
    width: int,
    height: int,
    rims: nat,
    radius: int,
    color: Seq<u8>,
) -> Picture
    decreases rims,
{
    if rims == 0 {
        p
    } else {
        let inset = rims - 1;
        let outer = stroked_rounded(p, x, y, width, height, (rims - 1) as nat, radius, color);
        if width <= 2 * inset || height <= 2 * inset {
            outer
        } else {
            paint(
                outer,
                rounded_area(
                    x + inset,
                    y + inset,
                    width - 2 * inset,
                    height - 2 * inset,
                    if radius > inset {
                        radius - inset
                    } else {
                        0
                    },
                    Form::Rim,
                ),
                color,
            )
        }
    }
}

proof fn lemma_no_rims_left(
    p: Picture,
    x: int,
    y: int,
    width: int,
    height: int,
    some: nat,
    rims: nat,
    radius: int,
    color: Seq<u8>,
)
    requires
        some <= rims,
        width <= 2 * some || height <= 2 * some,
    ensures
        stroked_rounded(p, x, y, width, height, rims, radius, color) == stroked_rounded(
            p,
            x,
            y,
            width,
            height,
            some,
            radius,
            color,
        ),
    decreases rims,
{
    if some < rims {
        lemma_no_rims_left(p, x, y, width, height, some, (rims - 1) as nat, radius, color);
    }
}

/// Whether a line reaches the rim of a rectangle that lies `inset` pixels inside it.
pub open spec fn rim_drawn(inset: int, width: int, height: int, line_width: int) -> bool {
    &&& 0 <= inset
    &&& inset < line_width || inset == 0
    &&& 2 * inset < width
    &&& 2 * inset < height
}

/// Whether the place at which each rim starts can be counted.
pub open spec fn rims_start(x: int, y: int, width: int, height: int, line_width: int) -> bool {
    forall|inset: int| #[trigger]
        rim_drawn(inset, width, height, line_width) ==> x + inset <= u32::MAX && y + inset
            <= u32::MAX
}

/// Paints the outermost rims of a rectangle with rounded corners, as many as the line is
/// wide.
pub fn stroke_rounded_rect(
    canvas: &mut Image,
    x: u32,
    y: u32,
    width: u32,
    height: u32,
    line_width: u32,
    radius: u32,
    rgba: [u8; 4],
)
    requires
        old(canvas)@.complete(),
        rims_start(x as int, y as int, width as int, height as int, line_width as int),
    ensures
        final(canvas)@ == stroked_rounded(
            old(canvas)@,
            x as int,
            y as int,
            width as int,
            height as int,
            if line_width > 1 {
                line_width as nat
            } else {
                1
            },
            radius as int,
            rgba@,
        ),
        final(canvas)@.complete(),
{
    let ghost before = canvas@;
    let rims: u32 = if line_width > 1 {
        line_width
    } else {
        1
    };
    let mut inset: u32 = 0;
    while inset < rims && inset < width - inset && inset < height - inset
        invariant
            before.complete(),
            canvas@.complete(),
            rims_start(x as int, y as int, width as int, height as int, line_width as int),
            rims == if line_width > 1 {
                line_width
            } else {
                1
            },
            inset <= rims,
            inset <= width,
            inset <= height,
            canvas@ == stroked_rounded(
                before,
                x as int,
                y as int,
                width as int,
                height as int,
                inset as nat,
                radius as int,
                rgba@,
            ),
        decreases rims - inset,
    {
        assert(rim_drawn(inset as int, width as int, height as int, line_width as int));
        draw_rounded_rect_outline(
            canvas,
            x + inset,
            y + inset,
            width - inset - inset,
            height - inset - inset,
            if radius > inset {
                radius - inset
            } else {
                0
            },
            rgba,
        );
        inset += 1;
    }
    proof {
        if inset < rims {
            lemma_no_rims_left(
                before,
                x as int,
                y as int,
                width as int,
                height as int,
                inset as nat,
                rims as nat,
                radius as int,
                rgba@,
            );
        }
    }
}

/// The pixel nearest to a coordinate.
pub open spec fn snapped(n: int) -> int {
    confined(nearest_integer(n), i32::MIN as int, i32::MAX as int)
}

/// What a line covers: its thickness is even on both sides, and only lines along the axes
/// cover anything.
#[verifier::opaque]
pub open spec fn line_area(x0: int, y0: int, x1: int, y1: int, line_width: int) -> Area {
    let radius = line_width / 2;
    let hair = fraction(1, 1000);
    if magnitude(sum(x0, -x1)) < hair {
        let (low, high) = if y1 < y0 {
            (y1, y0)
        } else {
            (y0, y1)
        };
        Area {
            left: snapped(x0) - radius,
            right: snapped(x0) + radius + 1,
            top: snapped(low),
            bottom: snapped(high) + 1,
            form: Form::Plain,
            radius: 0,
        }
    } else if magnitude(sum(y0, -y1)) < hair {
        let (low, high) = if x1 < x0 {
            (x1, x0)
        } else {
            (x0, x1)
        };
        Area {
            left: snapped(low),
            right: snapped(high) + 1,
            top: snapped(y0) - radius,
            bottom: snapped(y0) + radius + 1,
            form: Form::Plain,
            radius: 0,
        }
    } else {
        Area::plain(0, 0, 0, 0)
    }
}

fn fill_clipped(canvas: &mut Image, left: i64, top: i64, right: i64, bottom: i64, rgba: [u8; 4])
    requires
        old(canvas)@.complete(),
    ensures
        final(canvas)@ == paint(
            old(canvas)@,
            Area {
                left: left as int,
                top: top as int,
                right: right as int,
                bottom: bottom as int,
                form: Form::Plain,
                radius: 0,
            },
            rgba@,
        ),
        final(canvas)@.complete(),
{
    let ghost before = canvas@;
    let width: i64 = canvas.width() as i64;
    let height: i64 = canvas.height() as i64;
    let l: i64 = if left < 0 {
        0
    } else if left > width {
        width
    } else {
        left
    };
    let r: i64 = if right < l {
        l
    } else if right > width {
        width
    } else {
        right
    };
    let t: i64 = if top < 0 {
        0
    } else if top > height {
        height
    } else {
        top
    };
    let b: i64 = if bottom < t {
        t
    } else if bottom > height {
        height
    } else {
        bottom
    };
    fill_area(canvas, l as u32, t as u32, r as u64, b as u64, Form::Plain, 0, rgba);
    proof {
        let clipped = Area {
            left: l as int,
            top: t as int,
            right: r as int,
            bottom: b as int,
            form: Form::Plain,
            radius: 0,
        };
        let whole = Area {
            left: left as int,
            top: top as int,
            right: right as int,
            bottom: bottom as int,
            form: Form::Plain,
            radius: 0,
        };
        lemma_paint_alike(before, clipped, whole, rgba@);
    }
}

/// Draws a line along an axis.
pub fn stroke_line(
    canvas: &mut Image,
    x0: Single,
    y0: Single,
    x1: Single,
    y1: Single,
    line_width: u32,
    rgba: [u8; 4],
)
    requires
        old(canvas)@.complete(),
        x0.is_finite(),
        x1.is_finite(),
        y0.is_finite(),
        y1.is_finite(),
        line_width <= i32::MAX,
    ensures
        final(canvas)@ == paint(
            old(canvas)@,
            line_area(x0.units(), y0.units(), x1.units(), y1.units(), line_width as int),
            rgba@,
        ),
        final(canvas)@.complete(),
{
    proof {
        reveal(line_area);
    }
    let hair = Single::ratio(1, 1000);
    let radius: i64 = (line_width / 2) as i64;
    let least: i64 = i32::MIN as i64;
    let most: i64 = i32::MAX as i64;
    if x0.minus(x1).absolute().below(hair) {
        let x: i64 = x0.round_within(least, most);
        let start: i64 = y0.lesser(y1).round_within(least, most);
        let end: i64 = y0.greater(y1).round_within(least, most);
        fill_clipped(canvas, x - radius, start, x + radius + 1, end + 1, rgba);
    } else if y0.minus(y1).absolute().below(hair) {
        let y: i64 = y0.round_within(least, most);
        let start: i64 = x0.lesser(x1).round_within(least, most);
        let end: i64 = x0.greater(x1).round_within(least, most);
        fill_clipped(canvas, start, y - radius, end + 1, y + radius + 1, rgba);
    } else {
        let _ = canvas.width();
        proof {
            lemma_painted(canvas@, Area::plain(0, 0, 0, 0), rgba@, canvas@);
        }
    }
}

/// A picture with the sides of a rectangle drawn.
pub open spec fn stroked_rect(
    p: Picture,
    x: int,
    y: int,
    w: int,
    h: int,
    line_width: int,
    color: Seq<u8>,
) -> Picture {
    let right = sum(x, w);
    let low = sum(y, h);
    let upper = paint(p, line_area(x, y, right, y, line_width), color);
    let sided = paint(upper, line_area(right, y, right, low, line_width), color);
    let lower = paint(sided, line_area(right, low, x, low, line_width), color);
    paint(lower, line_area(x, low, x, y, line_width), color)
}

/// Draws the sides of a rectangle.
pub fn stroke_rect(
    canvas: &mut Image,
    x: Single,
    y: Single,
    w: Single,
    h: Single,
    line_width: u32,
    rgba: [u8; 4],
)
    requires
        old(canvas)@.complete(),
        within(x.units(), 200),
        within(y.units(), 200),
        within(w.units(), 200),
        within(h.units(), 200),
        line_width <= i32::MAX,
    ensures
        final(canvas)@ == stroked_rect(
            old(canvas)@,
            x.units(),
            y.units(),
            w.units(),
            h.units(),
            line_width as int,
            rgba@,
        ),
        final(canvas)@.complete(),
{
    proof {
        lemma_sum_within(x.units(), w.units(), 200);
        lemma_sum_within(y.units(), h.units(), 200);
    }
    let right = x.plus(w);
    let low = y.plus(h);
    stroke_line(canvas, x, y, right, y, line_width, rgba);
    stroke_line(canvas, right, y, right, low, line_width, rgba);
    stroke_line(canvas, right, low, x, low, line_width, rgba);
    stroke_line(canvas, x, low, x, y, line_width, rgba);
}

/// The measures of the box around a region: where it starts, how large it is, and how long
/// the strokes at its corners are.
pub struct Frame {
    pub x: int,
    pub y: int,
    pub width: int,
    pub height: int,
    pub corner: int,
}

/// The frame two pixels outside a region.
#[verifier::opaque]
pub open spec fn frame_around(x: int, y: int, width: int, height: int) -> Frame {
    let gap = fraction(2, 1);
    let margin = product(gap, fraction(2, 1));
    let w = sum(fraction(width as nat, 1), margin);
    let h = sum(fraction(height as nat, 1), margin);
    let longest = fraction(20, 1);
    let quarter = quotient(w, fraction(4, 1));
    let other = quotient(h, fraction(4, 1));
    let shorter = if quarter < longest {
        quarter
    } else {
        longest
    };
    Frame {
        x: sum(fraction(x as nat, 1), -gap),
        y: sum(fraction(y as nat, 1), -gap),
        width: w,
        height: h,
        corner: if other < shorter {
            other
        } else {
            shorter
        },
    }
}

/// The faint sides of the box.
pub open spec fn faint_sides(p: Picture, frame: Frame, accent: Seq<u8>) -> Picture {
    let step = fraction(1, 1);
    stroked_rect(
        p,
        sum(frame.x, -step),
        sum(frame.y, -step),
        sum(frame.width, fraction(2, 1)),
        sum(frame.height, fraction(2, 1)),
        2,
        tint(accent, 77),
    )
}

/// The eight strokes at the corners of the box.
pub open spec fn corner_strokes(frame: Frame) -> Seq<Area> {
    let shift = fraction(3, 2);
    let extra = fraction(3, 1);
    let x = sum(frame.x, -shift);
    let y = sum(frame.y, -shift);
    let right = sum(x, sum(frame.width, extra));
    let low = sum(y, sum(frame.height, extra));
    let len = frame.corner;
    seq![
        line_area(x, sum(y, len), x, y, 3),
        line_area(x, y, sum(x, len), y, 3),
        line_area(sum(right, -len), y, right, y, 3),
        line_area(right, y, right, sum(y, len), 3),
        line_area(right, sum(low, -len), right, low, 3),
        line_area(right, low, sum(right, -len), low, 3),
        line_area(sum(x, len), low, x, low, 3),
        line_area(x, low, x, sum(low, -len), 3),
    ]
}

/// A picture with areas painted one after the other in one colour.
pub open spec fn paint_all(p: Picture, areas: Seq<Area>, color: Seq<u8>) -> Picture
    decreases areas.len(),
{
    if areas.len() == 0 {
        p
    } else {
        paint(paint_all(p, areas.drop_last(), color), areas.last(), color)
    }
}

/// The box drawn around a region on an empty canvas.
pub open spec fn boxed(
    p: Picture,
    x: int,
    y: int,
    width: int,
    height: int,
    accent: Seq<u8>,
) -> Picture {
    let frame = frame_around(x, y, width, height);
    paint_all(
        faint_sides(cleared(p), frame, accent),
        corner_strokes(frame),
        tint(accent, 255),
    )
}

/// A colour with the given alpha.
pub fn tinted(accent: [u8; 3], alpha: u8) -> (rgba: [u8; 4])
    ensures
        rgba@ == tint(accent@, alpha),
{
    let rgba: [u8; 4] = [accent[0], accent[1], accent[2], alpha];
    proof {
        assert(rgba@ =~= tint(accent@, alpha));
    }
    rgba
}

/// Clears the canvas.
pub fn clear(canvas: &mut Image)
    ensures
        final(canvas)@ == cleared(old(canvas)@),
        final(canvas)@.complete(),
{
    let width: u32 = canvas.width();
    let height: u32 = canvas.height();
    let length: usize = canvas.as_raw().len();
    proof {
        assert(byte_count(width as int, height as int) == length);
    }
    let empty = Image::new(width, height);
    proof {
        assert(empty@.bytes =~= cleared(canvas@).bytes);
    }
    *canvas = empty;
}

/// The measures of the box around a region.
struct Measures {
    x: Single,
    y: Single,
    width: Single,
    height: Single,
    corner: Single,
}

impl Measures {
    spec fn frame(&self) -> Frame {
        Frame {
            x: self.x.units(),
            y: self.y.units(),
            width: self.width.units(),
            height: self.height.units(),
            corner: self.corner.units(),
        }
    }

    spec fn bounded(&self) -> bool {
        &&& within(self.x.units(), 183)
        &&& within(self.y.units(), 183)
        &&& within(self.width.units(), 183)
        &&& within(self.height.units(), 183)
        &&& within(self.corner.units(), 183)
    }
}

proof fn lemma_frame_bounded(x: u32, y: u32, width: u32, height: u32)
    ensures
        ({
            let frame = frame_around(x as int, y as int, width as int, height as int);
            &&& within(frame.x, 183)
            &&& within(frame.y, 183)
            &&& within(frame.width, 183)
            &&& within(frame.height, 183)
            &&& within(frame.corner, 181)
        }),
        fraction(2, 1) == 2 * one(),
        fraction(4, 1) == 4 * one(),
        0 < 4 * one() < limit(),
        product(fraction(2, 1), fraction(2, 1)) == 4 * one(),
        pow2(183) < limit(),
{
    reveal(frame_around);
    lemma_whole_within(x as nat);
    lemma_whole_within(y as nat);
    lemma_whole_within(width as nat);
    lemma_whole_within(height as nat);
    lemma_whole_within(20);
    lemma_whole_exact(2);
    lemma_whole_exact(4);
    lemma_whole_within(2);
    lemma_whole_within(4);
    lemma_pow2_pos(149);
    lemma_bound_finite(1, 183);
    lemma_bound_finite(1, 181);
    assert(1 * pow2(183) == pow2(183));
    assert(1 * pow2(181) == pow2(181));
    let unit: nat = one();
    assert((2 * unit) * (2 * unit) == (4 * unit) * unit) by (nonlinear_arith);
    crate::single::lemma_scaled_exact(4);
    assert(product(fraction(2, 1), fraction(2, 1)) == 4 * one());
    let gap = fraction(2, 1);
    let margin = product(gap, fraction(2, 1));
    lemma_sum_within(fraction(x as nat, 1), -gap, 181);
    lemma_sum_within(fraction(y as nat, 1), -gap, 181);
    lemma_sum_within(fraction(width as nat, 1), margin, 181);
    lemma_sum_within(fraction(height as nat, 1), margin, 181);
    let frame = frame_around(x as int, y as int, width as int, height as int);
    lemma_within_more(frame.x, 182, 183);
    lemma_within_more(frame.y, 182, 183);
    lemma_within_more(frame.width, 182, 183);
    lemma_within_more(frame.height, 182, 183);
    crate::single::lemma_sum_not_negative(fraction(width as nat, 1), margin);
    crate::single::lemma_sum_not_negative(fraction(height as nat, 1), margin);
    crate::single::lemma_quotient_not_negative(frame.width, fraction(4, 1));
    crate::single::lemma_quotient_not_negative(frame.height, fraction(4, 1));
}

fn measure(x: u32, y: u32, width: u32, height: u32) -> (measures: Measures)
    ensures
        measures.frame() == frame_around(x as int, y as int, width as int, height as int),
        measures.bounded(),
{
    proof {
        reveal(frame_around);
        lemma_frame_bounded(x, y, width, height);
        lemma_bound_finite(1, 181);
        assert(1 * pow2(181) == pow2(181));
        lemma_whole_within(x as nat);
        lemma_whole_within(y as nat);
        lemma_whole_within(width as nat);
        lemma_whole_within(height as nat);
        lemma_within_more(
            frame_around(x as int, y as int, width as int, height as int).corner,
            181,
            183,
        );
    }
    let gap = Single::whole(2);
    let four = Single::whole(4);
    let margin = gap.times(Single::whole(2));
    let w = Single::whole(width as u64).plus(margin);
    let h = Single::whole(height as u64).plus(margin);
    Measures {
        x: Single::whole(x as u64).minus(gap),
        y: Single::whole(y as u64).minus(gap),
        width: w,
        height: h,
        corner: Single::whole(20).lesser(w.over(four)).lesser(h.over(four)),
    }
}

/// Draws the faint sides of the box.
fn draw_sides(canvas: &mut Image, m: &Measures, accent: [u8; 3])
    requires
        old(canvas)@.complete(),
        m.bounded(),
    ensures
        final(canvas)@ == faint_sides(old(canvas)@, m.frame(), accent@),
        final(canvas)@.complete(),
{
    let step = Single::whole(1);
    let two = Single::whole(2);
    proof {
        lemma_small_bounded();
        lemma_sum_within(m.x.units(), -step.units(), 183);
        lemma_sum_within(m.y.units(), -step.units(), 183);
        lemma_sum_within(m.width.units(), two.units(), 183);
        lemma_sum_within(m.height.units(), two.units(), 183);
        lemma_within_more(sum(m.x.units(), -step.units()), 184, 200);
        lemma_within_more(sum(m.y.units(), -step.units()), 184, 200);
        lemma_within_more(sum(m.width.units(), two.units()), 184, 200);
        lemma_within_more(sum(m.height.units(), two.units()), 184, 200);
    }
    stroke_rect(
        canvas,
        m.x.minus(step),
        m.y.minus(step),
        m.width.plus(two),
        m.height.plus(two),
        2,
        tinted(accent, 77),
    );
}

/// Draws the strokes at the corners of the box.
fn draw_corners(canvas: &mut Image, m: &Measures, color: [u8; 4])
    requires
        old(canvas)@.complete(),
        m.bounded(),
    ensures
        final(canvas)@ == paint_all(old(canvas)@, corner_strokes(m.frame()), color@),
        final(canvas)@.complete(),
{
    let ghost base = canvas@;
    let shift = Single::ratio(3, 2);
    let extra = Single::whole(3);
    proof {
        lemma_small_bounded();
        lemma_sum_within(m.x.units(), -shift.units(), 183);
        lemma_sum_within(m.y.units(), -shift.units(), 183);
        lemma_sum_within(m.width.units(), extra.units(), 183);
        lemma_sum_within(m.height.units(), extra.units(), 183);
    }
    let bx = m.x.minus(shift);
    let by = m.y.minus(shift);
    let bw = m.width.plus(extra);
    let bh = m.height.plus(extra);
    proof {
        lemma_sum_within(bx.units(), bw.units(), 184);
        lemma_sum_within(by.units(), bh.units(), 184);
    }
    let right = bx.plus(bw);
    let low = by.plus(bh);
    let len = m.corner;
    proof {
        lemma_within_more(len.units(), 183, 185);
        lemma_within_more(bx.units(), 184, 185);
        lemma_within_more(by.units(), 184, 185);
        lemma_sum_within(bx.units(), len.units(), 185);
        lemma_sum_within(by.units(), len.units(), 185);
        lemma_sum_within(right.units(), -len.units(), 185);
        lemma_sum_within(low.units(), -len.units(), 185);
    }
    let past_x = bx.plus(len);
    let past_y = by.plus(len);
    let before_right = right.minus(len);
    let before_low = low.minus(len);
    stroke_line(canvas, bx, past_y, bx, by, 3, color);
    stroke_line(canvas, bx, by, past_x, by, 3, color);
    stroke_line(canvas, before_right, by, right, by, 3, color);
    stroke_line(canvas, right, by, right, past_y, 3, color);
    stroke_line(canvas, right, before_low, right, low, 3, color);
    stroke_line(canvas, right, low, before_right, low, 3, color);
    stroke_line(canvas, past_x, low, bx, low, 3, color);
    stroke_line(canvas, bx, low, bx, before_low, 3, color);
    proof {
        let strokes = corner_strokes(m.frame());
        assert(strokes.len() == 8);
        lemma_eight(base, strokes, color@);
    }
}

/// Draws the box around a region on an emptied canvas.
pub fn draw_box(canvas: &mut Image, x: u32, y: u32, width: u32, height: u32, accent: [u8; 3])
    ensures
        final(canvas)@ == boxed(
            old(canvas)@,
            x as int,
            y as int,
            width as int,
            height as int,
            accent@,
        ),
        final(canvas)@.complete(),
{
    clear(canvas);
    let m = measure(x, y, width, height);
    draw_sides(canvas, &m, accent);
    draw_corners(canvas, &m, tinted(accent, 255));
}

proof fn lemma_small_bounded()
    ensures
        within(fraction(1, 1), 183),
        within(-fraction(1, 1), 183),
        within(fraction(2, 1), 183),
        within(fraction(3, 1), 183),
        within(fraction(3, 2), 183),
        within(-fraction(3, 2), 183),
{
    lemma_whole_within(1);
    lemma_whole_within(2);
    lemma_whole_within(3);
    lemma_within_more(fraction(1, 1), 181, 183);
    lemma_within_more(fraction(2, 1), 181, 183);
    lemma_within_more(fraction(3, 1), 181, 183);
    lemma2_to64();
    lemma_pow2_adds(32, 149);
    let unit: nat = one();
    let top: nat = pow2(181);
    assert(3 * unit <= (1 * top) * 2) by (nonlinear_arith)
        requires
            top == 0x1_0000_0000 * unit,
    ;
    assert(1 * pow2(181) == pow2(181));
    lemma_rounded_at_most((3 * unit) as nat, 2, 1, 181);
    lemma_within_more(fraction(3, 2), 181, 183);
}

proof fn lemma_eight(base: Picture, a: Seq<Area>, color: Seq<u8>)
    requires
        a.len() == 8,
    ensures
        paint_all(base, a, color) == paint(
            paint(
                paint(
                    paint(
                        paint(
                            paint(
                                paint(paint(base, a[0], color), a[1], color),
                                a[2],
                                color,
                            ),
                            a[3],
                            color,
                        ),
                        a[4],
                        color,
                    ),
                    a[5],
                    color,
                ),
                a[6],
                color,
            ),
            a[7],
            color,
        ),
{
    reveal_with_fuel(paint_all, 9);
}

/// A line that keeps its column covers no pixel farther from it than its thickness reaches.
proof fn lemma_upright(x: int, y0: int, y1: int, line_width: int, px: int, py: int)
    requires
        0 <= line_width,
        line_area(x, y0, x, y1, line_width).covers(px, py),
    ensures
        snapped(x) - line_width / 2 <= px <= snapped(x) + line_width / 2,
{
    reveal(line_area);
}

/// A line that keeps its row covers no pixel farther from it than its thickness reaches.
proof fn lemma_level(x0: int, x1: int, y: int, line_width: int, px: int, py: int)
    requires
        0 <= line_width,
        line_area(x0, y, x1, y, line_width).covers(px, py),
    ensures
        snapped(y) - line_width / 2 <= py <= snapped(y) + line_width / 2,
{
    reveal(line_area);
}

/// Where the sides of the box and the strokes at its corners lie along one axis, counted in
/// halves.
#[verifier::spinoff_prover]
#[verifier::rlimit(100)]
proof fn lemma_around(start: int, length: int)
    requires
        0 <= start,
        1 <= length,
        start + length + 8 <= 0x80_0000,
    ensures
        ({
            let outer = sum(fraction(start as nat, 1), -fraction(2, 1));
            let size = sum(
                fraction(length as nat, 1),
                product(fraction(2, 1), fraction(2, 1)),
            );
            let side = sum(outer, -fraction(1, 1));
            let corner = sum(outer, -fraction(3, 2));
            &&& snapped(side) == start - 3
            &&& snapped(sum(side, sum(size, fraction(2, 1)))) == start + length + 3
            &&& start - 4 <= snapped(corner) <= start - 3
            &&& snapped(sum(corner, sum(size, fraction(3, 1)))) == start + length + 4
        }),
{
    let h = half() as int;
    lemma_halves_exact(1);
    lemma_whole_exact(start as nat);
    lemma_whole_exact(length as nat);
    lemma_whole_exact(1);
    lemma_whole_exact(2);
    lemma_whole_exact(3);
    lemma_three_halves();
    lemma_frame_bounded(0, 0, 0, 0);
    assert(start * (2 * h) == (2 * start) * h && length * (2 * h) == (2 * length) * h)
        by (nonlinear_arith);
    assert(-(4 * h) == (-4) * h && -(2 * h) == (-2) * h && -(3 * h) == (-3) * h);
    lemma_halves_sum(2 * start, -4);
    lemma_halves_sum(2 * length, 8);
    lemma_halves_sum(2 * start - 4, -2);
    lemma_halves_sum(2 * start - 4, -3);
    lemma_halves_sum(2 * length + 8, 4);
    lemma_halves_sum(2 * length + 8, 6);
    lemma_halves_sum(2 * start - 6, 2 * length + 12);
    lemma_halves_sum(2 * start - 7, 2 * length + 14);
    lemma_halves_nearest(2 * start - 6);
    lemma_halves_nearest(2 * start - 7);
    lemma_halves_nearest(2 * start + 2 * length + 6);
    lemma_halves_nearest(2 * start + 2 * length + 7);
}

/// A pixel that no area covers keeps what it shows.
proof fn lemma_untouched(p: Picture, areas: Seq<Area>, color: Seq<u8>, x: int, y: int)
    requires
        p.complete(),
        0 <= x < p.width,
        0 <= y < p.height,
        forall|i: int| 0 <= i < areas.len() ==> !(#[trigger] areas[i]).covers(x, y),
    ensures
        paint_all(p, areas, color).complete(),
        paint_all(p, areas, color).width == p.width,
        paint_all(p, areas, color).height == p.height,
        paint_all(p, areas, color).pixel(x, y) == p.pixel(x, y),
    decreases areas.len(),
{
    if areas.len() > 0 {
        let fewer = areas.drop_last();
        assert forall|i: int| 0 <= i < fewer.len() implies !(#[trigger] fewer[i]).covers(x, y) by {
            assert(fewer[i] == areas[i]);
        }
        lemma_untouched(p, fewer, color, x, y);
        let before = paint_all(p, fewer, color);
        assert(areas.last() == areas[areas.len() - 1]);
        lemma_paint_pixel(before, areas.last(), color, x, y);
        reveal(paint);
    }
}

/// The sides of the box do not reach into the region.
#[verifier::spinoff_prover]
#[verifier::rlimit(100)]
proof fn lemma_sides_outside(
    p: Picture,
    x: int,
    y: int,
    width: int,
    height: int,
    accent: Seq<u8>,
    px: int,
    py: int,
)
    requires
        p.complete(),
        0 <= x,
        0 <= y,
        1 <= width,
        1 <= height,
        x + width + 8 <= 0x80_0000,
        y + height + 8 <= 0x80_0000,
        x <= px < x + width,
        y <= py < y + height,
        px < p.width,
        py < p.height,
    ensures
        ({
            let sided = faint_sides(p, frame_around(x, y, width, height), accent);
            &&& sided.complete()
            &&& sided.width == p.width
            &&& sided.height == p.height
            &&& sided.pixel(px, py) == p.pixel(px, py)
        }),
{
    reveal(frame_around);
    lemma_around(x, width);
    lemma_around(y, height);
    let frame = frame_around(x, y, width, height);
    let left = sum(frame.x, -fraction(1, 1));
    let top = sum(frame.y, -fraction(1, 1));
    let right = sum(left, sum(frame.width, fraction(2, 1)));
    let low = sum(top, sum(frame.height, fraction(2, 1)));
    let color = tint(accent, 77);
    let sides = seq![
        line_area(left, top, right, top, 2),
        line_area(right, top, right, low, 2),
        line_area(right, low, left, low, 2),
        line_area(left, low, left, top, 2),
    ];
    if sides[0].covers(px, py) {
        lemma_level(left, right, top, 2, px, py);
    }
    if sides[1].covers(px, py) {
        lemma_upright(right, top, low, 2, px, py);
    }
    if sides[2].covers(px, py) {
        lemma_level(right, left, low, 2, px, py);
    }
    if sides[3].covers(px, py) {
        lemma_upright(left, low, top, 2, px, py);
    }
    lemma_untouched(p, sides, color, px, py);
    reveal_with_fuel(paint_all, 5);
    assert(sides.drop_last() =~= seq![sides[0], sides[1], sides[2]]);
    assert(sides.drop_last().drop_last() =~= seq![sides[0], sides[1]]);
    assert(sides.drop_last().drop_last().drop_last() =~= seq![sides[0]]);
    assert(paint_all(p, sides, color) == faint_sides(p, frame, accent));
}

/// The box around a region covers none of its pixels, so that it is not captured with them;
/// this holds as long as halves of a pixel can be told apart at the ends of the region.
#[verifier::spinoff_prover]
#[verifier::rlimit(100)]
pub proof fn lemma_box_outside(
    p: Picture,
    x: int,
    y: int,
    width: int,
    height: int,
    accent: Seq<u8>,
    px: int,
    py: int,
)
    requires
        p.complete(),
        0 <= x,
        0 <= y,
        1 <= width,
        1 <= height,
        x + width + 8 <= 0x80_0000,
        y + height + 8 <= 0x80_0000,
        x <= px < x + width,
        y <= py < y + height,
        px < p.width,
        py < p.height,
    ensures
        boxed(p, x, y, width, height, accent).pixel(px, py) == seq![0u8, 0u8, 0u8, 0u8],
{
    let base = cleared(p);
    lemma_sides_outside(base, x, y, width, height, accent, px, py);
    lemma_around(x, width);
    lemma_around(y, height);
    let frame = frame_around(x, y, width, height);
    let sided = faint_sides(base, frame, accent);
    let strokes = corner_strokes(frame);
    assert forall|i: int| 0 <= i < strokes.len() implies !(#[trigger] strokes[i]).covers(
        px,
        py,
    ) by {
        reveal(frame_around);
        let left = sum(frame.x, -fraction(3, 2));
        let top = sum(frame.y, -fraction(3, 2));
        let right = sum(left, sum(frame.width, fraction(3, 1)));
        let low = sum(top, sum(frame.height, fraction(3, 1)));
        let len = frame.corner;
        if strokes[i].covers(px, py) {
            if i == 0 {
                lemma_upright(left, sum(top, len), top, 3, px, py);
            } else if i == 1 {
                lemma_level(left, sum(left, len), top, 3, px, py);
            } else if i == 2 {
                lemma_level(sum(right, -len), right, top, 3, px, py);
            } else if i == 3 {
                lemma_upright(right, top, sum(top, len), 3, px, py);
            } else if i == 4 {
                lemma_upright(right, sum(low, -len), low, 3, px, py);
            } else if i == 5 {
                lemma_level(right, sum(right, -len), low, 3, px, py);
            } else if i == 6 {
                lemma_level(sum(left, len), left, low, 3, px, py);
            } else {
                lemma_upright(left, low, sum(low, -len), 3, px, py);
            }
        }
    }
    lemma_untouched(sided, strokes, tint(accent, 255), px, py);
    lemma_offset_inside(base, px, py);
    assert(base.pixel(px, py) =~= seq![0u8, 0u8, 0u8, 0u8]);
}

/// A pixel painted over by areas of one colour has that colour if the last of them that covers it
/// is known to do so.
proof fn lemma_painted_over(p: Picture, areas: Seq<Area>, color: Seq<u8>, x: int, y: int)
    requires
        p.complete(),
        0 <= x < p.width,
        0 <= y < p.height,
        exists|i: int| 0 <= i < areas.len() && (#[trigger] areas[i]).covers(x, y),
    ensures
        paint_all(p, areas, color).pixel(x, y) == ink(color),
    decreases areas.len(),
{
    let before = areas.drop_last();
    lemma_all_size(p, before, color);
    let inner = paint_all(p, before, color);
    lemma_paint_pixel(inner, areas.last(), color, x, y);
    if !areas.last().covers(x, y) {
        let i = choose|i: int| 0 <= i < areas.len() && (#[trigger] areas[i]).covers(x, y);
        assert(before[i].covers(x, y));
        lemma_painted_over(p, before, color, x, y);
    }
}

proof fn lemma_all_size(p: Picture, areas: Seq<Area>, color: Seq<u8>)
    requires
        p.complete(),
    ensures
        paint_all(p, areas, color).width == p.width,
        paint_all(p, areas, color).height == p.height,
        paint_all(p, areas, color).complete(),
    decreases areas.len(),
{
    if areas.len() > 0 {
        reveal(paint);
        lemma_all_size(p, areas.drop_last(), color);
    }
}

/// A greater number lies at a pixel that is no lower.
proof fn lemma_snapped_ordered(a: int, b: int)
    requires
        0 <= a <= b,
    ensures
        snapped(a) <= snapped(b),
{
    let unit = crate::single::one() as int;
    crate::single::lemma_one_large();
    vstd::arithmetic::div_mod::lemma_div_is_ordered(2 * a + unit, 2 * b + unit, 2 * unit);
}

/// The stroke at the upper left corner of the box around a region covers the pixel three columns
/// left of the region and three rows above it in the full colour of the accent.
#[verifier::spinoff_prover]
#[verifier::rlimit(100)]
pub proof fn lemma_box_corner(
    p: Picture,
    x: int,
    y: int,
    width: int,
    height: int,
    accent: Seq<u8>,
)
    requires
        p.complete(),
        4 <= x,
        4 <= y,
        1 <= width,
        1 <= height,
        x + width + 8 <= 0x80_0000,
        y + height + 8 <= 0x80_0000,
        x + width <= u32::MAX,
        y + height <= u32::MAX,
        x - 3 < p.width,
        y - 3 < p.height,
    ensures
        boxed(p, x, y, width, height, accent).pixel(x - 3, y - 3) == ink(
            seq![accent[0], accent[1], accent[2], 255u8],
        ),
{
    let base = cleared(p);
    let frame = frame_around(x, y, width, height);
    let sided = faint_sides(base, frame, accent);
    let strokes = corner_strokes(frame);
    lemma_corner_stroke(x, y, width, height);
    assert(strokes[0].covers(x - 3, y - 3));
    reveal(paint);
    assert(base.complete());
    assert(sided.width == p.width && sided.height == p.height && sided.complete());
    lemma_painted_over(sided, strokes, tint(accent, 255), x - 3, y - 3);
}

#[verifier::spinoff_prover]
#[verifier::rlimit(100)]
proof fn lemma_corner_stroke(x: int, y: int, width: int, height: int)
    requires
        4 <= x,
        4 <= y,
        1 <= width,
        1 <= height,
        x + width + 8 <= 0x80_0000,
        y + height + 8 <= 0x80_0000,
    ensures
        corner_strokes(frame_around(x, y, width, height))[0].covers(x - 3, y - 3),
{
    reveal(frame_around);
    reveal(line_area);
    let frame = frame_around(x, y, width, height);
    let h = half() as int;
    lemma_around(x, width);
    lemma_around(y, height);
    lemma_halves_exact(1);
    lemma_whole_exact(x as nat);
    lemma_whole_exact(y as nat);
    lemma_whole_exact(2);
    lemma_three_halves();
    assert(x * (2 * h) == (2 * x) * h && y * (2 * h) == (2 * y) * h) by (nonlinear_arith);
    assert(-(4 * h) == (-4) * h && -(3 * h) == (-3) * h);
    lemma_halves_sum(2 * x, -4);
    lemma_halves_sum(2 * y, -4);
    lemma_halves_sum(2 * x - 4, -3);
    lemma_halves_sum(2 * y - 4, -3);
    lemma_halves_nearest(2 * x - 7);
    lemma_halves_nearest(2 * y - 7);
    let cx = (2 * x - 7) * h;
    let cy = (2 * y - 7) * h;
    assert(sum(frame.x, -fraction(3, 2)) == cx);
    assert(sum(frame.y, -fraction(3, 2)) == cy);
    assert(snapped(cx) == x - 3 && snapped(cy) == y - 3);
    assert(cx >= 0 && cy >= 0 && -cx == (-(2 * x - 7)) * h) by (nonlinear_arith)
        requires
            cx == (2 * x - 7) * h,
            cy == (2 * y - 7) * h,
            x >= 4,
            y >= 4,
            h > 0,
    ;
    lemma_halves_sum(2 * x - 7, -(2 * x - 7));
    assert(0 * h == 0);
    crate::single::lemma_part_positive(1, 1000);
    assert(magnitude(sum(cx, -cx)) < fraction(1, 1000));
    let len = frame.corner;
    let end = sum(cy, len);
    lemma_corner_long(width, height);
    assert(0 <= len < limit());
    lemma_halves_exact(2 * y - 7);
    crate::single::lemma_rounding_ordered(cy as nat, (cy + len) as nat, 1);
    assert(end >= cy);
    lemma_snapped_ordered(cy, end);
}

/// The strokes at the corners have a length.
proof fn lemma_corner_long(width: int, height: int)
    requires
        1 <= width <= 0x80_0000,
        1 <= height <= 0x80_0000,
    ensures
        0 <= frame_around(0, 0, width, height).corner < limit(),
        forall|x: int, y: int|
            (#[trigger] frame_around(x, y, width, height)).corner == frame_around(
                0,
                0,
                width,
                height,
            ).corner,
{
    reveal(frame_around);
    lemma_frame_bounded(0, 0, width as u32, height as u32);
    lemma_whole_exact(20);
    lemma_whole_exact(width as nat);
    lemma_whole_exact(height as nat);
    lemma_whole_exact(2);
    lemma_whole_exact(4);
    lemma_around(0, 1);
    let margin = product(fraction(2, 1), fraction(2, 1));
    lemma_halves_exact(1);
    let h = half() as int;
    assert(width * (2 * h) >= 0 && height * (2 * h) >= 0) by (nonlinear_arith)
        requires
            width >= 0,
            height >= 0,
            h > 0,
    ;
    crate::single::lemma_sum_not_negative(fraction(width as nat, 1), margin);
    crate::single::lemma_sum_not_negative(fraction(height as nat, 1), margin);
    crate::single::lemma_quotient_not_negative(
        sum(fraction(width as nat, 1), margin),
        fraction(4, 1),
    );
    crate::single::lemma_quotient_not_negative(
        sum(fraction(height as nat, 1), margin),
        fraction(4, 1),
    );
}

} // verus!
