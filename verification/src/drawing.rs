//! How the preview is drawn.

use crate::canvas::{
    clear, cleared, fill_rect, fill_rounded_rect, ink, lemma_byte_of_pixel, paint, put_argb_pixel,
    rounded_area, stroke_rect, stroke_rounded_rect, stroked_rect, stroked_rounded, tint, tinted,
    Area, Form,
};
use crate::preview::{
    content_length, content_of, drawn_row, drawn_rows, end_of, larger, least, less, low_bits,
    minus_or_zero, most, preview_viewport, scaled_rows, smaller, source_span_to_draw_len,
    source_to_draw_y, truncated, viewport_of, wide_product, PreviewOptions,
    PreviewViewport, PADDING,
};
use crate::profile::fraction;
use crate::raster::{
    lemma_offset_inside, lemma_pixels_determine, same_pixels, Image, Picture,
};
use crate::single::{confined, lemma_whole_within, lemma_within_more, Single};
use vstd::prelude::*;

verus! {

/// A place on the canvas and the size of what is drawn there.
#[derive(Clone, Copy, Debug)]
pub struct Slot {
    pub x: u32,
    pub y: u32,
    pub width: u32,
    pub height: u32,
}

impl Slot {
    /// Whether the slot ends where pixels can be counted.
    pub open spec fn valid(self) -> bool {
        &&& self.x + self.width <= u32::MAX
        &&& self.y + self.height <= u32::MAX
    }

    /// Whether the grips of a handle at any row of the slot end where pixels can be counted.
    pub open spec fn has_handle_room(self) -> bool {
        &&& self.x + 33 <= u32::MAX
        &&& self.y + self.height + 2 <= u32::MAX
    }
}

/// The column of an image that is drawn in a column of a slot.
pub open spec fn source_column(image: Picture, slot: Slot, dx: int) -> int {
    dx * image.width / slot.width as int
}

/// The row of an image that is drawn in a row of a slot.
pub open spec fn source_row(image: Picture, v: PreviewViewport, dy: int) -> int {
    least(
        low_bits((v.scaled_start + dy) * image.height / v.scaled_height as int),
        image.height - 1,
    )
}

/// The colour that is drawn at a pixel of a slot.
pub open spec fn source_pixel(image: Picture, slot: Slot, v: PreviewViewport, px: int, py: int) -> Seq<u8> {
    image.pixel(source_column(image, slot, px - slot.x), source_row(image, v, py - slot.y))
}

/// Whether a pixel lies in a slot.
pub open spec fn in_slot(slot: Slot, px: int, py: int) -> bool {
    slot.x <= px < slot.x + slot.width && slot.y <= py < slot.y + slot.height
}

/// A picture with a part of an image drawn in a slot.
#[verifier::opaque]
pub open spec fn blitted(p: Picture, image: Picture, slot: Slot, v: PreviewViewport) -> Picture {
    if image.width == 0 || image.height == 0 {
        p
    } else {
        Picture {
            bytes: Seq::new(
                p.bytes.len(),
                |i: int|
                    {
                        let px = (i / 4) % (p.width as int);
                        let py = (i / 4) / (p.width as int);
                        if in_slot(slot, px, py) {
                            ink(source_pixel(image, slot, v, px, py))[i % 4]
                        } else {
                            p.bytes[i]
                        }
                    },
            ),
            ..p
        }
    }
}

/// Drawing an image gives the pixels of the slot its colours and leaves the others.
pub proof fn lemma_blitted_pixel(
    p: Picture,
    image: Picture,
    slot: Slot,
    v: PreviewViewport,
    x: int,
    y: int,
)
    requires
        p.complete(),
        image.width > 0,
        image.height > 0,
        0 <= x < p.width,
        0 <= y < p.height,
    ensures
        blitted(p, image, slot, v).complete(),
        blitted(p, image, slot, v).pixel(x, y) == if in_slot(slot, x, y) {
            ink(source_pixel(image, slot, v, x, y))
        } else {
            p.pixel(x, y)
        },
{
    reveal(blitted);
    lemma_offset_inside(p, x, y);
    let after = blitted(p, image, slot, v);
    let start = p.offset(x, y);
    let color = ink(source_pixel(image, slot, v, x, y));
    assert forall|k: int| 0 <= k < 4 implies #[trigger] after.pixel(x, y)[k] == if in_slot(
        slot,
        x,
        y,
    ) {
        color[k]
    } else {
        p.bytes[start + k]
    } by {
        lemma_byte_of_pixel(p.width as int, x, y, k);
        assert(after.pixel(x, y)[k] == after.bytes[start + k]);
    }
    if in_slot(slot, x, y) {
        assert(after.pixel(x, y) =~= color);
    } else {
        assert(after.pixel(x, y) =~= p.pixel(x, y));
    }
}

proof fn lemma_blitted(
    p: Picture,
    image: Picture,
    slot: Slot,
    v: PreviewViewport,
    after: Picture,
)
    requires
        p.complete(),
        after.complete(),
        after.width == p.width,
        after.height == p.height,
        image.width > 0,
        image.height > 0,
        forall|x: int, y: int|
            0 <= x < p.width && 0 <= y < p.height ==> #[trigger] after.pixel(x, y) == if in_slot(
                slot,
                x,
                y,
            ) {
                ink(source_pixel(image, slot, v, x, y))
            } else {
                p.pixel(x, y)
            },
    ensures
        after == blitted(p, image, slot, v),
{
    let other = blitted(p, image, slot, v);
    assert(other.width == p.width && other.height == p.height && other.bytes.len()
        == p.bytes.len()) by {
        reveal(blitted);
    }
    assert forall|x: int, y: int|
        0 <= x < p.width && 0 <= y < p.height implies #[trigger] after.pixel(x, y) == other.pixel(
        x,
        y,
    ) by {
        lemma_blitted_pixel(p, image, slot, v, x, y);
    }
    assert(same_pixels(after, other));
    lemma_pixels_determine(after, other);
}

/// The colour drawn at a pixel of a slot.
fn pick(image: &Image, slot: Slot, v: &PreviewViewport, dx: u32, dy: u32) -> (pixel: [u8; 4])
    requires
        image@.width > 0,
        image@.height > 0,
        dx < slot.width,
        dy < slot.height,
        v.scaled_height > 0,
        v.scaled_start + slot.height <= u32::MAX,
    ensures
        pixel@ == source_pixel(image@, slot, *v, slot.x + dx, slot.y + dy),
{
    let width: u32 = image.width();
    let height: u32 = image.height();
    let sy: u32 = smaller(
        truncated(wide_product(v.scaled_start + dy, height) / v.scaled_height as u64),
        height - 1,
    );
    proof {
        let n = dx * width;
        let d = slot.width;
        assert(0 <= n / d as int && n / d as int <= width - 1) by (nonlinear_arith)
            requires
                n == dx * width,
                0 <= dx < d,
                0 < width,
        ;
    }
    let sx: u32 = (wide_product(dx, width) / slot.width as u64) as u32;
    image.get_pixel(sx, sy)
}

/// Draws the part of an image that is shown.
pub fn blit_latest_viewport(canvas: &mut Image, image: &Image, slot: Slot, v: &PreviewViewport)
    requires
        old(canvas)@.complete(),
        slot.valid(),
        v.scaled_height > 0,
        v.scaled_start + slot.height <= u32::MAX,
    ensures
        final(canvas)@ == blitted(old(canvas)@, image@, slot, *v),
        final(canvas)@.complete(),
{
    if image.width() == 0 || image.height() == 0 {
        proof {
            reveal(blitted);
        }
        return;
    }
    let ghost before = canvas@;
    let width: u32 = canvas.width();
    let height: u32 = canvas.height();
    let mut dy: u32 = 0;
    while dy < slot.height
        invariant
            dy <= slot.height,
            slot.valid(),
            v.scaled_height > 0,
            v.scaled_start + slot.height <= u32::MAX,
            image@.width > 0,
            image@.height > 0,
            width == before.width,
            height == before.height,
            canvas@.complete(),
            canvas@.width == before.width,
            canvas@.height == before.height,
            forall|x: int, y: int|
                0 <= x < before.width && 0 <= y < before.height ==> #[trigger] canvas@.pixel(x, y)
                    == if in_slot(slot, x, y) && y < slot.y + dy {
                    ink(source_pixel(image@, slot, *v, x, y))
                } else {
                    before.pixel(x, y)
                },
        decreases slot.height - dy,
    {
        let mut dx: u32 = 0;
        while dx < slot.width
            invariant
                dy < slot.height,
                dx <= slot.width,
                slot.valid(),
                v.scaled_height > 0,
                v.scaled_start + slot.height <= u32::MAX,
                image@.width > 0,
                image@.height > 0,
                width == before.width,
                height == before.height,
                canvas@.complete(),
                canvas@.width == before.width,
                canvas@.height == before.height,
                forall|x: int, y: int|
                    0 <= x < before.width && 0 <= y < before.height ==> #[trigger] canvas@.pixel(
                        x,
                        y,
                    ) == if in_slot(slot, x, y) && (y < slot.y + dy || (y == slot.y + dy && x
                        < slot.x + dx)) {
                        ink(source_pixel(image@, slot, *v, x, y))
                    } else {
                        before.pixel(x, y)
                    },
            decreases slot.width - dx,
        {
            let px: u32 = slot.x + dx;
            let py: u32 = slot.y + dy;
            if px < width && py < height {
                let pixel = pick(image, slot, v, dx, dy);
                put_argb_pixel(canvas, px, py, pixel);
            }
            dx += 1;
        }
        dy += 1;
    }
    proof {
        lemma_blitted(before, image@, slot, *v, canvas@);
    }
}

/// A picture with a crop handle drawn over the width of a slot.
pub open spec fn handled(p: Picture, x: int, y: int, width: int, accent: Seq<u8>) -> Picture {
    let line = tint(accent, 180);
    let line_y = less(y, 1);
    let handle_width = confined(width, 44, 76);
    let handle_x = x + less(width, handle_width) / 2;
    let handle_y = less(y, 6);
    let grip_x = handle_x + handle_width / 2;
    let bright = seq![255u8, 255u8, 255u8, 210u8];
    let lined = paint(p, Area::plain(x, line_y, width, 3), line);
    let filled = paint(
        lined,
        rounded_area(handle_x, handle_y, handle_width, 13, 6, Form::Rounded),
        seq![18u8, 18u8, 18u8, 220u8],
    );
    let rimmed = stroked_rounded(filled, handle_x, handle_y, handle_width, 13, 2, 6, line);
    let first = paint(rimmed, Area::plain(most(grip_x - 8, 0), handle_y + 4, 3, 5), bright);
    let second = paint(first, Area::plain(grip_x, handle_y + 4, 3, 5), bright);
    let third = paint(second, Area::plain(grip_x + 8, handle_y + 4, 3, 5), bright);
    paint(third, Area::plain(x, line_y, width, 1), tint(accent, 110))
}

/// Draws a crop handle.
pub fn draw_crop_handle(canvas: &mut Image, x: u32, y: u32, width: u32, accent: [u8; 3])
    requires
        old(canvas)@.complete(),
        x + width <= u32::MAX,
        x + 33 <= u32::MAX,
        y + 3 <= u32::MAX,
    ensures
        final(canvas)@ == handled(old(canvas)@, x as int, y as int, width as int, accent@),
        final(canvas)@.complete(),
{
    let line = tinted(accent, 180);
    let line_y: u32 = minus_or_zero(y, 1);
    fill_rect(canvas, x, line_y, width, 3, line);
    let handle_width: u32 = larger(smaller(width, 76), 44);
    let handle_x: u32 = x + minus_or_zero(width, handle_width) / 2;
    let handle_y: u32 = minus_or_zero(y, 6);
    let dark: [u8; 4] = [18, 18, 18, 220];
    let bright: [u8; 4] = [255, 255, 255, 210];
    proof {
        assert(dark@ =~= seq![18u8, 18u8, 18u8, 220u8]);
        assert(bright@ =~= seq![255u8, 255u8, 255u8, 210u8]);
        assert(handle_width == confined(width as int, 44, 76));
    }
    fill_rounded_rect(canvas, handle_x, handle_y, handle_width, 13, 6, dark);
    stroke_rounded_rect(canvas, handle_x, handle_y, handle_width, 13, 2, 6, line);
    let grip_x: u32 = handle_x + handle_width / 2;
    fill_rect(canvas, minus_or_zero(grip_x, 8), handle_y + 4, 3, 5, bright);
    fill_rect(canvas, grip_x, handle_y + 4, 3, 5, bright);
    fill_rect(canvas, grip_x + 8, handle_y + 4, 3, 5, bright);
    fill_rect(canvas, x, line_y, width, 1, tinted(accent, 110));
}

/// How much of a picture is cropped away.
pub struct Crop {
    pub top: int,
    pub bottom: int,
}

/// The crop that leaves at least one row.
pub open spec fn possible_crop(height: int, top: int, bottom: int) -> Crop {
    let t = least(top, height - 1);
    Crop { top: t, bottom: least(bottom, height - (t + 1)) }
}

/// What is cropped at the top, darkened.
pub open spec fn shaded_top(
    p: Picture,
    slot: Slot,
    v: PreviewViewport,
    crop_top: int,
) -> Picture {
    let start = v.source_start as int;
    let end = least(start + v.source_len, u32::MAX as int);
    if crop_top > start && least(crop_top, end) > start {
        paint(
            p,
            Area::plain(
                slot.x as int,
                slot.y as int,
                slot.width as int,
                drawn_rows(
                    start,
                    least(crop_top, end),
                    start,
                    v.source_len as int,
                    slot.height as int,
                ),
            ),
            seq![0u8, 0u8, 0u8, 140u8],
        )
    } else {
        p
    }
}

/// What is cropped at the bottom, darkened.
pub open spec fn shaded_bottom(
    p: Picture,
    slot: Slot,
    v: PreviewViewport,
    bottom_source: int,
) -> Picture {
    let start = v.source_start as int;
    let end = least(start + v.source_len, u32::MAX as int);
    let from = most(bottom_source, start);
    if bottom_source < end && from < end {
        let row = drawn_row(from, start, v.source_len as int, slot.height as int);
        paint(
            p,
            Area::plain(
                slot.x as int,
                slot.y + row,
                slot.width as int,
                less(slot.height as int, row),
            ),
            seq![0u8, 0u8, 0u8, 140u8],
        )
    } else {
        p
    }
}

/// The handle at a row of the picture, where that row is shown.
pub open spec fn handle_at(
    p: Picture,
    slot: Slot,
    v: PreviewViewport,
    source: int,
    accent: Seq<u8>,
) -> Picture {
    let start = v.source_start as int;
    let end = least(start + v.source_len, u32::MAX as int);
    if start <= source <= end {
        handled(
            p,
            slot.x as int,
            slot.y + drawn_row(source, start, v.source_len as int, slot.height as int),
            slot.width as int,
            accent,
        )
    } else {
        p
    }
}

/// The crop drawn over a preview.
pub open spec fn cropped_over(
    p: Picture,
    image_height: int,
    slot: Slot,
    v: PreviewViewport,
    crop_top: int,
    crop_bottom: int,
    accent: Seq<u8>,
) -> Picture {
    if image_height == 0 || slot.width == 0 || slot.height == 0 {
        p
    } else {
        let crop = possible_crop(image_height, crop_top, crop_bottom);
        let low = image_height - crop.bottom;
        let shaded = shaded_bottom(shaded_top(p, slot, v, crop.top), slot, v, low);
        handle_at(handle_at(shaded, slot, v, crop.top, accent), slot, v, low, accent)
    }
}

fn shade_top(canvas: &mut Image, slot: Slot, v: &PreviewViewport, crop_top: u32)
    requires
        old(canvas)@.complete(),
        slot.valid(),
        slot.height > 0,
    ensures
        final(canvas)@ == shaded_top(old(canvas)@, slot, *v, crop_top as int),
        final(canvas)@.complete(),
{
    let start: u32 = v.source_start;
    let end: u32 = end_of(start, v.source_len);
    let shade: [u8; 4] = [0, 0, 0, 140];
    proof {
        assert(shade@ =~= seq![0u8, 0u8, 0u8, 140u8]);
    }
    let hidden_end: u32 = smaller(crop_top, end);
    if crop_top > start && hidden_end > start {
        let rows: u32 = source_span_to_draw_len(start, hidden_end, start, v.source_len, slot.height);
        fill_rect(canvas, slot.x, slot.y, slot.width, rows, shade);
    } else {
        let _ = canvas.width();
    }
}

fn shade_bottom(canvas: &mut Image, slot: Slot, v: &PreviewViewport, bottom_source: u32)
    requires
        old(canvas)@.complete(),
        slot.valid(),
    ensures
        final(canvas)@ == shaded_bottom(old(canvas)@, slot, *v, bottom_source as int),
        final(canvas)@.complete(),
{
    let start: u32 = v.source_start;
    let end: u32 = end_of(start, v.source_len);
    let shade: [u8; 4] = [0, 0, 0, 140];
    proof {
        assert(shade@ =~= seq![0u8, 0u8, 0u8, 140u8]);
    }
    let from: u32 = larger(bottom_source, start);
    if bottom_source < end && from < end {
        let row: u32 = source_to_draw_y(from, start, v.source_len, slot.height);
        fill_rect(
            canvas,
            slot.x,
            slot.y + row,
            slot.width,
            minus_or_zero(slot.height, row),
            shade,
        );
    }
}

fn draw_handle_at(canvas: &mut Image, slot: Slot, v: &PreviewViewport, source: u32, accent: [u8; 3])
    requires
        old(canvas)@.complete(),
        slot.valid(),
        slot.height > 0,
        slot.has_handle_room(),
    ensures
        final(canvas)@ == handle_at(old(canvas)@, slot, *v, source as int, accent@),
        final(canvas)@.complete(),
{
    let start: u32 = v.source_start;
    let end: u32 = end_of(start, v.source_len);
    if start <= source && source <= end {
        let row: u32 = source_to_draw_y(source, start, v.source_len, slot.height);
        draw_crop_handle(canvas, slot.x, slot.y + row, slot.width, accent);
    }
}

/// Draws the crop over a preview: what is cropped away is darkened, and there is a handle at
/// each end of what is left.
pub fn draw_crop_overlay(
    canvas: &mut Image,
    image_height: u32,
    slot: Slot,
    v: &PreviewViewport,
    crop_top: u32,
    crop_bottom: u32,
    accent: [u8; 3],
)
    requires
        old(canvas)@.complete(),
        slot.valid(),
        image_height > 0 && slot.width > 0 && slot.height > 0 ==> slot.has_handle_room(),
    ensures
        final(canvas)@ == cropped_over(
            old(canvas)@,
            image_height as int,
            slot,
            *v,
            crop_top as int,
            crop_bottom as int,
            accent@,
        ),
        final(canvas)@.complete(),
{
    if image_height == 0 || slot.width == 0 || slot.height == 0 {
        return;
    }
    let top: u32 = smaller(crop_top, image_height - 1);
    let bottom: u32 = smaller(crop_bottom, image_height - (top + 1));
    let low: u32 = image_height - bottom;
    shade_top(canvas, slot, v, top);
    shade_bottom(canvas, slot, v, low);
    draw_handle_at(canvas, slot, v, top, accent);
    draw_handle_at(canvas, slot, v, low, accent);
}

/// The mark of what was captured last, along the track of the indicator.
pub struct Marker {
    pub y: int,
    pub height: int,
}

/// The mark of a captured span on a track of `usable` rows from row `top` on.
pub open spec fn marker_of(top: int, usable: int, height: int, pos: int, len: int) -> Marker {
    let rows = least(most((len * usable + height / 2) / height, 4), usable);
    let center = least(least(pos + len / 2, u32::MAX as int), height);
    let middle = top + (center * usable + height / 2) / height;
    Marker { y: least(less(middle, rows / 2), top + less(usable, rows)), height: rows }
}

/// The indicator of what was captured last, and of the part that is shown.
pub open spec fn indicated(
    p: Picture,
    image_height: int,
    slot: Slot,
    v: PreviewViewport,
    capture_pos: int,
    capture_len: int,
    accent: Seq<u8>,
) -> Picture {
    if image_height == 0 || capture_len == 0 || slot.height < 12 || slot.width < 8 {
        p
    } else {
        let track_x = slot.x + (slot.width - 5);
        let top = slot.y + 2;
        let usable = slot.height - 4;
        let track = paint(
            p,
            Area::plain(track_x, top, 3, usable),
            seq![255u8, 255u8, 255u8, 38u8],
        );
        let thumb = least(most(v.source_len * usable / image_height, 10), usable);
        let thumbed = if v.max_source_start > 0 {
            paint(
                track,
                Area::plain(
                    track_x,
                    top + v.source_start * (usable - thumb) / v.max_source_start as int,
                    3,
                    thumb,
                ),
                seq![255u8, 255u8, 255u8, 92u8],
            )
        } else {
            track
        };
        let marker = marker_of(top, usable, image_height, capture_pos, capture_len);
        paint(
            thumbed,
            Area::plain(track_x - 1, marker.y, 5, marker.height),
            tint(accent, 205),
        )
    }
}

/// A share of a length is no longer than the length.
proof fn lemma_share(n: int, length: int, whole: int)
    requires
        0 <= n <= whole,
        0 <= length,
        0 < whole,
    ensures
        0 <= n * length,
        0 <= n * length / whole <= length,
        0 <= (n * length + whole / 2) / whole <= length,
{
    assert(0 <= n * length && n * length <= whole * length) by (nonlinear_arith)
        requires
            0 <= n <= whole,
            0 <= length,
    ;
    let m = n * length;
    assert(0 <= m / whole <= length) by (nonlinear_arith)
        requires
            0 <= m <= whole * length,
            0 < whole,
    ;
    let r = m + whole / 2;
    assert(0 <= r / whole <= length) by (nonlinear_arith)
        requires
            0 <= r,
            r < whole * length + whole,
            0 < whole,
    ;
}

fn mark(top: u32, usable: u32, height: u32, pos: u32, len: u32) -> (marker: (u32, u32))
    requires
        height > 0,
        usable >= 8,
        top + usable <= u32::MAX,
    ensures
        (Marker { y: marker.0 as int, height: marker.1 as int }) == marker_of(
            top as int,
            usable as int,
            height as int,
            pos as int,
            len as int,
        ),
        marker.0 + marker.1 <= top + usable,
{
    let half: u64 = (height / 2) as u64;
    let share: u64 = (wide_product(len, usable) + half) / height as u64;
    let rows: u32 = if share > usable as u64 {
        usable
    } else if share > 4 {
        share as u32
    } else {
        4
    };
    let center: u32 = smaller(end_of(pos, len / 2), height);
    proof {
        lemma_share(center as int, usable as int, height as int);
    }
    let middle: u32 = top + ((wide_product(center, usable) + half) / height as u64) as u32;
    let y: u32 = smaller(minus_or_zero(middle, rows / 2), top + minus_or_zero(usable, rows));
    (y, rows)
}

/// Draws the indicator of what was captured last, and of the part that is shown.
pub fn draw_preview_position_indicator(
    canvas: &mut Image,
    image_height: u32,
    slot: Slot,
    v: &PreviewViewport,
    capture_pos: u32,
    capture_len: u32,
    accent: [u8; 3],
)
    requires
        old(canvas)@.complete(),
        slot.valid(),
        v.source_start <= v.max_source_start,
    ensures
        final(canvas)@ == indicated(
            old(canvas)@,
            image_height as int,
            slot,
            *v,
            capture_pos as int,
            capture_len as int,
            accent@,
        ),
        final(canvas)@.complete(),
{
    if image_height == 0 || capture_len == 0 || slot.height < 12 || slot.width < 8 {
        return;
    }
    let track_x: u32 = slot.x + (slot.width - 5);
    let top: u32 = slot.y + 2;
    let usable: u32 = slot.height - 4;
    let pale: [u8; 4] = [255, 255, 255, 38];
    let clear_white: [u8; 4] = [255, 255, 255, 92];
    proof {
        assert(pale@ =~= seq![255u8, 255u8, 255u8, 38u8]);
        assert(clear_white@ =~= seq![255u8, 255u8, 255u8, 92u8]);
    }
    fill_rect(canvas, track_x, top, 3, usable, pale);
    let (marker_y, marker_height) = mark(top, usable, image_height, capture_pos, capture_len);
    if v.max_source_start > 0 {
        let share: u64 = wide_product(v.source_len, usable) / image_height as u64;
        let thumb: u32 = if share > usable as u64 {
            usable
        } else if share > 10 {
            share as u32
        } else {
            smaller(10, usable)
        };
        proof {
            lemma_share(v.source_start as int, usable - thumb, v.max_source_start as int);
        }
        let thumb_y: u32 = top + (wide_product(v.source_start, usable - thumb)
            / v.max_source_start as u64) as u32;
        fill_rect(canvas, track_x, thumb_y, 3, thumb, clear_white);
    }
    fill_rect(canvas, track_x - 1, marker_y, 5, marker_height, tinted(accent, 205));
}

/// The slot of the content of a preview of the given size.
pub open spec fn content_slot(width: int, height: int) -> Slot {
    Slot {
        x: PADDING,
        y: PADDING,
        width: content_length(width) as u32,
        height: content_length(height) as u32,
    }
}

/// The preview of an image drawn on an empty canvas.
pub open spec fn previewed(
    p: Picture,
    image: Picture,
    accent: Seq<u8>,
    options: PreviewOptions,
) -> Picture {
    let width = p.width as int;
    let height = p.height as int;
    let slot = content_slot(width, height);
    let v = viewport_of(
        image.width as int,
        image.height as int,
        content_length(width),
        content_length(height),
        options.source_pos as int,
        options.frame_len as int,
        options.edge,
    );
    let ground = paint(
        cleared(p),
        Area::plain(1, 1, less(width, 2), less(height, 2)),
        tint(accent, 28),
    );
    let shown = blitted(ground, image, slot, v);
    let marked = indicated(
        shown,
        image.height as int,
        slot,
        v,
        options.capture_pos as int,
        options.capture_len as int,
        accent,
    );
    let cropped = if options.crop_enabled {
        cropped_over(
            marked,
            image.height as int,
            slot,
            v,
            options.crop_top as int,
            options.crop_bottom as int,
            accent,
        )
    } else {
        marked
    };
    stroked_rect(
        cropped,
        fraction(1, 1),
        fraction(1, 1),
        fraction(less(width, 3) as nat, 1),
        fraction(less(height, 3) as nat, 1),
        2,
        tint(accent, 77),
    )
}

/// Draws the preview of an image on an emptied canvas.
pub fn draw_preview_image(canvas: &mut Image, image: &Image, accent: [u8; 3], options: PreviewOptions)
    requires
        image@.height > 0,
        scaled_rows(
            image@.width as int,
            image@.height as int,
            content_length(old(canvas)@.width as int),
        ) > 0,
    ensures
        final(canvas)@ == previewed(old(canvas)@, image@, accent@, options),
        final(canvas)@.complete(),
{
    let width: u32 = canvas.width();
    let height: u32 = canvas.height();
    let _ = image.width();
    clear(canvas);
    fill_rect(
        canvas,
        1,
        1,
        minus_or_zero(width, 2),
        minus_or_zero(height, 2),
        tinted(accent, 28),
    );
    let slot = Slot { x: PADDING, y: PADDING, width: content_of(width), height: content_of(height) };
    let v = preview_viewport(
        image,
        slot.width,
        slot.height,
        options.source_pos,
        options.frame_len,
        options.edge,
    );
    blit_latest_viewport(canvas, image, slot, &v);
    draw_preview_position_indicator(
        canvas,
        image.height(),
        slot,
        &v,
        options.capture_pos,
        options.capture_len,
        accent,
    );
    if options.crop_enabled {
        draw_crop_overlay(
            canvas,
            image.height(),
            slot,
            &v,
            options.crop_top,
            options.crop_bottom,
            accent,
        );
    }
    let w: u32 = minus_or_zero(width, 3);
    let h: u32 = minus_or_zero(height, 3);
    proof {
        lemma_whole_within(1);
        lemma_whole_within(w as nat);
        lemma_whole_within(h as nat);
        lemma_within_more(fraction(1, 1), 181, 200);
        lemma_within_more(fraction(w as nat, 1), 181, 200);
        lemma_within_more(fraction(h as nat, 1), 181, 200);
    }
    stroke_rect(
        canvas,
        Single::whole(1),
        Single::whole(1),
        Single::whole(w as u64),
        Single::whole(h as u64),
        2,
        tinted(accent, 77),
    );
}

/// A preview shows nothing of what the canvas held before and, where nothing is to be
/// cropped, does not depend on the rows chosen for it.
pub proof fn lemma_preview_anew(
    p: Picture,
    q: Picture,
    image: Picture,
    accent: Seq<u8>,
    options: PreviewOptions,
    others: PreviewOptions,
)
    requires
        p.complete(),
        q.complete(),
        p.width == q.width,
        p.height == q.height,
        options.crop_enabled ==> options == others,
        others == (PreviewOptions {
            crop_top: others.crop_top,
            crop_bottom: others.crop_bottom,
            ..options
        }),
    ensures
        previewed(p, image, accent, options) == previewed(q, image, accent, others),
{
    assert(cleared(p) == cleared(q));
}

} // verus!
