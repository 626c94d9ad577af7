//! What becomes of a capture: of the gestures on its preview and of the frames given to it.

use crate::course::{Course, Manner};
use crate::pointer::{fixed_round, fixed_units, Input, PointerEvent};
use crate::preview::{seen_row, PreviewCropDrag, PreviewCropEdge, PreviewInteraction};
use crate::raster::{lemma_padded, Picture};
use crate::session::{frame_overlay, grim_overlay, Capture};
use crate::config::{Config, GrimMode};
use crate::single::{lemma_ratio_whole, one, sum};
use crate::stitch::StitchStatus;
use vstd::prelude::*;

verus! {

/// A coordinate is taken to the nearest pixel, and one between two pixels to the one farther out.
pub proof fn lemma_nearest_pixel(n: int)
    ensures
        -128 <= 256 * fixed_round(n) - n <= 128,
        n > 0 ==> 256 * fixed_round(n) - n > -128,
        n < 0 ==> 256 * fixed_round(n) - n < 128,
        n % 256 == 0 ==> fixed_round(n) == n / 256,
{
}

/// The row under the pointer is the one that is drawn there, within the part that is shown.
pub proof fn lemma_row_under(input: Input, i: PreviewInteraction, row: int)
    requires
        0 <= row < i.content_height,
        input.y == 256 * (i.padding + row),
        0 < i.viewport.source_len,
        i.viewport.source_start + i.viewport.source_len <= u32::MAX,
    ensures
        ({
            let under = input.row_under(i) - i.viewport.source_start;
            &&& 0 <= under < i.viewport.source_len
            &&& under * i.content_height <= row * i.viewport.source_len < (under + 1)
                * i.content_height
        }),
{
    let d = i.content_height as int;
    let l = i.viewport.source_len as int;
    let n = row * l;
    lemma_nearest_pixel(256 * row);
    assert(fixed_round(input.y - 256 * i.padding) == row);
    vstd::arithmetic::div_mod::lemma_fundamental_div_mod(n, d);
    vstd::arithmetic::div_mod::lemma_mod_bound(n, d);
    let q = n / d;
    assert(0 <= n && n < d * l) by (nonlinear_arith)
        requires
            n == row * l,
            0 <= row < d,
            0 < l,
    ;
    assert(q * d <= n < (q + 1) * d && 0 <= q < l) by (nonlinear_arith)
        requires
            n == d * q + n % d,
            0 <= n % d < d,
            0 <= n < d * l,
    ;
}

/// Above or below the content the pointer stands for the first or for the last row that is drawn.
pub proof fn lemma_row_beyond(input: Input, i: PreviewInteraction)
    requires
        0 < i.content_height,
        i.viewport.source_start + i.viewport.source_len <= u32::MAX,
        0 < i.viewport.source_len,
    ensures
        input.y <= 256 * i.padding ==> input.row_under(i) == i.viewport.source_start,
        input.y >= 256 * (i.padding + i.content_height) ==> input.row_under(i) == (Input {
            y: 256 * (i.padding + i.content_height - 1),
            ..input
        }).row_under(i),
{
    let d = i.content_height as int;
    assert(0 * i.viewport.source_len / d == 0) by (nonlinear_arith)
        requires
            d > 0,
    ;
    lemma_nearest_pixel(input.y - 256 * i.padding);
    lemma_nearest_pixel(256 * (d - 1));
    let last = Input { y: 256 * (i.padding + i.content_height - 1), ..input };
    assert(last.y - 256 * i.padding == 256 * (d - 1));
    assert(last.row_under(i) == last.row_under(i));
}

/// Pressed on the content within eight rows of the upper handle, else of the lower one, the left
/// button seizes that handle and drags it to the pointer. Elsewhere it seizes none and toggles
/// the zoom.
pub proof fn lemma_pressed(input: Input, i: PreviewInteraction)
    requires
        input.on_preview,
        input.interaction == Some(i),
        i.crop_top + i.crop_bottom < i.image_height,
    ensures
        ({
            let after = input.after(PointerEvent::Button { button: 272, pressed: true });
            let x = fixed_round(input.x);
            let y = fixed_round(input.y) - i.padding;
            let low = i.image_height - i.crop_bottom;
            let across = i.padding <= x < i.padding + i.content_width;
            let at_top = seen_row(i, i.crop_top as int) matches Some(row) && row - 8 <= y <= row
                + 8;
            let at_bottom = seen_row(i, low) matches Some(row) && row - 8 <= y <= row + 8;
            let dragged = |edge: PreviewCropEdge|
                PreviewCropDrag { edge, source_y: input.row_under(i) as u32 };
            &&& i.crop_enabled && across && at_top ==> after.seized == Some(PreviewCropEdge::Top)
                && after.drag == Some(dragged(PreviewCropEdge::Top)) && after.toggle_zoom
                == input.toggle_zoom
            &&& i.crop_enabled && across && !at_top && at_bottom ==> after.seized == Some(
                PreviewCropEdge::Bottom,
            ) && after.drag == Some(dragged(PreviewCropEdge::Bottom)) && after.toggle_zoom
                == input.toggle_zoom
            &&& !(i.crop_enabled && across && (at_top || at_bottom)) ==> after.seized is None
                && after.toggle_zoom && after.drag == input.drag
            &&& after.scroll == input.scroll
        }),
{
}

/// A handle that was seized follows the pointer on the preview until the left button is released
/// or the pointer leaves; then it stays where it was dragged.
pub proof fn lemma_followed(input: Input, i: PreviewInteraction, edge: PreviewCropEdge, x: i32, y: i32)
    requires
        input.on_preview,
        input.interaction == Some(i),
        i.crop_enabled,
        input.seized == Some(edge),
    ensures
        ({
            let there = Input { x: x as int, y: y as int, ..input };
            let moved = input.after(PointerEvent::Motion { x, y });
            let released = input.after(PointerEvent::Button { button: 272, pressed: false });
            let left = input.after(PointerEvent::Leave { on_preview: true });
            let other = input.after(PointerEvent::Button { button: 273, pressed: false });
            &&& moved.x == x && moved.y == y
            &&& moved.drag == Some(PreviewCropDrag { edge, source_y: there.row_under(i) as u32 })
            &&& moved.seized == Some(edge)
            &&& released.seized is None && released.drag == input.drag
            &&& released.after(PointerEvent::Motion { x, y }).drag == input.drag
            &&& left.seized is None && !left.on_preview && left.drag == input.drag
            &&& other == input
        }),
{
}

/// The wheel scrolls by as much as it was turned up and down, on the preview alone.
pub proof fn lemma_turned(input: Input, value: i32)
    ensures
        ({
            let up = input.after(PointerEvent::Axis { vertical: true, value });
            let across = input.after(PointerEvent::Axis { vertical: false, value });
            &&& across == input
            &&& !input.on_preview ==> up == input
            &&& input.on_preview ==> up == (Input {
                scroll: sum(input.scroll, fixed_units(value as int)),
                ..input
            })
        }),
{
}

/// A distance of so many times 256 parts is that many, in either direction.
pub proof fn lemma_whole_distance(n: int)
    requires
        -0x100_0000 < n < 0x100_0000,
    ensures
        fixed_units(256 * n) == n * one(),
{
    let m = if n < 0 {
        -n
    } else {
        n
    };
    let v = (m * one()) as int;
    lemma_ratio_whole(m as nat, 256);
    assert((256 * m) * one() == 256 * v) by (nonlinear_arith)
        requires
            v == m * one(),
    ;
    assert(v >= 0 && n * one() == if n < 0 {
        -v
    } else {
        v
    }) by (nonlinear_arith)
        requires
            v == m * one(),
            m == if n < 0 {
                -n
            } else {
                n
            },
    ;
}

/// The pointer is where it enters, on the preview or elsewhere, and nothing else comes of it.
pub proof fn lemma_entered(input: Input, on_preview: bool, x: i32, y: i32)
    ensures
        input.after(PointerEvent::Enter { on_preview, x, y }) == (Input {
            on_preview,
            x: x as int,
            y: y as int,
            ..input
        }),
        input.after(PointerEvent::Leave { on_preview: false }) == input,
        input.after(PointerEvent::Lost) == (Input { on_preview: false, ..input }),
{
}

/// A frame of its own is stitched; where there is no preview nothing else changes, and where
/// there is one, it takes note of what was told about the frame.
pub proof fn lemma_frame_of_its_own(capture: Capture, frame: Picture)
    ensures
        ({
            let after = capture.auto_pushed(frame);
            let outcome = capture.stitching.outcome(frame);
            &&& after.stitching == capture.stitching.pushed(frame)
            &&& !capture.preview ==> after.view == capture.view
            &&& capture.preview && (after.stitching.full is None ==> capture.view.following)
                && outcome.status == StitchStatus::NoMatch ==> after.view.crop_top
                == capture.view.crop_top && after.view.crop_bottom == capture.view.crop_bottom
            &&& after.preview == capture.preview && after.manual == capture.manual
        }),
{
}

/// The first frame that `grim` captures is streamed and leaves the preview as it is; every other
/// frame is streamed if and only if it became part of the picture, or is kept whole.
pub proof fn lemma_streamed(capture: Capture, course: Course, frame: Picture, frame_len: u32)
    ensures
        ({
            let (after, streamed) = capture.given(course, frame, frame_len);
            let status = capture.stitching.outcome(frame).status;
            let grown = status == StitchStatus::FirstFrame || status == StitchStatus::Appended;
            &&& course.first && course.manner != Manner::Frames ==> streamed && after.view
                == capture.view && after.stitching == capture.stitching.pushed(frame)
            &&& course.manner == Manner::Frames ==> (streamed <==> grown) && after
                == capture.auto_pushed(frame)
            &&& course.manner == Manner::Repeated && !course.first ==> (streamed <==> grown)
                && after == capture.auto_pushed(frame)
            &&& course.manner == Manner::Asked && !course.first && capture.manual && !capture.dedup
                ==> streamed && after.stitching.accepted == capture.stitching.accepted + 1
            &&& course.manner == Manner::Asked && !course.first && capture.manual && capture.dedup
                && capture.fixed_width ==> (streamed <==> grown) && after.stitching
                == capture.stitching.pushed(frame)
        }),
{
}

/// After a frame that was asked for the preview shows the end of the picture.
pub proof fn lemma_end_shown(capture: Capture, frame: Picture, frame_len: u32)
    requires
        capture.preview,
        capture.manual_stitched(frame).0.full matches Some(full) && 0 < full.height <= u32::MAX,
    ensures
        ({
            let after = capture.manual_pushed(frame, frame_len);
            let height = (after.stitching.full->0).height;
            &&& after.view.following
            &&& after.view.edge == Some(crate::search::Edge::End)
            &&& after.view.frame_len == frame_len
            &&& after.view.capture_len == 0
            &&& 0 < frame_len <= height ==> after.view.scrub_pos + frame_len == height
            &&& frame_len > height ==> after.view.scrub_pos == 0
            &&& after.view.crop_top == capture.view.crop_top
            &&& after.view.crop_bottom == capture.view.crop_bottom
            &&& after.view.zoomed == capture.view.zoomed
        }),
{
}

/// Where widths may differ, the picture and the frame are compared at the greater of their
/// widths, and neither loses a pixel.
pub proof fn lemma_brought_to_one_width(capture: Capture, frame: Picture, x: int, y: int)
    requires
        capture.stitching.full is Some,
        (capture.stitching.full->0).complete(),
        frame.complete(),
    ensures
        ({
            let full = capture.stitching.full->0;
            let (before, wide) = capture.widths_kept(frame);
            let grown = before.full->0;
            &&& before.full is Some
            &&& grown.width == wide.width
            &&& grown.width == full.width || grown.width == frame.width
            &&& grown.width >= full.width && grown.width >= frame.width
            &&& grown.height == full.height && wide.height == frame.height
            &&& 0 <= x < full.width && 0 <= y < full.height ==> grown.pixel(x, y) == full.pixel(x, y)
            &&& 0 <= x < frame.width && 0 <= y < frame.height ==> wide.pixel(x, y) == frame.pixel(
                x,
                y,
            )
            &&& before.frames == capture.stitching.frames
            &&& before.anchor == capture.stitching.anchor
            &&& before.last == capture.stitching.last
        }),
{
    let width = capture.stitching.common_width(frame);
    lemma_padded(capture.stitching.full->0, width);
    lemma_padded(frame, width);
}

/// Of a frame that was asked for, where rows that repeat are looked for, only the new rows are
/// taken; it is judged at one width with the picture unless the width is fixed.
pub proof fn lemma_asked_for(capture: Capture, frame: Picture)
    requires
        capture.manual,
        capture.dedup,
    ensures
        capture.fixed_width ==> capture.manual_stitched(frame).0 == capture.stitching.pushed(frame),
        !capture.fixed_width ==> {
            let (before, wide) = capture.widths_kept(frame);
            capture.manual_stitched(frame).0 == before.pushed(wide)
        },
{
}

/// What is written in the end has the rows of the picture between those cropped away.
pub proof fn lemma_written(capture: Capture, x: int, y: int)
    requires
        capture.stitching.full matches Some(full) && full.complete() && 0 < full.height
            <= u32::MAX,
        capture.view.crop_top + capture.view.crop_bottom < (capture.stitching.full->0).height,
        0 <= x < (capture.stitching.full->0).width,
        0 <= y,
        y + capture.view.crop_top + capture.view.crop_bottom < (
        capture.stitching.full->0).height,
    ensures
        ({
            let full = capture.stitching.full->0;
            let written = capture.finished()->0;
            &&& capture.finished() is Some
            &&& written.height + capture.view.crop_top + capture.view.crop_bottom == full.height
            &&& written.pixel(x, y) == full.pixel(x, y + capture.view.crop_top)
        }),
{
    crate::codec::lemma_crop_keeps_rows(
        capture.stitching.full->0,
        capture.view.crop_top as int,
        capture.view.crop_bottom as int,
        x,
        y,
    );
}

/// A border is drawn where it is asked for; a capture by `grim` has it only where its frames come
/// on their own, and shows nothing at all where neither a border nor a preview is wanted.
pub proof fn lemma_border(config: Config)
    ensures
        frame_overlay(config).enabled == config.show_border,
        frame_overlay(config).preview.enabled == config.preview,
        frame_overlay(config).preview.width == config.preview_width,
        frame_overlay(config).color == config.border_color,
        grim_overlay(config) is None <==> !config.preview && !(config.show_border
            && config.grim_mode == GrimMode::Auto),
        grim_overlay(config) matches Some(overlay) ==> {
            &&& overlay.enabled <==> config.show_border && config.grim_mode == GrimMode::Auto
            &&& overlay.preview.enabled == config.preview
            &&& overlay.preview.width == config.preview_width
            &&& overlay.color == config.border_color
        },
{
}

} // verus!
