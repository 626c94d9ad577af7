//! What is shown around and beside the region while it is captured.

use crate::canvas::{boxed, draw_box};
use crate::drawing::{draw_preview_image, previewed};
use crate::frame::surface_buffer_size;
use crate::geometry::overlay_region;
use crate::preview::{
    content_length, content_of, desired_width, interaction_of, most, preview_interaction,
    preview_layout, preview_side, scale_height_for_width, scaled_rows, scene, OutputInfo,
    PreviewInteraction, PreviewLayout, PreviewOptions, Rect, Side,
};
use crate::raster::{byte_count, Image, Picture};
use vstd::prelude::*;

verus! {

/// An empty canvas.
pub open spec fn blank(width: nat, height: nat) -> Picture {
    Picture { width, height, bytes: Seq::new(height * (width * 4), |i: int| 0u8) }
}

/// Why a surface of the given size cannot be drawn, if it cannot.
pub open spec fn surface_fault(width: int, height: int) -> Option<Seq<char>> {
    if width * 4 > u32::MAX {
        Some("overlay stride overflow"@)
    } else if byte_count(width, height) > u32::MAX {
        Some("overlay buffer size overflow"@)
    } else {
        None
    }
}

fn empty_canvas(width: u32, height: u32) -> (result: Result<Image, String>)
    ensures
        match result {
            Ok(canvas) => surface_fault(width as int, height as int) is None && canvas@ == blank(
                width as nat,
                height as nat,
            ),
            Err(text) => surface_fault(width as int, height as int) == Some(text@),
        },
{
    match surface_buffer_size(width, height) {
        Err(text) => Err(text),
        Ok((stride, _)) => {
            proof {
                if height == 0 {
                    assert(0 * (width * 4) == 0);
                }
                assert(stride == width * 4);
            }
            let canvas = Image::new(width, height);
            proof {
                assert(canvas@.bytes =~= blank(width as nat, height as nat).bytes);
            }
            Ok(canvas)
        },
    }
}

/// Whether the place of a region can be told from its screen.
pub open spec fn placeable(geometry: Rect, target: OutputInfo) -> bool {
    &&& i32::MIN <= geometry.x - target.x <= i32::MAX
    &&& i32::MIN <= geometry.y - target.y <= i32::MAX
}

/// Whether the place of a region can be told from its screen.
pub fn is_placeable(geometry: Rect, target: OutputInfo) -> (result: bool)
    ensures
        result == placeable(geometry, target),
{
    let x: i64 = geometry.x as i64 - target.x as i64;
    let y: i64 = geometry.y as i64 - target.y as i64;
    i32::MIN as i64 <= x && x <= i32::MAX as i64 && i32::MIN as i64 <= y && y <= i32::MAX as i64
}

/// The box around a region on a surface of the given size, or why it cannot be drawn.
pub fn render_box(
    geometry: Rect,
    target: OutputInfo,
    width: u32,
    height: u32,
    accent: [u8; 3],
) -> (result: Result<Image, String>)
    requires
        placeable(geometry, target),
    ensures
        match result {
            Ok(canvas) => {
                &&& surface_fault(width as int, height as int) is None
                &&& canvas@ == boxed(
                    blank(width as nat, height as nat),
                    most(geometry.x - target.x, 0),
                    most(geometry.y - target.y, 0),
                    most(geometry.width as int, 1),
                    most(geometry.height as int, 1),
                    accent@,
                )
            },
            Err(text) => surface_fault(width as int, height as int) == Some(text@),
        },
{
    let (x, y, box_width, box_height) = overlay_region(geometry, target);
    match empty_canvas(width, height) {
        Err(text) => Err(text),
        Ok(mut canvas) => {
            draw_box(&mut canvas, x, y, box_width, box_height, accent);
            Ok(canvas)
        },
    }
}

/// The preview as it is shown.
#[derive(Debug)]
pub struct Rendered {
    pub layout: PreviewLayout,
    pub canvas: Image,
    pub interaction: PreviewInteraction,
}

/// Where the preview of an image lies.
pub open spec fn layout_of(
    geometry: Rect,
    target: OutputInfo,
    image: Picture,
    options: PreviewOptions,
) -> PreviewLayout {
    scene(geometry, target).layout(
        desired_width(target, options),
        image.width as int,
        image.height as int,
    )
}

/// Whether a place for the preview of an image can be found, and the image drawn there.
pub open spec fn showable(
    geometry: Rect,
    target: OutputInfo,
    image: Picture,
    options: PreviewOptions,
) -> bool {
    let layout = layout_of(geometry, target, image, options);
    &&& scene(geometry, target).in_range()
    &&& scene(geometry, target).fits(
        desired_width(target, options),
        image.width as int,
        image.height as int,
    )
    &&& layout.visible ==> {
        &&& layout.width + 200 <= i32::MAX
        &&& layout.height + 200 <= i32::MAX
        &&& image.height > 0
        &&& scaled_rows(
            image.width as int,
            image.height as int,
            content_length(layout.width as int),
        ) > 0
    }
}

/// Whether the place of a region and its end can be told from its screen.
pub fn is_in_range(geometry: Rect, target: OutputInfo) -> (result: bool)
    ensures
        result == scene(geometry, target).in_range(),
{
    let x: i64 = geometry.x as i64 - target.x as i64;
    let y: i64 = geometry.y as i64 - target.y as i64;
    let right: i64 = x + geometry.width as i64;
    let low: i64 = y + geometry.height as i64;
    is_placeable(geometry, target) && i32::MIN as i64 <= right && right <= i32::MAX as i64
        && i32::MIN as i64 <= low && low <= i32::MAX as i64
}

/// Whether the preview, shown on the left or right, is no higher than the screen.
pub fn is_fitting(
    geometry: Rect,
    target: OutputInfo,
    image_width: u32,
    image_height: u32,
    options: PreviewOptions,
) -> (result: bool)
    requires
        scene(geometry, target).in_range(),
    ensures
        result == scene(geometry, target).fits(
            desired_width(target, options),
            image_width as int,
            image_height as int,
        ),
{
    match preview_side(geometry, target, image_width, image_height, options) {
        Some((Side::Right, _, height)) => height as i64 <= 1 || height as i64
            <= target.height as i64,
        Some((Side::Left, _, height)) => height as i64 <= 1 || height as i64
            <= target.height as i64,
        _ => true,
    }
}

/// Whether a place for the preview of an image can be found, and the image drawn there.
pub fn is_showable(geometry: Rect, target: OutputInfo, image: &Image, options: PreviewOptions) -> (result:
    bool)
    ensures
        result == showable(geometry, target, image@, options),
{
    if !is_in_range(geometry, target) {
        return false;
    }
    let width: u32 = image.width();
    let height: u32 = image.height();
    if !is_fitting(geometry, target, width, height, options) {
        return false;
    }
    let layout = preview_layout(geometry, target, width, height, options);
    if !layout.visible {
        return true;
    }
    layout.width as i64 + 200 <= i32::MAX as i64 && layout.height as i64 + 200 <= i32::MAX as i64
        && height > 0 && scale_height_for_width(width, height, content_of(layout.width)) > 0
}

/// The preview of an image beside a region: none where it has no room, or why it cannot be
/// drawn.
pub fn render_preview(
    geometry: Rect,
    target: OutputInfo,
    image: &Image,
    accent: [u8; 3],
    options: PreviewOptions,
) -> (result: Result<Option<Rendered>, String>)
    requires
        showable(geometry, target, image@, options),
    ensures
        ({
            let layout = layout_of(geometry, target, image@, options);
            let fault = surface_fault(layout.width as int, layout.height as int);
            match result {
                Ok(None) => !layout.visible,
                Ok(Some(shown)) => {
                    &&& layout.visible
                    &&& fault is None
                    &&& shown.layout == layout
                    &&& shown.canvas@ == previewed(
                        blank(layout.width as nat, layout.height as nat),
                        image@,
                        accent@,
                        options,
                    )
                    &&& shown.interaction == interaction_of(
                        image@,
                        layout.width as int,
                        layout.height as int,
                        options,
                    )
                },
                Err(text) => layout.visible && fault == Some(text@),
            }
        }),
{
    let layout = preview_layout(geometry, target, image.width(), image.height(), options);
    if !layout.visible {
        return Ok(None);
    }
    match empty_canvas(layout.width, layout.height) {
        Err(text) => Err(text),
        Ok(mut canvas) => {
            draw_preview_image(&mut canvas, image, accent, options);
            let interaction = preview_interaction(image, layout.width, layout.height, options);
            Ok(Some(Rendered { layout, canvas, interaction }))
        },
    }
}

} // verus!
