//! The preview of the stitched picture: where it is shown, what part of it, and how it is
//! drawn.

use crate::raster::{Image, Picture};
use crate::single::confined;
use vstd::prelude::*;

verus! {

/// The space between the border of the preview and its content.
pub const PADDING: u32 = 8;

/// The space between the captured region and the preview.
pub const GAP: i32 = 10;

/// How the border around the captured region and the preview are shown.
#[derive(Clone, Copy, Debug)]
pub struct OverlayConfig {
    pub enabled: bool,
    pub color: Option<[u8; 3]>,
    pub preview: PreviewConfig,
}

/// Whether the preview is shown, and how wide.
#[derive(Clone, Copy, Debug)]
pub struct PreviewConfig {
    pub enabled: bool,
    pub width: u32,
}

/// What the preview shows.
#[derive(Clone, Copy, Debug)]
pub struct PreviewOptions {
    pub width: u32,
    pub zoomed: bool,
    pub source_pos: u32,
    pub frame_len: u32,
    pub edge: PreviewEdge,
    pub capture_pos: u32,
    pub capture_len: u32,
    pub crop_enabled: bool,
    pub crop_top: u32,
    pub crop_bottom: u32,
}

/// The end of the picture that the preview follows.
#[derive(Clone, Copy, Debug, PartialEq, Eq, Structural)]
pub enum PreviewEdge {
    Neither,
    Start,
    End,
}

/// The end of the picture at which it is cropped.
#[derive(Clone, Copy, Debug, PartialEq, Eq, Structural)]
pub enum PreviewCropEdge {
    Top,
    Bottom,
}

/// A crop handle dragged to a row of the picture.
#[derive(Clone, Copy, Debug)]
pub struct PreviewCropDrag {
    pub edge: PreviewCropEdge,
    pub source_y: u32,
}

/// A region of the screen.
#[derive(Clone, Copy, Debug)]
pub struct Rect {
    pub x: i32,
    pub y: i32,
    pub width: i32,
    pub height: i32,
}

/// A screen, and whether its place and size are known.
#[derive(Clone, Copy, Debug)]
pub struct OutputInfo {
    pub x: i32,
    pub y: i32,
    pub width: i32,
    pub height: i32,
    pub has_geometry: bool,
}

/// Where the preview lies on the screen.
#[derive(Clone, Copy, Debug)]
pub struct PreviewLayout {
    pub x: i32,
    pub y: i32,
    pub width: u32,
    pub height: u32,
    pub visible: bool,
}

/// The part of the picture that is shown.
#[derive(Clone, Copy, Debug)]
pub struct PreviewViewport {
    pub scaled_height: u32,
    pub scaled_start: u32,
    pub source_start: u32,
    pub source_len: u32,
    pub max_source_start: u32,
}

/// A side of the captured region.
#[derive(Clone, Copy, Debug, PartialEq, Eq, Structural)]
pub enum Side {
    Right,
    Left,
    Bottom,
    Top,
}

/// The smaller of two numbers.
pub open spec fn least(a: int, b: int) -> int {
    if a < b {
        a
    } else {
        b
    }
}

/// The greater of two numbers.
pub open spec fn most(a: int, b: int) -> int {
    if a < b {
        b
    } else {
        a
    }
}

/// What is left of `a` without `b`, at least zero.
pub open spec fn less(a: int, b: int) -> int {
    if a > b {
        a - b
    } else {
        0
    }
}

/// The low 32 bits of a number.
pub open spec fn low_bits(n: int) -> int {
    n % 0x1_0000_0000
}

/// The height of an image scaled to a width, at least one row; only its low 32 bits count.
pub open spec fn scaled_rows(width: int, height: int, target_width: int) -> int {
    if width == 0 || height == 0 {
        1
    } else {
        low_bits(most(height * most(target_width, 1) / width, 1))
    }
}

/// The low 32 bits of a number.
pub fn truncated(n: u64) -> (result: u32)
    ensures
        result == low_bits(n as int),
{
    (n % 0x1_0000_0000) as u32
}

/// The product of two numbers below 2^32.
pub fn wide_product(a: u32, b: u32) -> (result: u64)
    ensures
        result == a * b,
        result <= 0xffff_fffe_0000_0001,
{
    proof {
        assert(a * b <= 0xffff_ffff * 0xffff_ffff) by (nonlinear_arith)
            requires
                0 <= a <= 0xffff_ffff,
                0 <= b <= 0xffff_ffff,
        ;
    }
    a as u64 * b as u64
}

/// The height of an image scaled to a width.
pub fn scale_height_for_width(width: u32, height: u32, target_width: u32) -> (rows: u32)
    ensures
        rows == scaled_rows(width as int, height as int, target_width as int),
{
    if width == 0 || height == 0 {
        return 1;
    }
    let target: u32 = if target_width > 1 {
        target_width
    } else {
        1
    };
    let rows: u64 = wide_product(height, target) / width as u64;
    truncated(if rows > 1 { rows } else { 1 })
}

/// How wide the content of the preview should be.
pub open spec fn desired_width(target: OutputInfo, options: PreviewOptions) -> int {
    if options.zoomed {
        confined(most(target.width as int, 1) * 45 / 100, 240, 720)
    } else {
        most(options.width as int, 1)
    }
}

/// The region of interest seen from the screen it lies on.
pub struct Scene {
    pub x: int,
    pub y: int,
    pub width: int,
    pub height: int,
    pub screen_width: int,
    pub screen_height: int,
}

/// A region seen from a screen.
pub open spec fn scene(geometry: Rect, target: OutputInfo) -> Scene {
    Scene {
        x: geometry.x - target.x,
        y: geometry.y - target.y,
        width: geometry.width as int,
        height: geometry.height as int,
        screen_width: most(target.width as int, 1),
        screen_height: most(target.height as int, 1),
    }
}

impl Scene {
    /// Whether the place of the region can be told from the screen.
    pub open spec fn in_range(self) -> bool {
        &&& i32::MIN <= self.x <= i32::MAX
        &&& i32::MIN <= self.y <= i32::MAX
        &&& i32::MIN <= self.x + self.width <= i32::MAX
        &&& i32::MIN <= self.y + self.height <= i32::MAX
    }

    /// The width available beside the region.
    pub open spec fn room_width(self, side: Side) -> int {
        match side {
            Side::Right => less(
                least(self.screen_width - (self.x + self.width), i32::MAX as int),
                GAP as int,
            ),
            Side::Left => less(self.x, GAP as int),
            _ => self.screen_width,
        }
    }

    /// The height available beside the region.
    pub open spec fn room_height(self, side: Side) -> int {
        match side {
            Side::Bottom => less(
                least(self.screen_height - (self.y + self.height), i32::MAX as int),
                GAP as int,
            ),
            Side::Top => less(self.y, GAP as int),
            _ => most(self.height, 1),
        }
    }

    /// The width of the content on a side.
    pub open spec fn content_width(self, side: Side, desired: int) -> int {
        least(desired, less(self.room_width(side), 2 * PADDING))
    }

    /// Whether the preview has room on a side.
    pub open spec fn has_room(self, side: Side, desired: int) -> bool {
        &&& self.content_width(side, desired) >= 80
        &&& less(self.room_height(side), 2 * PADDING) >= 32
    }

    /// The side on which the preview is shown: the first with room.
    pub open spec fn side(self, desired: int) -> Option<Side> {
        if self.has_room(Side::Right, desired) {
            Some(Side::Right)
        } else if self.has_room(Side::Left, desired) {
            Some(Side::Left)
        } else if self.has_room(Side::Bottom, desired) {
            Some(Side::Bottom)
        } else if self.has_room(Side::Top, desired) {
            Some(Side::Top)
        } else {
            None
        }
    }

    /// The width of the preview on a side.
    pub open spec fn width_on(self, side: Side, desired: int) -> int {
        self.content_width(side, desired) + 2 * PADDING
    }

    /// The height of the preview on a side.
    pub open spec fn height_on(self, side: Side, desired: int, image_width: int, image_height: int) -> int {
        let scaled = scaled_rows(image_width, image_height, self.content_width(side, desired));
        most(least(scaled, less(self.room_height(side), 2 * PADDING)), 1) + 2 * PADDING
    }

    /// Whether the preview, shown on the left or right, is no higher than the screen.
    pub open spec fn fits(self, desired: int, image_width: int, image_height: int) -> bool {
        self.side(desired) matches Some(side) ==> (side == Side::Right || side == Side::Left)
            ==> self.height_on(side, desired, image_width, image_height) <= self.screen_height
    }

    /// Where the preview lies.
    pub open spec fn layout(self, desired: int, image_width: int, image_height: int) -> PreviewLayout {
        match self.side(desired) {
            None => PreviewLayout { x: 0, y: 0, width: 1, height: 1, visible: false },
            Some(side) => {
                let width = self.width_on(side, desired);
                let height = self.height_on(side, desired, image_width, image_height);
                let along_y = confined(self.y, 0, self.screen_height - height);
                let along_x = confined(self.x, 0, self.screen_width - width);
                let (x, y) = match side {
                    Side::Right => (self.x + self.width + GAP, along_y),
                    Side::Left => (self.x - width - GAP, along_y),
                    Side::Bottom => (along_x, self.y + self.height + GAP),
                    Side::Top => (along_x, self.y - height - GAP),
                };
                PreviewLayout {
                    x: x as i32,
                    y: y as i32,
                    width: width as u32,
                    height: height as u32,
                    visible: true,
                }
            },
        }
    }
}

/// The layout keeps the preview on the screen, beside the region and not over it.
pub proof fn lemma_layout_beside(s: Scene, desired: int, image_width: int, image_height: int)
    requires
        s.in_range(),
        s.width > 0,
        s.height > 0,
        s.screen_width <= i32::MAX,
        s.screen_height <= i32::MAX,
        1 <= desired <= u32::MAX,
        0 <= image_width,
        0 <= image_height,
        s.fits(desired, image_width, image_height),
        s.layout(desired, image_width, image_height).visible,
    ensures
        ({
            let l = s.layout(desired, image_width, image_height);
            let side = s.side(desired)->0;
            &&& side == Side::Right ==> l.x >= s.x + s.width && l.x + l.width <= s.screen_width
                && 0 <= l.y && l.y + l.height <= s.screen_height
            &&& side == Side::Left ==> 0 <= l.x && l.x + l.width <= s.x && 0 <= l.y && l.y
                + l.height <= s.screen_height
            &&& side == Side::Bottom ==> l.y >= s.y + s.height && l.y + l.height <= s.screen_height
                && 0 <= l.x && l.x + l.width <= s.screen_width
            &&& side == Side::Top ==> 0 <= l.y && l.y + l.height <= s.y && 0 <= l.x && l.x
                + l.width <= s.screen_width
        }),
{
    let side = s.side(desired)->0;
    assert(s.has_room(side, desired));
    let scaled = scaled_rows(image_width, image_height, s.content_width(side, desired));
    assert(s.height_on(side, desired, image_width, image_height) <= less(
        s.room_height(side),
        2 * PADDING,
    ) + 2 * PADDING);
}

fn saturated(n: i64) -> (result: u32)
    requires
        n <= u32::MAX,
    ensures
        result == most(n as int, 0),
{
    if n < 0 {
        0
    } else {
        n as u32
    }
}

fn capped(n: i64) -> (result: i64)
    ensures
        result == least(n as int, i32::MAX as int),
{
    if n < i32::MAX as i64 {
        n
    } else {
        i32::MAX as i64
    }
}

/// What is left of `a` without `b`, at least zero.
pub fn minus_or_zero(a: u32, b: u32) -> (result: u32)
    ensures
        result == less(a as int, b as int),
{
    if a > b {
        a - b
    } else {
        0
    }
}

/// The smaller of two numbers.
pub fn smaller(a: u32, b: u32) -> (result: u32)
    ensures
        result == least(a as int, b as int),
{
    if a < b {
        a
    } else {
        b
    }
}

/// The greater of two numbers.
pub fn larger(a: u32, b: u32) -> (result: u32)
    ensures
        result == most(a as int, b as int),
{
    if a < b {
        b
    } else {
        a
    }
}

/// How wide the content of the preview should be.
pub fn wanted_width(target: OutputInfo, options: PreviewOptions) -> (width: u32)
    ensures
        width == desired_width(target, options),
        1 <= width,
{
    if options.zoomed {
        let screen: u64 = if target.width > 1 {
            target.width as u64
        } else {
            1
        };
        let share: u64 = screen * 45 / 100;
        if share < 240 {
            240
        } else if share > 720 {
            720
        } else {
            share as u32
        }
    } else {
        larger(options.width, 1)
    }
}

/// The room beside a region: its width and height.
fn room(geometry: Rect, target: OutputInfo, side: Side) -> (result: (u32, u32))
    requires
        scene(geometry, target).in_range(),
    ensures
        result.0 == scene(geometry, target).room_width(side),
        result.1 == scene(geometry, target).room_height(side),
{
    let x: i64 = geometry.x as i64 - target.x as i64;
    let y: i64 = geometry.y as i64 - target.y as i64;
    let screen_width: i64 = if target.width > 1 {
        target.width as i64
    } else {
        1
    };
    let screen_height: i64 = if target.height > 1 {
        target.height as i64
    } else {
        1
    };
    let beside: i64 = if geometry.height > 1 {
        geometry.height as i64
    } else {
        1
    };
    let gap: i64 = GAP as i64;
    match side {
        Side::Right => (
            saturated(capped(screen_width - (x + geometry.width as i64)) - gap),
            beside as u32,
        ),
        Side::Left => (saturated(x - gap), beside as u32),
        Side::Bottom => (
            screen_width as u32,
            saturated(capped(screen_height - (y + geometry.height as i64)) - gap),
        ),
        Side::Top => (screen_width as u32, saturated(y - gap)),
    }
}

/// The size of the preview on a side, if it has room there.
fn size_on(
    geometry: Rect,
    target: OutputInfo,
    side: Side,
    desired: u32,
    image_width: u32,
    image_height: u32,
) -> (size: Option<(u32, u32)>)
    requires
        scene(geometry, target).in_range(),
    ensures
        size is Some <==> scene(geometry, target).has_room(side, desired as int),
        size matches Some(size) ==> {
            &&& size.0 == scene(geometry, target).width_on(side, desired as int)
            &&& size.1 == scene(geometry, target).height_on(
                side,
                desired as int,
                image_width as int,
                image_height as int,
            )
        },
{
    let (room_width, room_height) = room(geometry, target, side);
    let content_width: u32 = smaller(desired, minus_or_zero(room_width, 2 * PADDING));
    if content_width < 80 {
        return None;
    }
    let scaled: u32 = scale_height_for_width(image_width, image_height, content_width);
    let highest: u32 = minus_or_zero(room_height, 2 * PADDING);
    if highest < 32 {
        return None;
    }
    let content_height: u32 = larger(smaller(scaled, highest), 1);
    Some((content_width + 2 * PADDING, content_height + 2 * PADDING))
}

/// The side on which the preview is shown, and its size.
pub fn preview_side(
    geometry: Rect,
    target: OutputInfo,
    image_width: u32,
    image_height: u32,
    options: PreviewOptions,
) -> (found: Option<(Side, u32, u32)>)
    requires
        scene(geometry, target).in_range(),
    ensures
        ({
            let s = scene(geometry, target);
            let desired = desired_width(target, options);
            match found {
                None => s.side(desired) is None,
                Some((side, width, height)) => {
                    &&& s.side(desired) == Some(side)
                    &&& width == s.width_on(side, desired)
                    &&& height == s.height_on(
                        side,
                        desired,
                        image_width as int,
                        image_height as int,
                    )
                },
            }
        }),
{
    let desired: u32 = wanted_width(target, options);
    if let Some((w, h)) = size_on(
        geometry,
        target,
        Side::Right,
        desired,
        image_width,
        image_height,
    ) {
        return Some((Side::Right, w, h));
    }
    if let Some((w, h)) = size_on(
        geometry,
        target,
        Side::Left,
        desired,
        image_width,
        image_height,
    ) {
        return Some((Side::Left, w, h));
    }
    if let Some((w, h)) = size_on(
        geometry,
        target,
        Side::Bottom,
        desired,
        image_width,
        image_height,
    ) {
        return Some((Side::Bottom, w, h));
    }
    if let Some((w, h)) = size_on(
        geometry,
        target,
        Side::Top,
        desired,
        image_width,
        image_height,
    ) {
        return Some((Side::Top, w, h));
    }
    None
}

fn brought(n: i64, low: i64, high: i64) -> (result: i64)
    ensures
        result == confined(n as int, low as int, high as int),
{
    if n < low {
        low
    } else if n > high {
        high
    } else {
        n
    }
}

/// Where the preview lies.
pub fn preview_layout(
    geometry: Rect,
    target: OutputInfo,
    image_width: u32,
    image_height: u32,
    options: PreviewOptions,
) -> (layout: PreviewLayout)
    requires
        scene(geometry, target).in_range(),
        scene(geometry, target).fits(
            desired_width(target, options),
            image_width as int,
            image_height as int,
        ),
    ensures
        layout == scene(geometry, target).layout(
            desired_width(target, options),
            image_width as int,
            image_height as int,
        ),
{
    match preview_side(geometry, target, image_width, image_height, options) {
        None => PreviewLayout { x: 0, y: 0, width: 1, height: 1, visible: false },
        Some((side, width, height)) => {
            proof {
                assert(scene(geometry, target).has_room(side, desired_width(target, options)));
            }
            let local_x: i64 = geometry.x as i64 - target.x as i64;
            let local_y: i64 = geometry.y as i64 - target.y as i64;
            let right: i64 = local_x + geometry.width as i64;
            let low: i64 = local_y + geometry.height as i64;
            let screen_width: i64 = if target.width > 1 {
                target.width as i64
            } else {
                1
            };
            let screen_height: i64 = if target.height > 1 {
                target.height as i64
            } else {
                1
            };
            let gap: i64 = GAP as i64;
            let along_y: i64 = brought(local_y, 0, screen_height - height as i64);
            let along_x: i64 = brought(local_x, 0, screen_width - width as i64);
            let (x, y): (i64, i64) = match side {
                Side::Right => (right + gap, along_y),
                Side::Left => (local_x - width as i64 - gap, along_y),
                Side::Bottom => (along_x, low + gap),
                Side::Top => (along_x, local_y - height as i64 - gap),
            };
            PreviewLayout { x: x as i32, y: y as i32, width, height, visible: true }
        },
    }
}

/// The part of a picture that is shown in a space of the given size.
pub open spec fn viewport_of(
    width: int,
    height: int,
    draw_width: int,
    draw_height: int,
    source_pos: int,
    frame_len: int,
    edge: PreviewEdge,
) -> PreviewViewport {
    let scaled = scaled_rows(width, height, draw_width);
    let visible = most(least(draw_height, scaled), 1);
    let source_len = least(most(visible * height / scaled, 1), height);
    let max_start = height - source_len;
    let wanted = if edge == PreviewEdge::End {
        less(least(source_pos + frame_len, u32::MAX as int), source_len)
    } else {
        source_pos
    };
    let source_start = least(wanted, max_start);
    PreviewViewport {
        scaled_height: scaled as u32,
        scaled_start: least(source_start * scaled / height, less(scaled, draw_height)) as u32,
        source_start: source_start as u32,
        source_len: source_len as u32,
        max_source_start: max_start as u32,
    }
}

/// The part shown lies inside the picture.
pub open spec fn viewport_inside(v: PreviewViewport, height: int) -> bool {
    &&& v.source_start <= v.max_source_start
    &&& v.max_source_start + v.source_len == height
    &&& 1 <= v.source_len
    &&& v.scaled_start <= v.scaled_height
}

/// The part of an image that is shown in a space of the given size.
pub fn preview_viewport(
    image: &Image,
    draw_width: u32,
    draw_height: u32,
    source_pos: u32,
    frame_len: u32,
    edge: PreviewEdge,
) -> (viewport: PreviewViewport)
    requires
        image@.height > 0,
        scaled_rows(image@.width as int, image@.height as int, draw_width as int) > 0,
    ensures
        viewport == viewport_of(
            image@.width as int,
            image@.height as int,
            draw_width as int,
            draw_height as int,
            source_pos as int,
            frame_len as int,
            edge,
        ),
        viewport_inside(viewport, image@.height as int),
        viewport.scaled_height > 0,
        viewport.scaled_start <= less(viewport.scaled_height as int, draw_height as int),
{
    let height: u32 = image.height();
    let scaled: u32 = scale_height_for_width(image.width(), height, draw_width);
    let visible: u32 = larger(smaller(draw_height, scaled), 1);
    let span: u64 = wide_product(visible, height) / scaled as u64;
    let source_len: u32 = if span > height as u64 {
        height
    } else if span > 1 {
        span as u32
    } else {
        1
    };
    let max_start: u32 = height - source_len;
    let wanted: u32 = match edge {
        PreviewEdge::End => {
            let end: u64 = source_pos as u64 + frame_len as u64;
            let capped_end: u32 = if end < u32::MAX as u64 {
                end as u32
            } else {
                u32::MAX
            };
            minus_or_zero(capped_end, source_len)
        },
        _ => source_pos,
    };
    let source_start: u32 = smaller(wanted, max_start);
    let start: u64 = wide_product(source_start, scaled) / height as u64;
    let max_scaled: u32 = minus_or_zero(scaled, draw_height);
    let scaled_start: u32 = if start < max_scaled as u64 {
        start as u32
    } else {
        max_scaled
    };
    PreviewViewport {
        scaled_height: scaled,
        scaled_start,
        source_start,
        source_len,
        max_source_start: max_start,
    }
}

/// The row of the preview at which a row of the picture is drawn.
pub open spec fn drawn_row(source_y: int, start: int, len: int, draw_height: int) -> int {
    if len == 0 {
        0
    } else {
        least(least(less(source_y, start), len) * draw_height / len, less(draw_height, 1))
    }
}

/// The row of the preview at which a row of the picture is drawn.
pub fn source_to_draw_y(source_y: u32, viewport_start: u32, viewport_len: u32, draw_height: u32) -> (row:
    u32)
    ensures
        row == drawn_row(
            source_y as int,
            viewport_start as int,
            viewport_len as int,
            draw_height as int,
        ),
        row <= draw_height,
{
    if viewport_len == 0 {
        return 0;
    }
    let relative: u32 = smaller(minus_or_zero(source_y, viewport_start), viewport_len);
    let row: u64 = wide_product(relative, draw_height) / viewport_len as u64;
    let last: u32 = minus_or_zero(draw_height, 1);
    if row < last as u64 {
        row as u32
    } else {
        last
    }
}

/// How many rows of the preview a span of the picture takes, at least one.
pub open spec fn drawn_rows(from: int, to: int, start: int, len: int, draw_height: int) -> int {
    most(less(drawn_row(to, start, len, draw_height), drawn_row(from, start, len, draw_height)), 1)
}

/// How many rows of the preview a span of the picture takes, at least one.
pub fn source_span_to_draw_len(
    start: u32,
    end: u32,
    viewport_start: u32,
    viewport_len: u32,
    draw_height: u32,
) -> (rows: u32)
    ensures
        rows == drawn_rows(
            start as int,
            end as int,
            viewport_start as int,
            viewport_len as int,
            draw_height as int,
        ),
        rows <= draw_height || rows == 1,
{
    let from: u32 = source_to_draw_y(start, viewport_start, viewport_len, draw_height);
    let to: u32 = source_to_draw_y(end, viewport_start, viewport_len, draw_height);
    larger(minus_or_zero(to, from), 1)
}

/// How the pointer meets the preview that is shown.
#[derive(Clone, Copy, Debug)]
pub struct PreviewInteraction {
    pub image_height: u32,
    pub padding: u32,
    pub content_width: u32,
    pub content_height: u32,
    pub viewport: PreviewViewport,
    pub crop_top: u32,
    pub crop_bottom: u32,
    pub crop_enabled: bool,
}

/// The space for the content of a preview of the given length.
pub open spec fn content_length(length: int) -> int {
    most(less(length, 2 * PADDING), 1)
}

/// The space for the content of a preview of the given length.
pub fn content_of(length: u32) -> (result: u32)
    ensures
        result == content_length(length as int),
        1 <= result,
{
    larger(minus_or_zero(length, 2 * PADDING), 1)
}

/// How the pointer meets a preview of the given size.
pub open spec fn interaction_of(
    image: Picture,
    width: int,
    height: int,
    options: PreviewOptions,
) -> PreviewInteraction {
    PreviewInteraction {
        image_height: image.height as u32,
        padding: PADDING,
        content_width: content_length(width) as u32,
        content_height: content_length(height) as u32,
        viewport: viewport_of(
            image.width as int,
            image.height as int,
            content_length(width),
            content_length(height),
            options.source_pos as int,
            options.frame_len as int,
            options.edge,
        ),
        crop_top: options.crop_top,
        crop_bottom: options.crop_bottom,
        crop_enabled: options.crop_enabled,
    }
}

/// How the pointer meets a preview of the given size.
pub fn preview_interaction(image: &Image, width: u32, height: u32, options: PreviewOptions) -> (interaction:
    PreviewInteraction)
    requires
        image@.height > 0,
        scaled_rows(image@.width as int, image@.height as int, content_length(width as int)) > 0,
    ensures
        interaction == interaction_of(image@, width as int, height as int, options),
{
    let content_width: u32 = content_of(width);
    let content_height: u32 = content_of(height);
    let viewport = preview_viewport(
        image,
        content_width,
        content_height,
        options.source_pos,
        options.frame_len,
        options.edge,
    );
    PreviewInteraction {
        image_height: image.height(),
        padding: PADDING,
        content_width,
        content_height,
        viewport,
        crop_top: options.crop_top,
        crop_bottom: options.crop_bottom,
        crop_enabled: options.crop_enabled,
    }
}

/// The row of the picture that the lower crop handle stands at.
pub open spec fn lower_handle(crop_top: int, crop_bottom: int, image_height: int) -> int {
    most(less(image_height, crop_bottom), least(crop_top + 1, u32::MAX as int))
}

/// The row of the picture that the lower crop handle stands at.
pub fn bottom_source_from_crop(crop_top: u32, crop_bottom: u32, interaction: PreviewInteraction) -> (source:
    u32)
    ensures
        source == lower_handle(
            crop_top as int,
            crop_bottom as int,
            interaction.image_height as int,
        ),
{
    let after: u32 = if crop_top < u32::MAX {
        crop_top + 1
    } else {
        u32::MAX
    };
    larger(minus_or_zero(interaction.image_height, crop_bottom), after)
}

/// The row of the content at which a row of the picture is seen, if it is.
pub open spec fn seen_row(interaction: PreviewInteraction, source_y: int) -> Option<int> {
    let start = interaction.viewport.source_start as int;
    let end = least(start + interaction.viewport.source_len, u32::MAX as int);
    if start <= source_y <= end {
        Some(
            drawn_row(
                source_y,
                start,
                interaction.viewport.source_len as int,
                interaction.content_height as int,
            ),
        )
    } else {
        None
    }
}

/// The end of a span, as far as it can be counted.
pub fn end_of(start: u32, len: u32) -> (end: u32)
    ensures
        end == least(start + len, u32::MAX as int),
{
    if len < u32::MAX - start {
        start + len
    } else {
        u32::MAX
    }
}

/// The row of the content at which a row of the picture is seen, if it is.
pub fn crop_source_to_pointer_y(interaction: PreviewInteraction, source_y: u32) -> (row: Option<u32>)
    ensures
        row is Some <==> seen_row(interaction, source_y as int) is Some,
        row matches Some(row) ==> Some(row as int) == seen_row(interaction, source_y as int) && row
            <= interaction.content_height,
{
    let start: u32 = interaction.viewport.source_start;
    let end: u32 = end_of(start, interaction.viewport.source_len);
    if source_y < start || source_y > end {
        return None;
    }
    Some(
        source_to_draw_y(
            source_y,
            start,
            interaction.viewport.source_len,
            interaction.content_height,
        ),
    )
}

} // verus!
