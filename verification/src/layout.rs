//! Where the preview lies and which rows of the picture it shows.

use crate::preview::{
    content_length, desired_width, drawn_row, drawn_rows, interaction_of, lower_handle, scaled_rows, seen_row,
    viewport_of, OutputInfo, PreviewEdge, PreviewInteraction, PreviewOptions, Scene, Side,
};
use crate::raster::Picture;
use crate::search::Edge;
use crate::view::followed_edge;
use vstd::prelude::*;

verus! {

/// A quotient is as large as it can be.
proof fn lemma_divided(n: int, d: int)
    requires
        0 <= n,
        0 < d,
    ensures
        0 <= n / d,
        (n / d) * d <= n < (n / d + 1) * d,
{
    vstd::arithmetic::div_mod::lemma_fundamental_div_mod(n, d);
    vstd::arithmetic::div_mod::lemma_mod_bound(n, d);
    assert((n / d) * d <= n < (n / d + 1) * d) by (nonlinear_arith)
        requires
            n == d * (n / d) + n % d,
            0 <= n % d < d,
    ;
    assert(0 <= n / d) by (nonlinear_arith)
        requires
            0 <= n,
            n < (n / d + 1) * d,
            0 < d,
    ;
}

/// An image scaled to a width keeps its shape, to the row, and has at least one row.
pub proof fn lemma_scaled(width: int, height: int, target_width: int)
    requires
        0 < width,
        0 < height,
        0 < target_width,
        height * target_width < 0x1_0000_0000 * width,
    ensures
        ({
            let rows = scaled_rows(width, height, target_width);
            &&& 1 <= rows
            &&& rows * width <= height * target_width || rows == 1
            &&& height * target_width < (rows + 1) * width
            &&& height * target_width < width ==> rows == 1
        }),
{
    let n = height * target_width;
    assert(0 <= n) by (nonlinear_arith)
        requires
            n == height * target_width,
            0 < height,
            0 < target_width,
    ;
    lemma_divided(n, width);
    let q = n / width;
    assert(q < 0x1_0000_0000) by (nonlinear_arith)
        requires
            q * width <= n,
            n < 0x1_0000_0000 * width,
            0 < width,
    ;
    if q < 1 {
        assert(n < (1 + 1) * width) by (nonlinear_arith)
            requires
                n < (q + 1) * width,
                q < 1,
                0 < width,
        ;
    } else {
        assert(n >= width) by (nonlinear_arith)
            requires
                q * width <= n,
                q >= 1,
                0 < width,
        ;
    }
}

/// An image is shown as it is at its own width.
pub proof fn lemma_scaled_to_itself(width: int, height: int)
    requires
        0 < width,
        0 < height < 0x1_0000_0000,
    ensures
        scaled_rows(width, height, width) == height,
{
    assert(height * width / width == height) by (nonlinear_arith)
        requires
            0 < width,
    ;
}

/// The content is as wide as asked for; zoomed it takes 45 hundredths of the screen, between 240
/// and 720.
pub proof fn lemma_desired_width(target: OutputInfo, options: PreviewOptions)
    ensures
        ({
            let width = desired_width(target, options);
            &&& !options.zoomed && options.width > 0 ==> width == options.width
            &&& !options.zoomed && options.width == 0 ==> width == 1
            &&& options.zoomed ==> 240 <= width <= 720
            &&& options.zoomed && 240 < width < 720 ==> width * 100 <= target.width * 45 < (width
                + 1) * 100
            &&& options.zoomed && target.width * 45 >= 72000 ==> width == 720
            &&& options.zoomed && target.width * 45 < 24100 ==> width == 240
        }),
{
}

/// The preview has room on a side if eighty columns and thirty-two rows of content fit there, with
/// eight pixels around them and ten from the region.
pub proof fn lemma_room(s: Scene, desired: int)
    requires
        s.in_range(),
        1 <= s.screen_width <= i32::MAX,
        1 <= s.screen_height <= i32::MAX,
        1 <= desired,
    ensures
        s.has_room(Side::Right, desired) <==> desired >= 80 && s.screen_width - (s.x + s.width)
            >= 106 && s.height >= 48,
        s.has_room(Side::Left, desired) <==> desired >= 80 && s.x >= 106 && s.height >= 48,
        s.has_room(Side::Bottom, desired) <==> desired >= 80 && s.screen_width >= 96
            && s.screen_height - (s.y + s.height) >= 58,
        s.has_room(Side::Top, desired) <==> desired >= 80 && s.screen_width >= 96 && s.y >= 58,
{
}

/// The preview is shown on the right of the region if it has room there, else on the left, below
/// or above it, and not at all where it has room nowhere.
pub proof fn lemma_side(s: Scene, desired: int, image_width: int, image_height: int)
    ensures
        ({
            let l = s.layout(desired, image_width, image_height);
            let right = s.has_room(Side::Right, desired);
            let left = s.has_room(Side::Left, desired);
            let bottom = s.has_room(Side::Bottom, desired);
            let top = s.has_room(Side::Top, desired);
            &&& right ==> s.side(desired) == Some(Side::Right)
            &&& !right && left ==> s.side(desired) == Some(Side::Left)
            &&& !right && !left && bottom ==> s.side(desired) == Some(Side::Bottom)
            &&& !right && !left && !bottom && top ==> s.side(desired) == Some(Side::Top)
            &&& l.visible <==> right || left || bottom || top
        }),
{
}

/// The preview lies ten pixels beside the region and is lined up with it as far as the screen
/// goes.
pub proof fn lemma_lined_up(s: Scene, desired: int, image_width: int, image_height: int)
    requires
        s.in_range(),
        s.width > 0,
        s.height > 0,
        1 <= s.screen_width <= i32::MAX,
        1 <= s.screen_height <= i32::MAX,
        1 <= desired <= u32::MAX,
        0 <= image_width,
        0 <= image_height,
        s.fits(desired, image_width, image_height),
        s.layout(desired, image_width, image_height).visible,
    ensures
        ({
            let l = s.layout(desired, image_width, image_height);
            let side = s.side(desired)->0;
            let beside = side == Side::Right || side == Side::Left;
            &&& side == Side::Right ==> l.x == s.x + s.width + 10
            &&& side == Side::Left ==> l.x + l.width + 10 == s.x
            &&& side == Side::Bottom ==> l.y == s.y + s.height + 10
            &&& side == Side::Top ==> l.y + l.height + 10 == s.y
            &&& beside && 0 <= s.y && s.y + l.height <= s.screen_height ==> l.y == s.y
            &&& beside && s.y < 0 ==> l.y == 0
            &&& beside && s.y >= 0 && s.y + l.height > s.screen_height ==> l.y + l.height
                == s.screen_height
            &&& !beside && 0 <= s.x && s.x + l.width <= s.screen_width ==> l.x == s.x
            &&& !beside && s.x < 0 ==> l.x == 0
            &&& !beside && s.x >= 0 && s.x + l.width > s.screen_width ==> l.x + l.width
                == s.screen_width
        }),
{
    crate::preview::lemma_layout_beside(s, desired, image_width, image_height);
    assert(s.has_room(s.side(desired)->0, desired));
}

/// The preview is as wide as asked for, with eight pixels on both sides, or fills the space beside
/// the region; it is as high as the image scaled to that width, with eight pixels above and
/// below, or fills the height.
pub proof fn lemma_size(s: Scene, desired: int, image_width: int, image_height: int)
    requires
        s.in_range(),
        s.width > 0,
        s.height > 0,
        1 <= s.screen_width <= i32::MAX,
        1 <= s.screen_height <= i32::MAX,
        1 <= desired <= u32::MAX,
        0 <= image_width,
        0 <= image_height,
        s.fits(desired, image_width, image_height),
        s.layout(desired, image_width, image_height).visible,
    ensures
        ({
            let l = s.layout(desired, image_width, image_height);
            let side = s.side(desired)->0;
            let scaled = scaled_rows(image_width, image_height, l.width - 16);
            let rows = match side {
                Side::Bottom => s.screen_height - (s.y + s.height) - 10,
                Side::Top => s.y - 10,
                _ => s.height,
            };
            let columns = match side {
                Side::Right => s.screen_width - (s.x + s.width) - 10,
                Side::Left => s.x - 10,
                _ => s.screen_width,
            };
            &&& l.width <= desired + 16
            &&& columns <= i32::MAX - 10 ==> l.width <= columns
            &&& columns <= i32::MAX - 10 ==> l.width == desired + 16 || l.width == columns
            &&& 1 <= scaled <= rows - 16 && rows <= i32::MAX - 10 ==> l.height == scaled + 16
            &&& scaled > rows - 16 && rows <= i32::MAX - 10 ==> l.height == rows
        }),
{
    assert(s.has_room(s.side(desired)->0, desired));
}

/// A picture that fits is shown whole.
pub proof fn lemma_shown_whole(
    width: int,
    height: int,
    draw_width: int,
    draw_height: int,
    source_pos: int,
    frame_len: int,
    edge: PreviewEdge,
)
    requires
        0 < height <= u32::MAX,
        0 < scaled_rows(width, height, draw_width) <= draw_height,
        0 <= source_pos,
        0 <= frame_len,
    ensures
        ({
            let v = viewport_of(
                width,
                height,
                draw_width,
                draw_height,
                source_pos,
                frame_len,
                edge,
            );
            &&& v.source_start == 0
            &&& v.source_len == height
            &&& v.max_source_start == 0
            &&& v.scaled_start == 0
            &&& v.scaled_height == scaled_rows(width, height, draw_width)
        }),
{
    let scaled = scaled_rows(width, height, draw_width);
    assert(scaled * height / scaled == height) by (nonlinear_arith)
        requires
            0 < scaled,
    ;
    assert(0 * scaled / height == 0) by (nonlinear_arith)
        requires
            0 < height,
    ;
}

/// Of a picture that does not fit, as many rows are shown as fit. They begin with the place asked
/// for; where the end is followed, they end with the frame there. They stay in the picture.
pub proof fn lemma_shown_part(
    width: int,
    height: int,
    draw_width: int,
    draw_height: int,
    source_pos: int,
    frame_len: int,
    edge: PreviewEdge,
)
    requires
        0 < height <= u32::MAX,
        0 < draw_height < scaled_rows(width, height, draw_width),
        0 <= source_pos <= u32::MAX,
        0 <= frame_len <= u32::MAX,
    ensures
        ({
            let v = viewport_of(
                width,
                height,
                draw_width,
                draw_height,
                source_pos,
                frame_len,
                edge,
            );
            let scaled = scaled_rows(width, height, draw_width);
            &&& 1 <= v.source_len <= height
            &&& v.source_len * scaled <= draw_height * height || v.source_len == 1
            &&& draw_height * height < (v.source_len + 1) * scaled
            &&& v.max_source_start + v.source_len == height
            &&& v.source_start + v.source_len <= height
            &&& edge != PreviewEdge::End && source_pos + v.source_len <= height ==> v.source_start
                == source_pos
            &&& edge != PreviewEdge::End && source_pos + v.source_len > height ==> v.source_start
                + v.source_len == height
            &&& edge == PreviewEdge::End && v.source_len <= source_pos + frame_len <= height
                ==> v.source_start + v.source_len == source_pos + frame_len
            &&& edge == PreviewEdge::End && source_pos + frame_len < v.source_len
                ==> v.source_start == 0
            &&& edge == PreviewEdge::End && source_pos + frame_len > height ==> v.source_start
                + v.source_len == height
            &&& v.scaled_height == scaled
            &&& v.scaled_start + draw_height <= scaled
            &&& v.scaled_start * height <= v.source_start * scaled
            &&& v.scaled_start + draw_height < scaled ==> v.source_start * scaled < (v.scaled_start
                + 1) * height
        }),
{
    let scaled = scaled_rows(width, height, draw_width);
    let n = draw_height * height;
    assert(0 < n && n < scaled * height) by (nonlinear_arith)
        requires
            n == draw_height * height,
            0 < draw_height < scaled,
            0 < height,
    ;
    lemma_divided(n, scaled);
    let q = n / scaled;
    assert(q < height) by (nonlinear_arith)
        requires
            q * scaled <= n,
            n < scaled * height,
            0 < scaled,
    ;
    if q < 1 {
        assert(n < (1 + 1) * scaled) by (nonlinear_arith)
            requires
                n < (q + 1) * scaled,
                q < 1,
                0 < scaled,
        ;
    }
    let v = viewport_of(width, height, draw_width, draw_height, source_pos, frame_len, edge);
    let start = v.source_start as int;
    let m = start * scaled;
    assert(0 <= m) by (nonlinear_arith)
        requires
            m == start * scaled,
            0 <= start,
            0 < scaled,
    ;
    lemma_divided(m, height);
    assert(m / height <= scaled) by (nonlinear_arith)
        requires
            (m / height) * height <= m,
            m == start * scaled,
            start <= height,
            0 < height,
            0 < scaled,
    ;
    let k = v.scaled_start as int;
    if k < m / height {
        assert(k * height <= (m / height) * height) by (nonlinear_arith)
            requires
                k < m / height,
                0 < height,
        ;
    }
}

/// The rows of the picture that are shown are drawn from top to bottom over the whole height.
pub proof fn lemma_drawn_in_order(a: int, b: int, start: int, len: int, draw_height: int)
    requires
        a <= b,
        0 < len,
        0 < draw_height,
    ensures
        drawn_row(a, start, len, draw_height) <= drawn_row(b, start, len, draw_height),
        0 <= drawn_row(a, start, len, draw_height) < draw_height,
        a <= start ==> drawn_row(a, start, len, draw_height) == 0,
        a >= start + len ==> drawn_row(a, start, len, draw_height) == draw_height - 1,
        start <= a < start + len ==> {
            let row = drawn_row(a, start, len, draw_height);
            row * len <= (a - start) * draw_height < (row + 1) * len
        },
{
    let x = if a < start {
        0
    } else if a - start < len {
        a - start
    } else {
        len
    };
    let y = if b < start {
        0
    } else if b - start < len {
        b - start
    } else {
        len
    };
    let m = x * draw_height;
    let n = y * draw_height;
    assert(0 <= m && m <= n && n <= len * draw_height) by (nonlinear_arith)
        requires
            m == x * draw_height,
            n == y * draw_height,
            0 <= x <= y,
            y <= len,
            0 < draw_height,
    ;
    lemma_divided(m, len);
    lemma_divided(n, len);
    assert(m / len <= n / len) by (nonlinear_arith)
        requires
            (m / len) * len <= m,
            m <= n,
            n < (n / len + 1) * len,
            0 < len,
    ;
    if x == 0 {
        assert(m / len == 0) by (nonlinear_arith)
            requires
                m == 0,
                0 < len,
        ;
    }
    if x == len {
        assert(m / len == draw_height) by (nonlinear_arith)
            requires
                m == len * draw_height,
                0 < len,
        ;
    } else {
        assert(m / len < draw_height) by (nonlinear_arith)
            requires
                (m / len) * len <= m,
                m == x * draw_height,
                x < len,
                0 < len,
                0 < draw_height,
        ;
    }
}

/// A span of the picture takes the rows between those at which it begins and ends, at least one.
pub proof fn lemma_span_drawn(from: int, to: int, start: int, len: int, draw_height: int)
    requires
        from <= to,
        0 < len,
        0 < draw_height,
    ensures
        ({
            let rows = drawn_rows(from, to, start, len, draw_height);
            let first = drawn_row(from, start, len, draw_height);
            let last = drawn_row(to, start, len, draw_height);
            &&& rows >= 1
            &&& first < last ==> first + rows == last
            &&& first == last ==> rows == 1
        }),
{
    lemma_drawn_in_order(from, to, start, len, draw_height);
}

/// The content has eight pixels less on each side than the preview.
pub proof fn lemma_content_length(length: int)
    ensures
        length > 16 ==> content_length(length) + 16 == length,
        length <= 16 ==> content_length(length) == 1,
{
}

/// The lower handle stands after the last row that is left, below the upper one.
pub proof fn lemma_lower_handle(crop_top: int, crop_bottom: int, image_height: int)
    requires
        0 <= crop_top,
        0 <= crop_bottom,
        crop_top + crop_bottom < image_height <= u32::MAX,
    ensures
        lower_handle(crop_top, crop_bottom, image_height) + crop_bottom == image_height,
        lower_handle(crop_top, crop_bottom, image_height) > crop_top,
{
}

/// A row of the picture is seen if and only if it lies in the part that is shown, or right below
/// it.
pub proof fn lemma_seen(interaction: PreviewInteraction, source_y: int)
    requires
        interaction.viewport.source_start + interaction.viewport.source_len <= u32::MAX,
    ensures
        seen_row(interaction, source_y) is Some <==> interaction.viewport.source_start <= source_y
            <= interaction.viewport.source_start + interaction.viewport.source_len,
        seen_row(interaction, source_y) matches Some(row) ==> row == drawn_row(
            source_y,
            interaction.viewport.source_start as int,
            interaction.viewport.source_len as int,
            interaction.content_height as int,
        ),
{
}

/// The pointer meets the preview where it is drawn: eight pixels inside, over the rows that are
/// shown.
pub proof fn lemma_met(image: Picture, width: int, height: int, options: PreviewOptions)
    requires
        17 <= width <= u32::MAX,
        17 <= height <= u32::MAX,
        image.height <= u32::MAX,
    ensures
        ({
            let i = interaction_of(image, width, height, options);
            &&& i.padding == 8
            &&& i.content_width == width - 16
            &&& i.content_height == height - 16
            &&& i.image_height == image.height
            &&& i.crop_top == options.crop_top
            &&& i.crop_bottom == options.crop_bottom
            &&& i.crop_enabled == options.crop_enabled
            &&& i.viewport == viewport_of(
                image.width as int,
                image.height as int,
                width - 16,
                height - 16,
                options.source_pos as int,
                options.frame_len as int,
                options.edge,
            )
        }),
{
}

/// The preview follows the end at which the picture grows.
pub proof fn lemma_edge_followed(edge: Edge)
    ensures
        edge == Edge::Start ==> followed_edge(Some(edge)) == PreviewEdge::Start,
        edge == Edge::End ==> followed_edge(Some(edge)) == PreviewEdge::End,
        followed_edge(None) != PreviewEdge::Start && followed_edge(None) != PreviewEdge::End,
{
}

} // verus!
