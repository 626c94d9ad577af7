use wl_longshot::canvas::{
    clear, draw_box, draw_rounded_rect_outline, fill_rect, fill_rounded_rect,
    is_rounded_rect_edge, put_argb_pixel, put_argb_pixel_checked, rounded_rect_contains, stroke_line, stroke_rect,
    stroke_rounded_rect, tinted,
};
use wl_longshot::drawing::{
    draw_crop_handle, draw_crop_overlay, draw_preview_image, draw_preview_position_indicator, Slot,
};
use wl_longshot::preview::{PreviewEdge, PreviewOptions, PreviewViewport};
use wl_longshot::raster::{copy_rows, join_rows, pad_width, Image};
use wl_longshot::single::Single;

fn single(value: f32) -> Single {
    Single::from_bits(value.to_bits()).unwrap()
}

fn filled(width: u32, height: u32, color: [u8; 4]) -> Image {
    let mut image = Image::new(width, height);
    for y in 0..height {
        for x in 0..width {
            image.put_pixel(x, y, color);
        }
    }
    image
}

fn painted(canvas: &Image) -> Vec<(u32, u32)> {
    let mut pixels = Vec::new();
    for y in 0..canvas.height() {
        for x in 0..canvas.width() {
            if canvas.get_pixel(x, y) != [0, 0, 0, 0] {
                pixels.push((x, y));
            }
        }
    }
    pixels
}

#[test]
fn bytes_must_fill_an_image() {
    assert!(Image::from_raw(2, 1, vec![0; 7]).is_none());
    assert!(Image::from_raw(2, 1, vec![0; 9]).is_none());
    let image = Image::from_raw(2, 1, vec![1, 2, 3, 4, 5, 6, 7, 8]).unwrap();
    assert_eq!(image.get_pixel(1, 0), [5, 6, 7, 8]);
    assert_eq!(image.clone().into_raw(), vec![1, 2, 3, 4, 5, 6, 7, 8]);
}

#[test]
fn widening_keeps_pixels() {
    let image = filled(2, 2, [9, 8, 7, 6]);
    let wide = pad_width(&image, 3);
    assert_eq!((wide.width(), wide.height()), (3, 2));
    assert_eq!(wide.get_pixel(1, 1), [9, 8, 7, 6]);
    assert_eq!(wide.get_pixel(2, 1), [0, 0, 0, 0]);
    assert_eq!(pad_width(&image, 1).as_raw(), image.as_raw());
}

#[test]
fn rows_are_joined_and_cut() {
    let upper = filled(1, 2, [1, 1, 1, 1]);
    let lower = filled(1, 3, [2, 2, 2, 2]);
    let joined = join_rows(&upper, &lower, 1, 3, true);
    assert_eq!(joined.height(), 4);
    assert_eq!(joined.get_pixel(0, 1), [1, 1, 1, 1]);
    assert_eq!(joined.get_pixel(0, 2), [2, 2, 2, 2]);
    let joined = join_rows(&upper, &lower, 0, 1, false);
    assert_eq!(joined.height(), 3);
    assert_eq!(joined.get_pixel(0, 0), [2, 2, 2, 2]);
    assert_eq!(joined.get_pixel(0, 1), [1, 1, 1, 1]);
    assert_eq!(copy_rows(&joined, 1, 3).as_raw(), upper.as_raw());
}

#[test]
fn colors_are_multiplied_by_alpha() {
    let mut canvas = Image::new(2, 2);
    put_argb_pixel(&mut canvas, 1, 0, [200, 100, 50, 128]);
    assert_eq!(canvas.get_pixel(1, 0), [25, 50, 100, 128]);
    assert_eq!(painted(&canvas), vec![(1, 0)]);
    put_argb_pixel_checked(&mut canvas, -1, 0, [200, 100, 50, 128]);
    put_argb_pixel_checked(&mut canvas, 0, 2, [200, 100, 50, 128]);
    assert_eq!(painted(&canvas), vec![(1, 0)]);
    put_argb_pixel_checked(&mut canvas, 0, 1, [200, 100, 50, 128]);
    assert_eq!(painted(&canvas), vec![(1, 0), (0, 1)]);
    assert_eq!(tinted([1, 2, 3], 4), [1, 2, 3, 4]);
    clear(&mut canvas);
    assert_eq!(painted(&canvas), vec![]);
}

#[test]
fn rectangles_are_cut_at_the_canvas() {
    let mut canvas = Image::new(4, 3);
    fill_rect(&mut canvas, 2, 1, 10, 10, [255, 255, 255, 255]);
    assert_eq!(painted(&canvas), vec![(2, 1), (3, 1), (2, 2), (3, 2)]);
    fill_rect(&mut canvas, 9, 9, 1, 1, [255, 255, 255, 255]);
    assert_eq!(painted(&canvas).len(), 4);
}

#[test]
fn corners_are_rounded() {
    assert!(!rounded_rect_contains(0, 0, 10, 10, 4));
    assert!(rounded_rect_contains(1, 2, 10, 10, 4));
    assert!(rounded_rect_contains(4, 0, 10, 10, 4));
    assert!(rounded_rect_contains(0, 0, 10, 10, 0));
    assert!(is_rounded_rect_edge(4, 0, 10, 10, 4));
    assert!(!is_rounded_rect_edge(4, 4, 10, 10, 4));
    assert!(is_rounded_rect_edge(1, 1, 2, 9, 1));
    let mut canvas = Image::new(10, 10);
    fill_rounded_rect(&mut canvas, 0, 0, 10, 10, 99, [255, 0, 0, 255]);
    assert_eq!(canvas.get_pixel(0, 0), [0, 0, 0, 0]);
    assert_eq!(canvas.get_pixel(5, 1), [0, 0, 255, 255]);
    let mut rim = Image::new(10, 10);
    draw_rounded_rect_outline(&mut rim, 0, 0, 10, 10, 4, [255, 0, 0, 255]);
    assert_eq!(rim.get_pixel(5, 5), [0, 0, 0, 0]);
    assert_eq!(rim.get_pixel(5, 9), [0, 0, 255, 255]);
    let mut twice = Image::new(10, 10);
    stroke_rounded_rect(&mut twice, 0, 0, 10, 10, 2, 4, [255, 0, 0, 255]);
    assert_eq!(twice.get_pixel(5, 1), [0, 0, 255, 255]);
    assert_eq!(twice.get_pixel(5, 2), [0, 0, 0, 0]);
}

#[test]
fn lines_are_level_or_upright() {
    let color = [255, 255, 255, 255];
    let mut canvas = Image::new(8, 8);
    stroke_line(&mut canvas, single(2.5), single(4.0), single(2.5), single(2.4), 1, color);
    assert_eq!(painted(&canvas), vec![(3, 2), (3, 3), (3, 4)]);
    let mut canvas = Image::new(8, 8);
    stroke_line(&mut canvas, single(-3.0), single(0.0), single(1.0), single(0.0), 3, color);
    assert_eq!(painted(&canvas), vec![(0, 0), (1, 0), (0, 1), (1, 1)]);
    let mut canvas = Image::new(8, 8);
    stroke_line(&mut canvas, single(0.0), single(0.0), single(5.0), single(5.0), 3, color);
    assert_eq!(painted(&canvas), vec![]);
    let mut canvas = Image::new(5, 5);
    stroke_rect(&mut canvas, single(1.0), single(1.0), single(2.0), single(2.0), 1, color);
    assert_eq!(painted(&canvas).len(), 8);
    assert_eq!(canvas.get_pixel(2, 2), [0, 0, 0, 0]);
}

#[test]
fn box_leaves_the_region_free() {
    let mut canvas = filled(200, 160, [1, 2, 3, 4]);
    draw_box(&mut canvas, 40, 30, 100, 80, [10, 20, 30]);
    for y in 30..110 {
        for x in 40..140 {
            assert_eq!(canvas.get_pixel(x, y), [0, 0, 0, 0]);
        }
    }
    assert_eq!(canvas.get_pixel(90, 27), [9, 6, 3, 77]);
    assert_eq!(canvas.get_pixel(37, 27), [30, 20, 10, 255]);
    assert_eq!(canvas.get_pixel(36, 46), [30, 20, 10, 255]);
    assert_eq!(canvas.get_pixel(90, 23), [0, 0, 0, 0]);
}

fn options(crop: bool) -> PreviewOptions {
    PreviewOptions {
        width: 320,
        zoomed: false,
        source_pos: 0,
        frame_len: 0,
        edge: PreviewEdge::Neither,
        capture_pos: 50,
        capture_len: 20,
        crop_enabled: crop,
        crop_top: 40,
        crop_bottom: 0,
    }
}

#[test]
fn preview_shows_the_picture() {
    let image = filled(100, 100, [200, 150, 100, 255]);
    let mut canvas = Image::new(116, 116);
    draw_preview_image(&mut canvas, &image, [0, 0, 255], options(false));
    assert_eq!(canvas.get_pixel(0, 0), [0, 0, 0, 0]);
    assert_eq!(canvas.get_pixel(1, 0), [77, 0, 0, 77]);
    assert_eq!(canvas.get_pixel(5, 5), [28, 0, 0, 28]);
    assert_eq!(canvas.get_pixel(8, 8), [100, 150, 200, 255]);
    assert_eq!(canvas.get_pixel(107, 107), [100, 150, 200, 255]);
    assert_eq!(canvas.get_pixel(104, 12), [38, 38, 38, 38]);
    assert_eq!(canvas.get_pixel(104, 68), [205, 0, 0, 205]);
    let mut cropped = Image::new(116, 116);
    draw_preview_image(&mut cropped, &image, [0, 0, 255], options(true));
    assert_eq!(cropped.get_pixel(10, 20), [0, 0, 0, 140]);
    assert_eq!(cropped.get_pixel(10, 48), [180, 0, 0, 180]);
    assert_eq!(cropped.get_pixel(10, 60), [100, 150, 200, 255]);
}

#[test]
fn crop_handle_has_a_grip() {
    let mut canvas = Image::new(120, 60);
    draw_crop_handle(&mut canvas, 10, 30, 100, [255, 255, 255]);
    assert_eq!(canvas.get_pixel(12, 29), [110, 110, 110, 110]);
    assert_eq!(canvas.get_pixel(12, 30), [180, 180, 180, 180]);
    assert_eq!(canvas.get_pixel(12, 32), [0, 0, 0, 0]);
    assert_eq!(canvas.get_pixel(60, 30), [210, 210, 210, 210]);
    assert_eq!(canvas.get_pixel(64, 30), [15, 15, 15, 220]);
}

fn viewport() -> PreviewViewport {
    PreviewViewport {
        scaled_height: 200,
        scaled_start: 0,
        source_start: 100,
        source_len: 100,
        max_source_start: 300,
    }
}

#[test]
fn nothing_is_cropped_over_an_empty_picture() {
    let slot = Slot { x: 8, y: 8, width: 50, height: 50 };
    let mut canvas = Image::new(70, 70);
    draw_crop_overlay(&mut canvas, 0, slot, &viewport(), 5, 5, [255, 255, 255]);
    assert_eq!(painted(&canvas), vec![]);
    draw_preview_position_indicator(&mut canvas, 400, slot, &viewport(), 5, 0, [255, 255, 255]);
    assert_eq!(painted(&canvas), vec![]);
}

#[test]
fn indicator_shows_the_part_seen() {
    let slot = Slot { x: 8, y: 8, width: 50, height: 54 };
    let mut canvas = Image::new(70, 70);
    draw_preview_position_indicator(&mut canvas, 400, slot, &viewport(), 380, 20, [255, 255, 255]);
    assert_eq!(canvas.get_pixel(54, 10), [38, 38, 38, 38]);
    assert_eq!(canvas.get_pixel(54, 23), [92, 92, 92, 92]);
    assert_eq!(canvas.get_pixel(54, 33), [92, 92, 92, 92]);
    assert_eq!(canvas.get_pixel(54, 34), [38, 38, 38, 38]);
    assert_eq!(canvas.get_pixel(52, 56), [205, 205, 205, 205]);
    assert_eq!(canvas.get_pixel(52, 55), [0, 0, 0, 0]);
}

#[test]
fn preview_is_drawn_anew() {
    let image = filled(100, 100, [200, 150, 100, 255]);
    let mut fresh = Image::new(116, 116);
    draw_preview_image(&mut fresh, &image, [0, 0, 255], options(false));
    let mut used = filled(116, 116, [9, 8, 7, 6]);
    let others = PreviewOptions { crop_top: 17, crop_bottom: 3, ..options(false) };
    draw_preview_image(&mut used, &image, [0, 0, 255], others);
    assert_eq!(used.as_raw(), fresh.as_raw());
}

#[test]
fn far_corners_are_cut_at_the_canvas() {
    let mut canvas = Image::new(4, 4);
    fill_rounded_rect(&mut canvas, 2, 2, u32::MAX, u32::MAX, 0, [255, 255, 255, 255]);
    assert_eq!(painted(&canvas), vec![(2, 2), (3, 2), (2, 3), (3, 3)]);
    stroke_rounded_rect(&mut canvas, u32::MAX, 0, 9, 9, 1, 0, [255, 255, 255, 255]);
    draw_crop_handle(&mut canvas, u32::MAX - 44, u32::MAX - 3, 44, [255, 255, 255]);
    assert_eq!(painted(&canvas).len(), 4);
}
