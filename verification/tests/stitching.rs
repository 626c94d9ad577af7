use wl_longshot::codec::crop_image_vertical;
use wl_longshot::edges::edge_overlap_tail_head;
use wl_longshot::raster::Image;
use wl_longshot::profile::compute_cols;
use wl_longshot::search::{find_known_position, overhang_amount, Edge};
use wl_longshot::stitch::{StitchResult, StitchStatus, Stitcher};
use wl_longshot::view::{force_preview_to_bottom, sync_preview_view, PreviewView};

fn row_color(index: i32) -> [u8; 4] {
    let index = index.wrapping_add(10_000) as u32;
    let hash = index.wrapping_mul(2_654_435_761).rotate_left(13) ^ index.wrapping_mul(97_531);
    [(hash >> 16) as u8, (hash >> 8) as u8, hash as u8, 255]
}

fn vertical_frame(first_row: i32, height: u32) -> Image {
    let width = 24;
    let mut image = Image::new(width, height);
    for y in 0..height {
        let color = row_color(first_row + y as i32);
        for x in 0..width {
            image.put_pixel(x, y, color);
        }
    }
    image
}

fn edge_pattern_frame(first_row: u32, height: u32) -> Image {
    let width = 64;
    let mut image = Image::new(width, height);
    for y in 0..height {
        let global_y = first_row + y;
        for x in 0..width {
            let mark = (x + global_y * 3) % 17 == 0 || (x * 5 + global_y) % 29 == 0;
            let value = if mark { 20 } else { 235 };
            image.put_pixel(x, y, [value, value, value, 255]);
        }
    }
    image
}

#[test]
fn edge_overlap_matches_tail_to_head() {
    let base = edge_pattern_frame(0, 80);
    let next = edge_pattern_frame(50, 80);
    assert_eq!(edge_overlap_tail_head(&base, &next, 12), Some(30));
}

#[test]
fn crop_image_vertical_keeps_middle_rows() {
    let image = vertical_frame(0, 10);
    let cropped = crop_image_vertical(image, 2, 3).expect("cropped image");
    assert_eq!(cropped.height(), 5);
    assert_eq!(cropped.get_pixel(0, 0), row_color(2));
    assert_eq!(cropped.get_pixel(0, 4), row_color(6));
}

#[test]
fn no_progress_updates_capture_indicator_without_forcing_follow() {
    let mut stitcher = Stitcher::new();
    assert_eq!(
        stitcher.push_frame_result(vertical_frame(0, 80)).status,
        StitchStatus::FirstFrame
    );
    assert_eq!(
        stitcher.push_frame_result(vertical_frame(60, 80)).status,
        StitchStatus::Appended
    );

    let mut view = PreviewView::default();
    sync_preview_view(
        &mut view,
        &stitcher,
        StitchResult {
            status: StitchStatus::NoProgress,
            added: 0,
            edge: None,
            position: 30,
            frame_len: 80,
        },
        320,
    );
    assert_eq!(view.capture_pos, 30);
    assert_eq!(view.capture_len, 80);
    assert_eq!(view.scrub_pos, 0);

    sync_preview_view(
        &mut view,
        &stitcher,
        StitchResult {
            status: StitchStatus::NoProgress,
            added: 0,
            edge: Some(Edge::Start),
            position: 44,
            frame_len: 80,
        },
        320,
    );
    assert_eq!(view.capture_pos, 30);
}

#[test]
fn manual_append_forces_preview_to_bottom() {
    let mut stitcher = Stitcher::new();
    assert_eq!(
        stitcher.push_frame_result(vertical_frame(0, 80)).status,
        StitchStatus::FirstFrame
    );
    stitcher.append_without_dedup(vertical_frame(80, 80));

    let mut view = PreviewView {
        following: false,
        scrub_pos: 10,
        capture_pos: 10,
        capture_len: 80,
        ..Default::default()
    };
    force_preview_to_bottom(&mut view, &stitcher, 80);
    assert!(view.following);
    assert_eq!(view.capture_pos, 80);
    assert_eq!(view.capture_len, 0);
    assert_eq!(view.scrub_pos, 80);
    assert_eq!(view.edge, Some(Edge::End));
}

#[test]
fn upward_auto_follow_keeps_preview_at_top() {
    let mut stitcher = Stitcher::new();
    let first = stitcher.push_frame_result(vertical_frame(120, 80));
    let mut view = PreviewView::default();
    sync_preview_view(&mut view, &stitcher, first, 320);

    let second = stitcher.push_frame_result(vertical_frame(60, 80));
    assert_eq!(second.status, StitchStatus::Appended);
    assert_eq!(second.edge, Some(Edge::Start));
    sync_preview_view(&mut view, &stitcher, second, 320);
    assert!(view.following);
    assert_eq!(view.capture_pos, 0);
    assert_eq!(view.scrub_pos, 0);
    assert_eq!(view.edge, Some(Edge::Start));

    let duplicate = StitchResult {
        status: StitchStatus::NoProgress,
        added: 0,
        edge: None,
        position: 0,
        frame_len: 80,
    };
    sync_preview_view(&mut view, &stitcher, duplicate, 320);
    assert_eq!(view.capture_pos, 0);
    assert_eq!(view.scrub_pos, 0);
    assert_eq!(view.edge, Some(Edge::Start));
}

#[test]
fn appends_downward_frames() {
    let mut stitcher = Stitcher::new();
    let first = stitcher.push_frame_result(vertical_frame(0, 80));
    assert_eq!(first.status, StitchStatus::FirstFrame);
    let second = stitcher.push_frame_result(vertical_frame(60, 80));
    assert_eq!(second.status, StitchStatus::Appended);
    assert_eq!(second.edge, Some(Edge::End));
    assert_eq!(second.added, 60);
    let full = stitcher.full().expect("stitched image");
    assert_eq!(full.height(), 140);
    assert_eq!(full.get_pixel(0, 0), row_color(0));
    assert_eq!(full.get_pixel(0, 139), row_color(139));
}

#[test]
fn prepends_upward_frames() {
    let mut stitcher = Stitcher::new();
    assert_eq!(
        stitcher.push_frame_result(vertical_frame(60, 80)).status,
        StitchStatus::FirstFrame
    );

    let second = stitcher.push_frame_result(vertical_frame(0, 80));
    assert_eq!(second.status, StitchStatus::Appended);
    assert_eq!(second.edge, Some(Edge::Start));
    assert_eq!(second.added, 60);

    let full = stitcher.full().expect("stitched image");
    assert_eq!(full.height(), 140);
    assert_eq!(full.get_pixel(0, 0), row_color(0));
    assert_eq!(full.get_pixel(0, 139), row_color(139));
}

#[test]
fn can_prepend_after_downward_scroll_then_append_again() {
    let mut stitcher = Stitcher::new();
    assert_eq!(
        stitcher.push_frame_result(vertical_frame(0, 80)).status,
        StitchStatus::FirstFrame
    );
    assert_eq!(
        stitcher.push_frame_result(vertical_frame(60, 80)).status,
        StitchStatus::Appended
    );

    let upward = stitcher.push_frame_result(vertical_frame(-20, 80));
    assert_eq!(upward.status, StitchStatus::Appended);
    assert_eq!(upward.edge, Some(Edge::Start));
    assert_eq!(upward.added, 20);

    let known = stitcher.push_frame_result(vertical_frame(60, 80));
    assert_eq!(known.status, StitchStatus::NoProgress);

    let downward = stitcher.push_frame_result(vertical_frame(100, 80));
    assert_eq!(downward.status, StitchStatus::Appended);
    assert_eq!(downward.edge, Some(Edge::End));
    assert_eq!(downward.added, 40);

    let full = stitcher.full().expect("stitched image");
    assert_eq!(full.height(), 200);
    assert_eq!(full.get_pixel(0, 0), row_color(-20));
    assert_eq!(full.get_pixel(0, 199), row_color(179));
}

#[test]
fn continuous_upward_scroll_prepends_multiple_times() {
    let mut stitcher = Stitcher::new();
    assert_eq!(
        stitcher.push_frame_result(vertical_frame(120, 80)).status,
        StitchStatus::FirstFrame
    );

    let second = stitcher.push_frame_result(vertical_frame(60, 80));
    assert_eq!(second.status, StitchStatus::Appended);
    assert_eq!(second.edge, Some(Edge::Start));
    assert_eq!(second.added, 60);

    let third = stitcher.push_frame_result(vertical_frame(0, 80));
    assert_eq!(third.status, StitchStatus::Appended);
    assert_eq!(third.edge, Some(Edge::Start));
    assert_eq!(third.added, 60);

    let full = stitcher.full().expect("stitched image");
    assert_eq!(full.height(), 200);
    assert_eq!(full.get_pixel(0, 0), row_color(0));
    assert_eq!(full.get_pixel(0, 199), row_color(199));
}

#[test]
fn rejected_frame_does_not_poison_next_append() {
    let mut stitcher = Stitcher::new();
    assert_eq!(
        stitcher.push_frame_result(vertical_frame(0, 80)).status,
        StitchStatus::FirstFrame
    );
    assert_eq!(
        stitcher.push_frame_result(vertical_frame(60, 80)).status,
        StitchStatus::Appended
    );

    let bad = stitcher.push_frame_result(vertical_frame(500, 80));
    assert_eq!(bad.status, StitchStatus::NoMatch);

    let next = stitcher.push_frame_result(vertical_frame(100, 80));
    assert_eq!(next.status, StitchStatus::Appended);
    assert_eq!(next.edge, Some(Edge::End));
    assert_eq!(next.added, 40);

    let full = stitcher.full().expect("stitched image");
    assert_eq!(full.height(), 180);
    assert_eq!(full.get_pixel(0, 179), row_color(179));
}

#[test]
fn growth_is_told_where_it_lies() {
    let mut stitcher = Stitcher::new();
    let first = stitcher.push_frame_result(vertical_frame(60, 80));
    assert_eq!((first.position, first.frame_len), (0, 80));
    let down = stitcher.push_frame_result(vertical_frame(100, 80));
    assert_eq!((down.added, down.position, down.frame_len), (40, 40, 80));
    assert_eq!(stitcher.full().unwrap().height(), 120);
    assert_eq!(stitcher.anchor(), 40);
    assert_eq!((stitcher.frames(), stitcher.accepted()), (2, 2));
    let mut stitcher = Stitcher::new();
    stitcher.push_frame_result(vertical_frame(60, 80));
    let up = stitcher.push_frame_result(vertical_frame(0, 80));
    assert_eq!((up.added, up.edge, up.position), (60, Some(Edge::Start), 0));
    assert_eq!(stitcher.full().unwrap().height(), 140);
}

#[test]
fn repeated_frame_stays_where_it_was() {
    let mut stitcher = Stitcher::new();
    stitcher.push_frame_result(vertical_frame(0, 80));
    let once = stitcher.push_frame_result(vertical_frame(60, 80));
    let twice = stitcher.push_frame_result(vertical_frame(60, 80));
    assert_eq!(twice.status, StitchStatus::NoProgress);
    assert_eq!((twice.added, twice.edge), (0, None));
    assert_eq!(twice.position, once.position);
    assert_eq!((stitcher.frames(), stitcher.accepted()), (3, 2));
    assert_eq!(stitcher.full().unwrap().height(), 140);
}

#[test]
fn frames_without_columns_are_widened() {
    let mut stitcher = Stitcher::new();
    stitcher.append_without_dedup(vertical_frame(0, 20));
    stitcher.append_without_dedup(Image::new(0, 5));
    let full = stitcher.full().unwrap();
    assert_eq!((full.width(), full.height()), (24, 25));
    assert_eq!(full.get_pixel(0, 19), row_color(19));
    assert_eq!(full.get_pixel(23, 24), [0, 0, 0, 0]);
    assert_eq!((stitcher.frames(), stitcher.accepted()), (2, 2));
}

#[test]
fn frames_stick_out_of_any_height() {
    assert_eq!(overhang_amount(-7, 20, 15), (7, Edge::Start));
    assert_eq!(overhang_amount(5, 20, 15), (10, Edge::End));
    assert_eq!(overhang_amount(5, -3, -2), (4, Edge::End));
    assert_eq!(overhang_amount(-5, -3, 0), (5, Edge::Start));
}

#[test]
fn places_are_expected_anywhere() {
    let full = compute_cols(&vertical_frame(0, 400));
    let frame = compute_cols(&vertical_frame(40, 240));
    for predicted in [i32::MIN, 0, i32::MAX] {
        let known = find_known_position(&full, &frame, 0, predicted, 101).unwrap();
        assert_eq!(known.pos, 40);
    }
}
