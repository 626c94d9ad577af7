use wl_longshot::codec::{
    clipboard_image, crop_image_vertical, decode_capture, encode_png_compact_rgb, encode_png_fast,
    exceeds_clipboard, is_scalable,
};
use wl_longshot::config::{parse_args, Backend, Config, Request};
use wl_longshot::course::{Course, Manner, Reply, Step, Tour};
use wl_longshot::frame::{
    after_events, before_events, capture_buffer_size, decode_wl_shm_frame, frame_interval,
    is_payload_complete, next_delay, surface_buffer_size, unsupported_format, FrameEvent,
    FrameProgress, ShmFormat, Waiting,
};
use wl_longshot::menu::GrimAction;
use wl_longshot::pointer::{PointerEvent, PreviewEvents, PreviewInput};
use wl_longshot::preview::{PreviewCropDrag, PreviewCropEdge, PreviewEdge, Rect};
use wl_longshot::raster::Image;
use wl_longshot::search::Edge;
use wl_longshot::session::{
    debug_file_name, default_file_name, default_folder, default_output_path, next_turn,
    open_frame_capture, open_grim_capture, output_target, post_process, program_name, Afterwards,
    Folder, Program, Session, Target, Turn,
};
use wl_longshot::stitch::{StitchStatus, Stitcher};
use wl_longshot::view::{
    apply_preview_events, estimated_preview_source_len, preview_edge, preview_options,
    preview_scroll_amount, sync_crop_with_image_height, PreviewView,
};

fn next(seed: &mut u64) -> u32 {
    *seed = seed.wrapping_mul(6364136223846793005).wrapping_add(1442695040888963407);
    (*seed >> 32) as u32
}

fn color(row: i32) -> [u8; 4] {
    let mut seed = (row + 10_000) as u64;
    next(&mut seed);
    let bytes = next(&mut seed).to_be_bytes();
    [bytes[0], bytes[1], bytes[2], 255]
}

fn page(first_row: i32, width: u32, height: u32) -> Image {
    let mut image = Image::new(width, height);
    for y in 0..height {
        for x in 0..width {
            image.put_pixel(x, y, color(first_row + y as i32));
        }
    }
    image
}

fn config(words: &[&str]) -> Config {
    let words = words.iter().map(|word| word.to_string()).collect();
    match parse_args(words).unwrap() {
        Request::Run(config) => config,
        other => panic!("{other:?}"),
    }
}

fn base() -> Rect {
    Rect { x: 10, y: 20, width: 24, height: 80 }
}

fn nothing_done() -> PreviewEvents {
    PreviewEvents::default()
}

#[test]
fn pictures_are_read_back_as_written() {
    let mut image = page(0, 7, 5);
    image.put_pixel(3, 2, [1, 2, 3, 4]);
    let file = encode_png_fast(&image).unwrap();
    assert_eq!(&file[..8], &[137, 80, 78, 71, 13, 10, 26, 10]);
    let back = decode_capture(&file).unwrap();
    assert_eq!((back.width(), back.height()), (7, 5));
    assert_eq!(back.as_raw(), image.as_raw());
}

#[test]
fn clipboard_pictures_are_opaque() {
    let mut image = page(0, 7, 5);
    image.put_pixel(3, 2, [1, 2, 3, 4]);
    let back = decode_capture(&encode_png_compact_rgb(&image).unwrap()).unwrap();
    assert_eq!((back.width(), back.height()), (7, 5));
    assert_eq!(back.get_pixel(3, 2), [1, 2, 3, 255]);
    assert_eq!(back.get_pixel(0, 4), color(4));
}

#[test]
fn empty_pictures_are_not_written() {
    assert!(encode_png_fast(&Image::new(0, 5)).is_err());
    assert!(encode_png_fast(&Image::new(5, 0)).is_err());
    assert!(encode_png_compact_rgb(&Image::new(0, 0)).is_err());
}

#[test]
fn broken_files_are_told() {
    let error = decode_capture(&[1, 2, 3]).unwrap_err();
    assert!(error.starts_with("failed to decode grim PNG: "));
    assert!(error.len() > "failed to decode grim PNG: ".len());
}

#[test]
fn large_pictures_are_scaled_for_the_clipboard() {
    let small = page(0, 3, 4);
    assert!(!exceeds_clipboard(&small));
    assert_eq!(clipboard_image(&small, 1, 1).as_raw(), small.as_raw());
    let high = page(0, 1, 16_001);
    assert!(exceeds_clipboard(&high));
    let mut plain = Image::new(2, 16_002);
    for y in 0..16_002 {
        plain.put_pixel(0, y, [10, 20, 30, 255]);
        plain.put_pixel(1, y, [30, 40, 50, 255]);
    }
    assert!(is_scalable(&plain, 1, 8_001) && !is_scalable(&plain, 0, 8_001));
    assert!(!is_scalable(&plain, 3, 8_001));
    let shrunk = clipboard_image(&plain, 1, 8_001);
    assert_eq!((shrunk.width(), shrunk.height()), (1, 8_001));
    assert_eq!(shrunk.get_pixel(0, 4_000), [20, 30, 40, 255]);
}

#[test]
fn crop_leaves_a_row() {
    let cropped = crop_image_vertical(page(0, 2, 10), 50, 50).unwrap();
    assert_eq!(cropped.height(), 1);
    assert_eq!(cropped.get_pixel(0, 0), color(9));
    let cropped = crop_image_vertical(page(0, 2, 10), 4, 50).unwrap();
    assert_eq!(cropped.height(), 1);
    assert_eq!(cropped.get_pixel(0, 0), color(4));
    assert_eq!(crop_image_vertical(Image::new(3, 0), 4, 4).unwrap().height(), 0);
}

#[test]
fn payload_is_decoded() {
    let payload: Vec<u8> = (0..24).collect();
    let image = decode_wl_shm_frame(&payload, 2, 2, 12, 0, 0).unwrap();
    assert_eq!(image.get_pixel(0, 0), [2, 1, 0, 255]);
    assert_eq!(image.get_pixel(1, 1), [18, 17, 16, 255]);
    let image = decode_wl_shm_frame(&payload, 2, 2, 12, 0x3432_4258, 1).unwrap();
    assert_eq!(image.get_pixel(0, 0), [12, 13, 14, 255]);
    assert_eq!(image.get_pixel(1, 1), [4, 5, 6, 255]);
    let error = decode_wl_shm_frame(&payload, 2, 2, 12, 0x20, 0).unwrap_err();
    assert_eq!(error, "unsupported wl_shm format: 0x00000020");
    assert_eq!(decode_wl_shm_frame(&payload, 0, 2, 12, 0x20, 0).unwrap().height(), 2);
    assert!(is_payload_complete(24, 2, 2, 12, 0, 0));
    assert!(is_payload_complete(20, 2, 2, 12, 0, 0));
    assert!(!is_payload_complete(19, 2, 2, 12, 0, 0));
    assert!(is_payload_complete(4, 2, 2, 12, 0x20, 0));
    assert!(!is_payload_complete(15, 2, 2, 12, 0x20, 1));
    assert!(is_payload_complete(0, 0, 2, 12, 0, 0));
}

#[test]
fn buffers_have_sizes() {
    assert_eq!(surface_buffer_size(10, 20), Ok((40, 800)));
    assert_eq!(surface_buffer_size(1 << 30, 1), Err("overlay stride overflow".to_string()));
    assert_eq!(
        surface_buffer_size(1 << 20, 1 << 20),
        Err("overlay buffer size overflow".to_string())
    );
    assert_eq!(capture_buffer_size(ShmFormat::Known(0), 20, 40), Ok(800));
    assert_eq!(
        capture_buffer_size(ShmFormat::Unknown(7), 1 << 20, 1 << 20),
        Err("capture buffer size overflow".to_string())
    );
    assert_eq!(
        capture_buffer_size(ShmFormat::Unknown(0xabc), 20, 40),
        Err("unsupported wl_shm format: 0x00000abc".to_string())
    );
    assert_eq!(unsupported_format(0xffff_ffff), "unsupported wl_shm format: 0xffffffff");
}

#[test]
fn frame_is_copied_once_buffered() {
    let mut progress = FrameProgress::request();
    assert_eq!(before_events(&progress, false), Waiting::Again);
    assert_eq!(before_events(&progress, true), Waiting::Stop);
    assert_eq!(after_events(&progress, 0), Waiting::Wait);
    assert_eq!(after_events(&progress, 2), Waiting::Again);
    assert!(!progress.handle_event(FrameEvent::Buffer { made: true }));
    assert!(progress.handle_event(FrameEvent::BufferDone));
    assert!(!progress.handle_event(FrameEvent::Flags { flags: 1 }));
    assert!(!progress.done);
    assert!(!progress.handle_event(FrameEvent::Ready));
    assert!(progress.done && !progress.failed && progress.flags == 1);
    assert_eq!(before_events(&progress, true), Waiting::Done);
    assert_eq!(after_events(&progress, 0), Waiting::Again);
}

#[test]
fn frame_fails_without_a_buffer() {
    let mut progress = FrameProgress::request();
    assert!(!progress.handle_event(FrameEvent::BufferDone));
    assert!(progress.done && progress.failed);
    let mut progress = FrameProgress::request();
    progress.handle_event(FrameEvent::Buffer { made: false });
    assert!(progress.done && progress.failed);
    let mut progress = FrameProgress::request();
    progress.handle_event(FrameEvent::Failed);
    assert!(progress.done && progress.failed);
}

#[test]
fn time_between_frames() {
    assert_eq!(frame_interval(0), None);
    assert_eq!(frame_interval(15), Some(66_666_666));
    assert_eq!(next_delay(0, 12, 5, false), Some(5));
    assert_eq!(next_delay(10, 12, 5, false), Some(2));
    assert_eq!(next_delay(12, 12, 5, false), None);
    assert_eq!(next_delay(0, 12, 5, true), None);
}

#[test]
fn crop_stays_when_the_picture_grows() {
    let mut view = PreviewView { crop_top: 5, crop_bottom: 7, ..PreviewView::default() };
    sync_crop_with_image_height(&mut view, 100);
    assert_eq!((view.crop_top, view.crop_bottom, view.crop_image_height), (5, 7, 100));
    sync_crop_with_image_height(&mut view, 130);
    assert_eq!((view.crop_top, view.crop_bottom, view.crop_image_height), (5, 37, 130));
    sync_crop_with_image_height(&mut view, 10);
    assert_eq!((view.crop_top, view.crop_bottom), (5, 4));
    sync_crop_with_image_height(&mut view, 0);
    assert_eq!((view.crop_top, view.crop_bottom, view.crop_image_height), (0, 0, 0));
}

#[test]
fn scrolling_amounts() {
    let image = Image::new(100, 1000);
    assert_eq!(estimated_preview_source_len(&image, 50, false, 116), 200);
    assert_eq!(estimated_preview_source_len(&image, 50, true, 116), 41);
    assert_eq!(estimated_preview_source_len(&Image::new(0, 9), 50, true, 116), 1);
    let mut input = PreviewInput::new();
    input.handle_event(PointerEvent::Enter { on_preview: true, x: 0, y: 0 });
    input.handle_event(PointerEvent::Axis { vertical: true, value: -30 * 256 });
    let delta = input.take_events().scroll_delta;
    assert_eq!(preview_scroll_amount(delta, &image, 50, false, 116), 50);
    input.handle_event(PointerEvent::Axis { vertical: true, value: 256 });
    let delta = input.take_events().scroll_delta;
    assert_eq!(preview_scroll_amount(delta, &image, 50, false, 116), 9);
    assert_eq!(preview_edge(Some(Edge::End)), PreviewEdge::End);
    assert_eq!(preview_edge(None), PreviewEdge::Neither);
}

#[test]
fn events_move_the_preview() {
    let image = Image::new(100, 1000);
    let mut view = PreviewView { capture_len: 116, frame_len: 80, ..PreviewView::default() };
    assert!(!apply_preview_events(&mut view, nothing_done(), &image, 50));
    assert_eq!(preview_options(&view, 50).frame_len, 80);
    let mut input = PreviewInput::new();
    input.handle_event(PointerEvent::Enter { on_preview: true, x: 0, y: 0 });
    input.handle_event(PointerEvent::Axis { vertical: true, value: 30 * 256 });
    assert!(apply_preview_events(&mut view, input.take_events(), &image, 50));
    assert_eq!((view.scrub_pos, view.following), (50, false));
    assert_eq!(preview_options(&view, 50).frame_len, 0);
    input.handle_event(PointerEvent::Axis { vertical: true, value: -900 * 256 });
    apply_preview_events(&mut view, input.take_events(), &image, 50);
    assert_eq!(view.scrub_pos, 0);
    let zoom = PreviewEvents { toggle_zoom: true, ..nothing_done() };
    assert!(apply_preview_events(&mut view, zoom, &image, 50));
    assert!(view.zoomed);
    let drag = |edge, source_y| PreviewEvents {
        crop_drag: Some(PreviewCropDrag { edge, source_y }),
        ..nothing_done()
    };
    apply_preview_events(&mut view, drag(PreviewCropEdge::Top, 300), &image, 50);
    apply_preview_events(&mut view, drag(PreviewCropEdge::Bottom, 700), &image, 50);
    assert_eq!((view.crop_top, view.crop_bottom), (300, 300));
    apply_preview_events(&mut view, drag(PreviewCropEdge::Bottom, 10), &image, 50);
    assert_eq!((view.crop_top, view.crop_bottom), (300, 699));
    apply_preview_events(&mut view, drag(PreviewCropEdge::Top, 900), &image, 50);
    assert_eq!((view.crop_top, view.crop_bottom), (300, 699));
}

#[test]
fn repeated_frame_makes_no_progress() {
    let mut stitcher = Stitcher::new();
    assert_eq!(stitcher.push_frame_result(page(0, 24, 80)).status, StitchStatus::FirstFrame);
    let again = stitcher.push_frame_result(page(0, 24, 80));
    assert_eq!(again.status, StitchStatus::NoProgress);
    assert!(!again.accepted());
    assert_eq!((stitcher.frames(), stitcher.accepted()), (2, 1));
    assert_eq!(stitcher.full().unwrap().height(), 80);
}

#[test]
fn frames_of_another_width_are_refused() {
    let mut stitcher = Stitcher::new();
    stitcher.push_frame(page(0, 24, 80));
    assert!(!stitcher.push_frame(page(60, 25, 80)));
    assert_eq!(stitcher.full().unwrap().width(), 24);
    let mut stitcher = Stitcher::new();
    stitcher.push_frame(page(0, 24, 80));
    stitcher.append_without_dedup(page(500, 30, 10));
    let full = stitcher.into_full().unwrap();
    assert_eq!((full.width(), full.height()), (30, 90));
    assert_eq!(full.get_pixel(23, 0), color(0));
    assert_eq!(full.get_pixel(24, 0), [0, 0, 0, 0]);
    assert_eq!(full.get_pixel(29, 89), color(509));
}

#[test]
fn room_is_limited() {
    let stitcher = Stitcher::new();
    assert!(stitcher.has_room(&page(0, 24, 80)));
    assert!(!stitcher.has_room(&Image::new(0, 80)));
    assert!(!stitcher.has_room(&Image::new(24, 0)));
    let session = Session::new(&config(&[]), base());
    assert!(session.has_room(&page(0, 24, 80)));
    assert!(!session.has_room(&Image::new(24, 0)));
}

#[test]
fn output_goes_where_it_was_sent() {
    assert_eq!(output_target(&None), Target::Default);
    assert_eq!(output_target(&Some("-".to_string())), Target::Stdout);
    assert_eq!(output_target(&Some("x.png".to_string())), Target::Named);
    assert_eq!(default_folder(true, true), Ok(Folder::Pictures));
    assert_eq!(default_folder(false, true), Ok(Folder::HomePictures));
    assert_eq!(default_folder(false, false), Err("HOME is not set".to_string()));
    assert_eq!(default_file_name(1700000000), "longshot_1700000000.png");
    assert_eq!(debug_file_name("capture", 7), "capture_00007.png");
    let config = config(&["--open", "x.png"]);
    let all = Afterwards { copy: true, open: true, edit: false };
    assert_eq!(post_process(&config, Target::Named), all);
    let none = Afterwards { copy: false, open: false, edit: false };
    assert_eq!(post_process(&config, Target::Stdout), none);
}

#[test]
fn captures_are_opened() {
    let both = config(&["--border-color", "#010203"]);
    let opening = open_frame_capture(&both, "1,2 3x4").unwrap().unwrap();
    assert_eq!((opening.region.x, opening.region.height), (1, 4));
    let overlay = opening.overlay.unwrap();
    assert_eq!((overlay.enabled, overlay.color), (true, Some([1, 2, 3])));
    assert_eq!((overlay.preview.enabled, overlay.preview.width), (true, 320));
    assert!(open_frame_capture(&both, " \n").unwrap().is_none());
    assert_eq!(
        open_frame_capture(&both, "1").unwrap_err(),
        "geometry must look like 'x,y WIDTHxHEIGHT'"
    );
    let overlay = |words: &[&str]| {
        let opening = open_grim_capture(&config(words), "1,2 3x4").unwrap().unwrap();
        opening.overlay.map(|overlay| (overlay.enabled, overlay.preview.enabled))
    };
    assert_eq!(overlay(&[]), Some((true, true)));
    assert_eq!(overlay(&["--no-preview"]), Some((true, false)));
    assert_eq!(overlay(&["--no-preview", "--no-border"]), None);
    assert_eq!(overlay(&["--grim-mode", "manual"]), Some((false, true)));
    assert_eq!(overlay(&["--grim-mode", "manual", "--no-preview"]), None);
    assert!(open_grim_capture(&config(&[]), "").unwrap().is_none());
    assert!(open_grim_capture(&config(&[]), "?").is_err());
}

#[test]
fn frames_on_their_own_are_stitched() {
    let mut session = Session::new(&config(&[]), base());
    assert!(session.show().is_none());
    assert!(session.push_auto(page(0, 24, 80)));
    assert!(session.push_auto(page(60, 24, 80)));
    assert!(!session.push_auto(page(60, 24, 80)));
    assert_eq!(session.summary(), "frames=3 stitched=2 height=140");
    assert_eq!(session.preview_view().capture_pos, 60);
    let shown = session.show().unwrap();
    assert_eq!((shown.source_pos, shown.edge), (60, PreviewEdge::End));
    let drag = PreviewEvents {
        crop_drag: Some(PreviewCropDrag { edge: PreviewCropEdge::Top, source_y: 20 }),
        ..nothing_done()
    };
    assert!(session.can_handle(drag));
    assert_eq!(session.handle(drag).unwrap().crop_top, 20);
    assert!(session.handle(nothing_done()).is_none());
    let image = session.finish(Backend::Frame).unwrap();
    assert_eq!(image.height(), 120);
    assert_eq!(image.get_pixel(0, 0), color(20));
}

#[test]
fn nothing_captured_is_told() {
    let session = Session::new(&config(&[]), base());
    assert_eq!(session.summary(), "frames=0 stitched=0 height=0");
    assert_eq!(
        session.finish(Backend::Frame).unwrap_err(),
        "no frames received from Wayland screencopy"
    );
    let session = Session::new(&config(&[]), base());
    assert_eq!(session.finish(Backend::Grim).unwrap_err(), "no frames captured from grim");
}

#[test]
fn frames_one_by_one_are_stitched() {
    assert_eq!(next_turn(Some(GrimAction::Next)), Turn::Select);
    assert_eq!(next_turn(Some(GrimAction::Finish)), Turn::Finish);
    assert_eq!(next_turn(Some(GrimAction::Abort)), Turn::Abort);
    assert_eq!(next_turn(None), Turn::Finish);

    let mut session = Session::new(&config(&["--grim-mode", "manual"]), base());
    session.push_first(page(0, 24, 80));
    let (region, text) = session.select("99,40 7x30").unwrap().unwrap();
    assert_eq!((region.x, region.width, text.as_str()), (10, 24, "10,40 24x30"));
    assert!(session.select("  ").unwrap().is_none());
    assert!(session.select("x").is_err());
    assert!(session.push_manual(page(60, 24, 80), 80));
    assert_eq!(session.stitcher().full().unwrap().height(), 140);
    assert!(!session.push_manual(page(60, 24, 80), 80));
    assert_eq!(session.preview_view().capture_pos, 60);

    let mut session =
        Session::new(&config(&["--grim-mode", "manual", "--no-grim-fixed-width"]), base());
    session.push_first(page(0, 24, 80));
    assert_eq!(session.select("99,40 7x30").unwrap().unwrap().1, "99,40 7x30");
    session.push_manual(page(60, 30, 80), 80);
    assert_eq!(session.stitcher().full().unwrap().width(), 30);

    let mut session = Session::new(&config(&["--grim-mode", "manual", "--no-grim-dedup"]), base());
    session.push_first(page(0, 24, 80));
    assert!(session.push_manual(page(0, 24, 80), 80));
    assert_eq!(session.stitcher().full().unwrap().height(), 160);
}

fn walk(course: &mut Course, replies: &[Reply]) -> Vec<Step> {
    replies.iter().map(|reply| course.next(*reply)).collect()
}

#[test]
fn course_of_frames() {
    let mut course = Course::new(&config(&["-g", "0,0 9x9"]));
    assert_eq!((course.manner, course.step), (Manner::Frames, Step::Capture));
    let steps = walk(
        &mut course,
        &[
            Reply::Given { stream: true },
            Reply::Done,
            Reply::Done,
            Reply::Asked { redraw: true },
            Reply::Done,
            Reply::Done,
            Reply::Given { stream: false },
            Reply::Done,
            Reply::Asked { redraw: false },
            Reply::Done,
            Reply::Ended,
            Reply::Done,
        ],
    );
    assert_eq!(
        steps,
        vec![
            Step::Stream,
            Step::Show,
            Step::Ask,
            Step::Redraw,
            Step::Rest,
            Step::Capture,
            Step::Show,
            Step::Ask,
            Step::Rest,
            Step::Capture,
            Step::Write,
            Step::Write,
        ]
    );
}

#[test]
fn course_of_repeated_frames() {
    let mut course = Course::new(&config(&["-g", "0,0 9x9", "-b", "grim", "--no-preview"]));
    assert_eq!(course.manner, Manner::Repeated);
    let steps = walk(
        &mut course,
        &[
            Reply::Given { stream: true },
            Reply::Done,
            Reply::Given { stream: false },
            Reply::Done,
            Reply::Ended,
        ],
    );
    assert_eq!(
        steps,
        vec![Step::Stream, Step::Capture, Step::Rest, Step::Capture, Step::Write]
    );
}

#[test]
fn course_of_frames_asked_for() {
    let words = ["-g", "0,0 9x9", "-b", "grim", "--grim-mode", "manual", "--no-preview"];
    let mut course = Course::new(&config(&words));
    assert_eq!(course.manner, Manner::Asked);
    let steps = walk(
        &mut course,
        &[
            Reply::Given { stream: true },
            Reply::Done,
            Reply::Told(Turn::Select),
            Reply::Selected { region: false },
            Reply::Told(Turn::Select),
            Reply::Selected { region: true },
            Reply::Given { stream: false },
            Reply::Told(Turn::Abort),
            Reply::Told(Turn::Finish),
        ],
    );
    assert_eq!(
        steps,
        vec![
            Step::Stream,
            Step::Await,
            Step::Select,
            Step::Await,
            Step::Select,
            Step::Capture,
            Step::Await,
            Step::Leave,
            Step::Leave,
        ]
    );
}

#[test]
fn frames_are_given_in_their_course() {
    let words = ["-g", "0,0 9x9", "-b", "grim", "--grim-mode", "manual"];
    let mut course = Course::new(&config(&words));
    let mut session = Session::new(&config(&words), base());
    assert!(session.give(&course, page(0, 24, 80), 80));
    assert_eq!(session.preview_view().capture_len, 0);
    course.next(Reply::Given { stream: false });
    walk(&mut course, &[Reply::Done, Reply::Asked { redraw: false }]);
    assert!(!course.first);
    assert!(session.give(&course, page(60, 24, 80), 80));
    assert_eq!(session.preview_view().edge, Some(Edge::End));
    assert_eq!(session.preview_view().capture_len, 0);
    let course = Course::new(&config(&["-g", "0,0 9x9"]));
    let mut session = Session::new(&config(&[]), base());
    assert!(session.give(&course, page(0, 24, 80), 80));
    assert_eq!(session.preview_view().capture_len, 80);
}

#[test]
fn long_sides_are_scaled() {
    let mut tall = Image::new(1, 9_000_001);
    for y in 0..9_000_001 {
        tall.put_pixel(0, y, [10, 20, 30, 255]);
    }
    assert!(exceeds_clipboard(&tall));
    assert!(is_scalable(&tall, 1, 16_000) && !is_scalable(&tall, 1, 9_000_000));
    let shrunk = clipboard_image(&tall, 1, 16_000);
    assert_eq!((shrunk.width(), shrunk.height()), (1, 16_000));
    assert_eq!(shrunk.get_pixel(0, 15_999), [10, 20, 30, 255]);
}

#[test]
fn region_is_asked_for_once() {
    let mut tour = Tour::new(&config(&["-b", "grim", "--no-preview"]));
    assert_eq!((tour.course().step, tour.region()), (Step::Choose, None));
    assert_eq!(tour.next(Reply::Given { stream: true }), Step::Choose);
    assert_eq!(tour.select(Some("1,2 3x4".to_string())), Step::Capture);
    for reply in [Reply::Given { stream: true }, Reply::Done] {
        tour.next(reply);
    }
    assert_eq!(tour.course().step, Step::Capture);
    assert_eq!(tour.select(Some("5,6 7x8".to_string())), Step::Capture);
    assert_eq!(tour.region(), Some(&"1,2 3x4".to_string()));
    assert_eq!(tour.next(Reply::Ended), Step::Write);
    let mut none = Tour::new(&config(&[]));
    assert_eq!(none.select(Some("  ".to_string())), Step::Leave);
    assert_eq!(none.region(), None);
}

#[test]
fn passed_region_is_kept() {
    let mut tour = Tour::new(&config(&["-g", "1,2 3x4", "-b", "grim", "--no-preview"]));
    assert_eq!(tour.course().step, Step::Capture);
    assert_eq!(tour.select(Some("5,6 7x8".to_string())), Step::Capture);
    assert_eq!(tour.region(), Some(&"1,2 3x4".to_string()));
    assert_eq!(Tour::new(&config(&["-g", " "])).course().step, Step::Leave);
}

#[test]
fn regions_are_selected_where_frames_are_asked_for() {
    let words = ["-g", "1,2 3x4", "-b", "grim", "--grim-mode", "manual", "--no-preview"];
    let mut tour = Tour::new(&config(&words));
    assert_eq!(tour.next(Reply::Given { stream: false }), Step::Await);
    assert_eq!(tour.next(Reply::Told(Turn::Select)), Step::Select);
    assert_eq!(tour.select(None), Step::Await);
    assert_eq!(tour.region(), Some(&"1,2 3x4".to_string()));
    tour.next(Reply::Told(Turn::Select));
    assert_eq!(tour.select(Some("5,6 7x8".to_string())), Step::Capture);
    assert_eq!(tour.region(), Some(&"5,6 7x8".to_string()));
}

#[test]
fn programs_follow_each_other() {
    let all = Afterwards { copy: true, open: true, edit: true };
    let mut last = None;
    let mut order = Vec::new();
    while let Some(program) = all.next_program(last, Ok(())).unwrap() {
        order.push(program_name(program));
        last = Some(program);
    }
    assert_eq!(order, vec!["wl-copy", "xdg-open", "satty"]);
    let some = Afterwards { copy: true, open: false, edit: true };
    assert_eq!(some.next_program(None, Ok(())), Ok(Some(Program::Copy)));
    assert_eq!(some.next_program(Some(Program::Copy), Ok(())), Ok(Some(Program::Edit)));
    assert_eq!(some.next_program(Some(Program::Edit), Ok(())), Ok(None));
    let failed = some.next_program(Some(Program::Copy), Err("no".to_string()));
    assert_eq!(failed, Err("no".to_string()));
    let nothing = Afterwards { copy: false, open: false, edit: false };
    assert_eq!(nothing.next_program(None, Ok(())), Ok(None));
}

#[test]
fn default_path_has_all_its_parts() {
    let path = default_output_path(true, true, 1700000000).unwrap();
    assert_eq!(path.folder, Folder::Pictures);
    assert_eq!(path.below, vec!["Screenshots", "longshots"]);
    assert_eq!(path.name, "longshot_1700000000.png");
    let path = default_output_path(false, true, 0).unwrap();
    assert_eq!(path.folder, Folder::HomePictures);
    assert_eq!(path.below, vec!["Pictures", "Screenshots", "longshots"]);
    assert_eq!(path.name, "longshot_0.png");
    assert_eq!(default_output_path(false, false, 1).unwrap_err(), "HOME is not set");
}
