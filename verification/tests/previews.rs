use wl_longshot::geometry::{
    find_target_output, local_region, next_region, overlay_region, OutputEvent,
};
use wl_longshot::pointer::{single_of_fixed, PointerEvent, PreviewInput};
use wl_longshot::preview::{
    bottom_source_from_crop, crop_source_to_pointer_y, preview_interaction, preview_layout,
    preview_side, preview_viewport, scale_height_for_width, source_span_to_draw_len,
    source_to_draw_y, wanted_width, OutputInfo, OverlayConfig, PreviewConfig, PreviewCropEdge,
    PreviewEdge, PreviewInteraction, PreviewOptions, PreviewViewport, Rect, Side,
};
use wl_longshot::protocol::{
    check_outputs, empty_preview, global_binding, has_middle, plan_capture, pointer_change,
    Globals, Interface, PointerChange,
};
use wl_longshot::raster::Image;
use wl_longshot::surface::{
    is_fitting, is_in_range, is_placeable, is_showable, render_box, render_preview,
};

fn screen(x: i32, y: i32, width: i32, height: i32) -> OutputInfo {
    let mut output = OutputInfo::unknown();
    output.update(OutputEvent::Position { x, y });
    output.update(OutputEvent::Size { width, height });
    output
}

fn rect(x: i32, y: i32, width: i32, height: i32) -> Rect {
    Rect { x, y, width, height }
}

fn options(width: u32, zoomed: bool) -> PreviewOptions {
    PreviewOptions { zoomed, ..empty_preview(width) }
}

#[test]
fn output_is_known_by_its_size() {
    let mut output = OutputInfo::unknown();
    assert!(!output.drawable());
    output.update(OutputEvent::Position { x: 5, y: 6 });
    assert!(!output.has_geometry);
    output.update(OutputEvent::Size { width: 10, height: 20 });
    assert!(output.has_geometry && output.drawable());
    assert_eq!((output.x, output.y, output.width, output.height), (5, 6, 10, 20));
    output.update(OutputEvent::Size { width: 0, height: 20 });
    assert!(!output.has_geometry && !output.drawable());
}

#[test]
fn target_holds_the_middle_of_the_region() {
    let outputs = vec![screen(0, 0, 100, 100), screen(100, 0, 100, 100)];
    assert_eq!(find_target_output(&outputs, rect(60, 10, 60, 10)), Some(0));
    assert_eq!(find_target_output(&outputs, rect(80, 10, 60, 10)), Some(1));
    assert_eq!(find_target_output(&outputs, rect(80, 110, 60, 10)), Some(0));
    assert_eq!(find_target_output(&vec![], rect(0, 0, 1, 1)), None);
    let unknown = vec![OutputInfo::unknown(), screen(0, 0, 100, 100)];
    assert_eq!(find_target_output(&unknown, rect(0, 0, 1, 1)), Some(1));
}

#[test]
fn region_seen_from_its_screen() {
    let target = screen(100, 50, 800, 600);
    let local = local_region(rect(120, 40, 30, 20), target);
    assert_eq!((local.x, local.y, local.width, local.height), (20, -10, 30, 20));
    assert_eq!(overlay_region(rect(120, 40, 30, 0), target), (20, 0, 30, 1));
    assert!(is_placeable(rect(120, 40, 30, 20), target));
    assert!(!is_placeable(rect(i32::MIN, 40, 30, 20), target));
    assert!(is_in_range(rect(120, 40, 30, 20), target));
    assert!(!is_in_range(rect(i32::MAX, 40, 300, 20), target));
}

#[test]
fn next_region_keeps_its_column() {
    let first = rect(10, 20, 300, 400);
    let kept = next_region(first, rect(50, 60, 70, 80), true);
    assert_eq!((kept.x, kept.y, kept.width, kept.height), (10, 60, 300, 80));
    let free = next_region(first, rect(50, 60, 70, 80), false);
    assert_eq!((free.x, free.y, free.width, free.height), (50, 60, 70, 80));
}

#[test]
fn heights_are_scaled() {
    assert_eq!(scale_height_for_width(100, 1000, 320), 3200);
    assert_eq!(scale_height_for_width(1000, 1, 10), 1);
    assert_eq!(scale_height_for_width(0, 7, 10), 1);
    assert_eq!(scale_height_for_width(10, 7, 0), 1);
}

#[test]
fn preview_is_wider_when_zoomed() {
    let target = screen(0, 0, 1000, 800);
    assert_eq!(wanted_width(target, options(320, false)), 320);
    assert_eq!(wanted_width(target, options(0, false)), 1);
    assert_eq!(wanted_width(target, options(320, true)), 450);
    assert_eq!(wanted_width(screen(0, 0, 100, 100), options(320, true)), 240);
    assert_eq!(wanted_width(screen(0, 0, 9000, 100), options(320, true)), 720);
}

#[test]
fn preview_lies_beside_the_region() {
    let target = screen(0, 0, 1000, 800);
    let wide = options(320, false);
    let right = preview_layout(rect(100, 100, 400, 300), target, 100, 1000, wide);
    assert!(right.visible);
    assert_eq!((right.x, right.y, right.width, right.height), (510, 100, 336, 300));
    let left = preview_layout(rect(500, 700, 450, 90), target, 100, 1000, wide);
    assert_eq!((left.x, left.y, left.width, left.height), (154, 700, 336, 90));
    let below = preview_layout(rect(0, 100, 1000, 300), target, 100, 100, wide);
    assert_eq!((below.x, below.y, below.width, below.height), (0, 410, 336, 336));
    let above = preview_layout(rect(0, 400, 1000, 390), target, 100, 100, wide);
    assert_eq!((above.x, above.y, above.width, above.height), (0, 54, 336, 336));
    let hidden = preview_layout(rect(0, 0, 1000, 800), target, 100, 100, wide);
    assert!(!hidden.visible);
    assert_eq!((hidden.x, hidden.y, hidden.width, hidden.height), (0, 0, 1, 1));
    let side = preview_side(rect(100, 100, 400, 300), target, 100, 1000, wide);
    assert!(matches!(side, Some((Side::Right, 336, 300))));
}

#[test]
fn preview_may_not_fit() {
    let target = screen(0, 0, 1000, 200);
    let geometry = rect(100, 0, 400, 300);
    assert!(!is_fitting(geometry, target, 100, 1000, options(320, false)));
    assert!(is_fitting(geometry, target, 1000, 100, options(320, false)));
    let image = Image::new(100, 1000);
    assert!(!is_showable(geometry, target, &image, options(320, false)));
}

#[test]
fn part_of_the_picture_that_is_shown() {
    let image = Image::new(100, 1000);
    let v = preview_viewport(&image, 50, 100, 300, 0, PreviewEdge::Neither);
    assert_eq!((v.scaled_height, v.scaled_start), (500, 150));
    assert_eq!((v.source_start, v.source_len, v.max_source_start), (300, 200, 800));
    let v = preview_viewport(&image, 50, 100, 300, 400, PreviewEdge::End);
    assert_eq!((v.source_start, v.scaled_start), (500, 250));
    let v = preview_viewport(&image, 50, 100, 5000, 0, PreviewEdge::Start);
    assert_eq!((v.source_start, v.scaled_start), (800, 400));
}

#[test]
fn rows_of_the_picture_on_the_preview() {
    assert_eq!(source_to_draw_y(150, 100, 100, 50), 25);
    assert_eq!(source_to_draw_y(10, 100, 100, 50), 0);
    assert_eq!(source_to_draw_y(900, 100, 100, 50), 49);
    assert_eq!(source_to_draw_y(150, 100, 0, 50), 0);
    assert_eq!(source_span_to_draw_len(100, 150, 100, 100, 50), 25);
    assert_eq!(source_span_to_draw_len(150, 150, 100, 100, 50), 1);
}

fn interaction(crop_enabled: bool) -> PreviewInteraction {
    let image = Image::new(100, 200);
    let shown = PreviewOptions { crop_enabled, crop_top: 40, crop_bottom: 60, ..empty_preview(100) };
    preview_interaction(&image, 116, 216, shown)
}

#[test]
fn handles_stand_at_the_crop() {
    let shown = interaction(true);
    assert_eq!((shown.image_height, shown.padding), (200, 8));
    assert_eq!((shown.content_width, shown.content_height), (100, 200));
    assert_eq!(bottom_source_from_crop(40, 60, shown), 140);
    assert_eq!(bottom_source_from_crop(199, 60, shown), 200);
    assert_eq!(crop_source_to_pointer_y(shown, 40), Some(40));
    let part = PreviewInteraction {
        viewport: PreviewViewport { source_start: 50, source_len: 20, ..shown.viewport },
        ..shown
    };
    assert_eq!(crop_source_to_pointer_y(part, 40), None);
    assert_eq!(crop_source_to_pointer_y(part, 71), None);
    assert_eq!(crop_source_to_pointer_y(part, 70), Some(199));
}

fn enter(input: &mut PreviewInput, x: i32, y: i32) {
    input.handle_event(PointerEvent::Enter { on_preview: true, x: x * 256, y: y * 256 });
}

fn press(input: &mut PreviewInput, pressed: bool) {
    input.handle_event(PointerEvent::Button { button: 0x110, pressed });
}

#[test]
fn click_beside_the_handles_zooms() {
    let mut input = PreviewInput::new();
    input.show(Some(interaction(true)));
    enter(&mut input, 50, 100);
    assert_eq!(input.crop_edge_at_pointer(), None);
    press(&mut input, true);
    let events = input.take_events();
    assert!(events.toggle_zoom && events.crop_drag.is_none());
    assert!(!input.take_events().toggle_zoom);
    input.handle_event(PointerEvent::Button { button: 0x111, pressed: true });
    assert!(!input.take_events().toggle_zoom);
}

#[test]
fn handle_follows_the_pointer() {
    let mut input = PreviewInput::new();
    input.show(Some(interaction(true)));
    enter(&mut input, 50, 52);
    assert_eq!(input.crop_edge_at_pointer(), Some(PreviewCropEdge::Top));
    press(&mut input, true);
    let drag = input.take_events().crop_drag.unwrap();
    assert_eq!((drag.edge, drag.source_y), (PreviewCropEdge::Top, 44));
    input.handle_event(PointerEvent::Motion { x: 0, y: 20 * 256 });
    assert_eq!(input.take_events().crop_drag.unwrap().source_y, 12);
    input.handle_event(PointerEvent::Motion { x: 0, y: 9000 * 256 });
    assert_eq!(input.take_events().crop_drag.unwrap().source_y, 199);
    press(&mut input, false);
    input.handle_event(PointerEvent::Motion { x: 0, y: 30 * 256 });
    assert!(input.take_events().crop_drag.is_none());
    enter(&mut input, 50, 148);
    assert_eq!(input.crop_edge_at_pointer(), Some(PreviewCropEdge::Bottom));
    enter(&mut input, 7, 148);
    assert_eq!(input.crop_edge_at_pointer(), None);
}

#[test]
fn handles_can_be_switched_off() {
    let mut input = PreviewInput::new();
    enter(&mut input, 50, 48);
    assert_eq!(input.crop_edge_at_pointer(), None);
    input.show(Some(interaction(false)));
    assert_eq!(input.crop_edge_at_pointer(), None);
    press(&mut input, true);
    assert!(input.take_events().toggle_zoom);
}

#[test]
fn wheel_counts_on_the_preview_alone() {
    let mut input = PreviewInput::new();
    input.handle_event(PointerEvent::Axis { vertical: true, value: 256 });
    assert_eq!(input.take_events().scroll_delta.to_bits(), 0);
    enter(&mut input, 1, 1);
    input.handle_event(PointerEvent::Axis { vertical: false, value: 256 });
    input.handle_event(PointerEvent::Axis { vertical: true, value: 384 });
    input.handle_event(PointerEvent::Axis { vertical: true, value: -256 });
    let delta = f32::from_bits(input.take_events().scroll_delta.to_bits());
    assert_eq!(delta, 0.5);
    input.handle_event(PointerEvent::Lost);
    press(&mut input, true);
    assert!(!input.take_events().toggle_zoom);
    assert_eq!(f32::from_bits(single_of_fixed(-640).to_bits()), -2.5);
}

#[test]
fn leaving_drops_the_handle() {
    let mut input = PreviewInput::new();
    input.show(Some(interaction(true)));
    enter(&mut input, 50, 48);
    press(&mut input, true);
    input.handle_event(PointerEvent::Leave { on_preview: false });
    input.handle_event(PointerEvent::Motion { x: 0, y: 28 * 256 });
    assert_eq!(input.take_events().crop_drag.unwrap().source_y, 20);
    input.handle_event(PointerEvent::Leave { on_preview: true });
    enter(&mut input, 50, 48);
    input.handle_event(PointerEvent::Motion { x: 0, y: 30 * 256 });
    assert!(input.take_events().crop_drag.is_none());
}

#[test]
fn globals_are_bound_by_name() {
    assert_eq!(global_binding("wl_shm", 9), Some((Interface::Shm, 1)));
    assert_eq!(global_binding("wl_compositor", 3), Some((Interface::Compositor, 3)));
    assert_eq!(global_binding("wl_compositor", 6), Some((Interface::Compositor, 4)));
    assert_eq!(global_binding("wl_output", 4), Some((Interface::Output, 2)));
    assert_eq!(
        global_binding("zwlr_screencopy_manager_v1", 7),
        Some((Interface::Screencopy, 3))
    );
    assert_eq!(global_binding("zwlr_layer_shell_v1", 7), Some((Interface::LayerShell, 4)));
    assert_eq!(global_binding("zxdg_output_manager_v1", 7), Some((Interface::XdgOutput, 3)));
    assert_eq!(global_binding("wl_seat", 9), Some((Interface::Seat, 8)));
    assert_eq!(global_binding("wl_data_device", 9), None);
}

fn globals() -> Globals {
    Globals { shm: true, compositor: true, screencopy: true, layer_shell: true, xdg_output: true }
}

fn overlay(enabled: bool, preview: bool) -> OverlayConfig {
    OverlayConfig {
        enabled,
        color: None,
        preview: PreviewConfig { enabled: preview, width: 320 },
    }
}

#[test]
fn capture_needs_its_protocols() {
    let outputs = vec![screen(0, 0, 100, 100)];
    let region = rect(10, 10, 20, 20);
    let message = |globals: Globals, outputs: &Vec<OutputInfo>| {
        plan_capture(&globals, outputs, region, &overlay(true, true)).unwrap_err()
    };
    assert_eq!(
        check_outputs(&Globals { xdg_output: false, ..globals() }).unwrap_err(),
        "required Wayland protocol is missing: xdg-output"
    );
    assert!(check_outputs(&globals()).is_ok());
    assert_eq!(
        message(Globals { shm: false, ..globals() }, &outputs),
        "required Wayland protocol is missing: wl_shm"
    );
    assert_eq!(
        message(Globals { screencopy: false, ..globals() }, &outputs),
        "required Wayland protocol is missing: wlr-screencopy"
    );
    assert_eq!(message(globals(), &vec![]), "failed to resolve target output");
    assert!(has_middle(region));
    assert!(!has_middle(rect(i32::MAX, 0, 20, 20)));
}

#[test]
fn plan_shows_what_can_be_shown() {
    let outputs = vec![screen(0, 0, 100, 100), screen(100, 0, 100, 100)];
    let region = rect(110, 10, 20, 20);
    let plan = plan_capture(&globals(), &outputs, region, &overlay(true, false)).unwrap();
    assert_eq!((plan.target, plan.border, plan.preview, plan.settle), (1, true, false, true));
    let bare = Globals { layer_shell: false, ..globals() };
    let plan = plan_capture(&bare, &outputs, region, &overlay(true, true)).unwrap();
    assert_eq!((plan.border, plan.preview, plan.settle), (false, false, true));
    let plan = plan_capture(&globals(), &outputs, region, &overlay(false, false)).unwrap();
    assert_eq!((plan.border, plan.preview, plan.settle), (false, false, false));
    let unknown = vec![OutputInfo::unknown()];
    let plan = plan_capture(&globals(), &unknown, region, &overlay(true, true)).unwrap();
    assert_eq!((plan.target, plan.border, plan.preview), (0, false, false));
}

#[test]
fn pointer_is_bound_once() {
    assert_eq!(pointer_change(true, false), PointerChange::Bind);
    assert_eq!(pointer_change(true, true), PointerChange::Keep);
    assert_eq!(pointer_change(false, true), PointerChange::Drop);
    assert_eq!(pointer_change(false, false), PointerChange::Drop);
}

#[test]
fn surfaces_are_drawn() {
    let target = screen(0, 0, 1000, 800);
    let canvas = render_box(rect(40, 30, 100, 80), target, 200, 160, [10, 20, 30]).unwrap();
    assert_eq!(canvas.get_pixel(37, 27), [30, 20, 10, 255]);
    assert_eq!(canvas.get_pixel(90, 70), [0, 0, 0, 0]);
    let error = render_box(rect(40, 30, 100, 80), target, u32::MAX, 1, [0; 3]).unwrap_err();
    assert_eq!(error, "overlay stride overflow");
    let error = render_box(rect(40, 30, 100, 80), target, 1 << 20, 1 << 20, [0; 3]).unwrap_err();
    assert_eq!(error, "overlay buffer size overflow");

    let mut image = Image::new(100, 50);
    image.put_pixel(0, 0, [9, 8, 7, 255]);
    let region = rect(100, 100, 400, 300);
    assert!(is_showable(region, target, &image, options(320, false)));
    let shown = render_preview(region, target, &image, [0, 0, 255], options(320, false));
    let shown = shown.unwrap().unwrap();
    assert_eq!((shown.layout.width, shown.layout.height), (336, 176));
    assert_eq!((shown.canvas.width(), shown.canvas.height()), (336, 176));
    assert_eq!(shown.canvas.get_pixel(8, 8), [7, 8, 9, 255]);
    assert_eq!(shown.interaction.content_height, 160);
    let hidden = render_preview(rect(0, 0, 1000, 800), target, &image, [0; 3], options(320, false));
    assert!(hidden.unwrap().is_none());
}
