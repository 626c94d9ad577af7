//! What is asked of the compositor before frames are captured.

use crate::geometry::{find_target_output, is_target, middle};
use crate::preview::{OutputInfo, OverlayConfig, PreviewEdge, PreviewOptions, Rect};
use crate::text::same_text;
use vstd::prelude::*;

verus! {

/// An interface of the compositor that is used.
#[derive(Clone, Copy, Debug, PartialEq, Eq, Structural)]
pub enum Interface {
    Shm,
    Compositor,
    Output,
    Screencopy,
    LayerShell,
    XdgOutput,
    Seat,
}

/// The interface of a name.
pub open spec fn named_interface(name: Seq<char>) -> Option<Interface> {
    if name == "wl_shm"@ {
        Some(Interface::Shm)
    } else if name == "wl_compositor"@ {
        Some(Interface::Compositor)
    } else if name == "wl_output"@ {
        Some(Interface::Output)
    } else if name == "zwlr_screencopy_manager_v1"@ {
        Some(Interface::Screencopy)
    } else if name == "zwlr_layer_shell_v1"@ {
        Some(Interface::LayerShell)
    } else if name == "zxdg_output_manager_v1"@ {
        Some(Interface::XdgOutput)
    } else if name == "wl_seat"@ {
        Some(Interface::Seat)
    } else {
        None
    }
}

/// The highest version of an interface that is used; the first version where none other is.
pub open spec fn newest_version(interface: Interface) -> Option<u32> {
    match interface {
        Interface::Shm => None,
        Interface::Compositor => Some(4),
        Interface::Output => Some(2),
        Interface::Screencopy => Some(3),
        Interface::LayerShell => Some(4),
        Interface::XdgOutput => Some(3),
        Interface::Seat => Some(8),
    }
}

/// The version of an interface that is used when the compositor has the given one.
pub open spec fn used_version(interface: Interface, offered: u32) -> u32 {
    match newest_version(interface) {
        None => 1,
        Some(newest) => if offered < newest {
            offered
        } else {
            newest
        },
    }
}

/// The interface of a name and the version of it that is used, if it is.
pub fn global_binding(name: &str, offered: u32) -> (binding: Option<(Interface, u32)>)
    ensures
        match named_interface(name@) {
            Some(interface) => binding == Some((interface, used_version(interface, offered))),
            None => binding is None,
        },
{
    let (interface, newest): (Interface, u32) = if same_text(name, "wl_shm") {
        return Some((Interface::Shm, 1));
    } else if same_text(name, "wl_compositor") {
        (Interface::Compositor, 4)
    } else if same_text(name, "wl_output") {
        (Interface::Output, 2)
    } else if same_text(name, "zwlr_screencopy_manager_v1") {
        (Interface::Screencopy, 3)
    } else if same_text(name, "zwlr_layer_shell_v1") {
        (Interface::LayerShell, 4)
    } else if same_text(name, "zxdg_output_manager_v1") {
        (Interface::XdgOutput, 3)
    } else if same_text(name, "wl_seat") {
        (Interface::Seat, 8)
    } else {
        return None;
    };
    Some(
        (
            interface,
            if offered < newest {
                offered
            } else {
                newest
            },
        ),
    )
}

/// Which interfaces the compositor has.
#[derive(Clone, Copy, Debug)]
pub struct Globals {
    pub shm: bool,
    pub compositor: bool,
    pub screencopy: bool,
    pub layer_shell: bool,
    pub xdg_output: bool,
}

/// Whether screens can be told apart.
pub fn check_outputs(globals: &Globals) -> (result: Result<(), String>)
    ensures
        match result {
            Ok(()) => globals.xdg_output,
            Err(text) => !globals.xdg_output && text@
                == "required Wayland protocol is missing: xdg-output"@,
        },
{
    if globals.xdg_output {
        Ok(())
    } else {
        Err("required Wayland protocol is missing: xdg-output".to_owned())
    }
}

/// How frames are captured: from which screen, and what is shown meanwhile.
#[derive(Clone, Copy, Debug)]
pub struct CapturePlan {
    pub target: usize,
    /// Whether the border around the region is shown.
    pub border: bool,
    /// Whether the preview is shown.
    pub preview: bool,
    /// Whether the compositor is waited for before the first frame.
    pub settle: bool,
}

/// Whether something can be shown on a screen.
pub open spec fn can_show(globals: Globals, target: OutputInfo) -> bool {
    globals.compositor && globals.layer_shell && target.has_geometry && target.width > 0
        && target.height > 0
}

/// Why frames cannot be captured, if they cannot.
pub open spec fn obstacle(globals: Globals, outputs: Seq<OutputInfo>) -> Option<Seq<char>> {
    if !globals.shm {
        Some("required Wayland protocol is missing: wl_shm"@)
    } else if !globals.screencopy {
        Some("required Wayland protocol is missing: wlr-screencopy"@)
    } else if outputs.len() == 0 {
        Some("failed to resolve target output"@)
    } else {
        None
    }
}

/// Whether the middle of a region can be told.
pub fn has_middle(geometry: Rect) -> (result: bool)
    ensures
        result == (i32::MIN <= middle(geometry.x as int, geometry.width as int) <= i32::MAX
            && i32::MIN <= middle(geometry.y as int, geometry.height as int) <= i32::MAX),
{
    let half_width: i64 = if geometry.width < 0 {
        -(-(geometry.width as i64) / 2)
    } else {
        geometry.width as i64 / 2
    };
    let half_height: i64 = if geometry.height < 0 {
        -(-(geometry.height as i64) / 2)
    } else {
        geometry.height as i64 / 2
    };
    let x: i64 = geometry.x as i64 + half_width;
    let y: i64 = geometry.y as i64 + half_height;
    i32::MIN as i64 <= x && x <= i32::MAX as i64 && i32::MIN as i64 <= y && y <= i32::MAX as i64
}

/// How frames of a region are captured, or why they cannot be.
pub fn plan_capture(
    globals: &Globals,
    outputs: &Vec<OutputInfo>,
    geometry: Rect,
    overlay: &OverlayConfig,
) -> (result: Result<CapturePlan, String>)
    requires
        i32::MIN <= middle(geometry.x as int, geometry.width as int) <= i32::MAX,
        i32::MIN <= middle(geometry.y as int, geometry.height as int) <= i32::MAX,
    ensures
        match result {
            Ok(plan) => {
                &&& obstacle(*globals, outputs@) is None
                &&& is_target(outputs@, geometry, plan.target as int)
                &&& plan.border == (overlay.enabled && can_show(
                    *globals,
                    outputs@[plan.target as int],
                ))
                &&& plan.preview == (overlay.preview.enabled && can_show(
                    *globals,
                    outputs@[plan.target as int],
                ))
                &&& plan.settle == (overlay.enabled || overlay.preview.enabled)
            },
            Err(text) => obstacle(*globals, outputs@) == Some(text@),
        },
{
    if !globals.shm {
        return Err("required Wayland protocol is missing: wl_shm".to_owned());
    }
    if !globals.screencopy {
        return Err("required Wayland protocol is missing: wlr-screencopy".to_owned());
    }
    let target: usize = match find_target_output(outputs, geometry) {
        Some(target) => target,
        None => {
            return Err("failed to resolve target output".to_owned());
        },
    };
    let showable: bool = globals.compositor && globals.layer_shell && outputs[target].drawable();
    Ok(
        CapturePlan {
            target,
            border: overlay.enabled && showable,
            preview: overlay.preview.enabled && showable,
            settle: overlay.enabled || overlay.preview.enabled,
        },
    )
}

/// What a preview shows before there is a picture.
pub fn empty_preview(width: u32) -> (options: PreviewOptions)
    ensures
        options == (PreviewOptions {
            width,
            zoomed: false,
            source_pos: 0,
            frame_len: 0,
            edge: PreviewEdge::Neither,
            capture_pos: 0,
            capture_len: 0,
            crop_enabled: false,
            crop_top: 0,
            crop_bottom: 0,
        }),
{
    PreviewOptions {
        width,
        zoomed: false,
        source_pos: 0,
        frame_len: 0,
        edge: PreviewEdge::Neither,
        capture_pos: 0,
        capture_len: 0,
        crop_enabled: false,
        crop_top: 0,
        crop_bottom: 0,
    }
}

/// What is done about the pointer when the seat tells whether it has one.
#[derive(Clone, Copy, Debug, PartialEq, Eq, Structural)]
pub enum PointerChange {
    /// It is asked for.
    Bind,
    /// It is gone.
    Drop,
    Keep,
}

/// What is done about the pointer when the seat tells whether it has one.
pub fn pointer_change(has_pointer: bool, bound: bool) -> (change: PointerChange)
    ensures
        change == if has_pointer && !bound {
            PointerChange::Bind
        } else if !has_pointer {
            PointerChange::Drop
        } else {
            PointerChange::Keep
        },
{
    if has_pointer && !bound {
        PointerChange::Bind
    } else if !has_pointer {
        PointerChange::Drop
    } else {
        PointerChange::Keep
    }
}

} // verus!
