//! What the pointer does on the preview: zooming, scrolling and dragging the crop handles.

use crate::preview::{
    bottom_source_from_crop, crop_source_to_pointer_y, end_of, larger, least, less, lower_handle,
    minus_or_zero, most, seen_row, wide_product, PreviewCropDrag, PreviewCropEdge,
    PreviewInteraction,
};
use crate::single::{confined, rounded, one, sum, Single};
use vstd::prelude::*;

verus! {

/// The code of the left button.
pub const LEFT_BUTTON: u32 = 0x110;

/// How far from a crop handle it can be seized.
pub const HANDLE_REACH: i64 = 8;

/// What was done on the preview since it was last asked.
#[derive(Clone, Copy, Debug)]
pub struct PreviewEvents {
    pub toggle_zoom: bool,
    pub scroll_delta: Single,
    pub crop_drag: Option<PreviewCropDrag>,
}

impl Default for PreviewEvents {
    fn default() -> (events: PreviewEvents)
        ensures
            !events.toggle_zoom,
            events.scroll_delta.units() == 0,
            events.crop_drag is None,
    {
        PreviewEvents { toggle_zoom: false, scroll_delta: Single::zero(), crop_drag: None }
    }
}

/// What the pointer does. Coordinates and distances are counted in parts of which 256 make
/// one.
#[derive(Clone, Copy, Debug)]
pub enum PointerEvent {
    Enter { on_preview: bool, x: i32, y: i32 },
    Leave { on_preview: bool },
    Motion { x: i32, y: i32 },
    Button { button: u32, pressed: bool },
    Axis { vertical: bool, value: i32 },
    /// There is no pointer any more.
    Lost,
}

/// The integer nearest to a number of 256th parts, ties going away from zero.
pub open spec fn fixed_round(n: int) -> int {
    if n < 0 {
        -((2 * (-n) + 256) / 512)
    } else {
        (2 * n + 256) / 512
    }
}

/// A number of 256th parts as a number of units.
pub open spec fn fixed_units(n: int) -> int {
    if n < 0 {
        -rounded(((-n) * one()) as int, 256)
    } else {
        rounded((n * one()) as int, 256)
    }
}

/// What is known of the pointer on the preview.
pub struct Input {
    pub on_preview: bool,
    pub x: int,
    pub y: int,
    pub toggle_zoom: bool,
    pub scroll: int,
    pub drag: Option<PreviewCropDrag>,
    pub seized: Option<PreviewCropEdge>,
    pub interaction: Option<PreviewInteraction>,
}

impl Input {
    /// Nothing done yet.
    pub open spec fn idle() -> Input {
        Input {
            on_preview: false,
            x: 0,
            y: 0,
            toggle_zoom: false,
            scroll: 0,
            drag: None,
            seized: None,
            interaction: None,
        }
    }

    /// Whether the pointer is near a row of the picture.
    pub open spec fn near(self, interaction: PreviewInteraction, source: int) -> bool {
        match seen_row(interaction, source) {
            Some(row) => -HANDLE_REACH <= fixed_round(self.y) - (interaction.padding + row)
                <= HANDLE_REACH,
            None => false,
        }
    }

    /// The crop handle under the pointer.
    pub open spec fn handle(self) -> Option<PreviewCropEdge> {
        match self.interaction {
            None => None,
            Some(i) => {
                let low = lower_handle(
                    i.crop_top as int,
                    i.crop_bottom as int,
                    i.image_height as int,
                );
                let beside = fixed_round(self.x) < i.padding || fixed_round(self.x) >= i.padding
                    + i.content_width;
                if !i.crop_enabled || beside {
                    None
                } else if self.near(i, i.crop_top as int) {
                    Some(PreviewCropEdge::Top)
                } else if self.near(i, low) {
                    Some(PreviewCropEdge::Bottom)
                } else {
                    None
                }
            },
        }
    }

    /// The row of the picture under the pointer.
    pub open spec fn row_under(self, i: PreviewInteraction) -> int {
        let row = confined(
            fixed_round(self.y - 256 * i.padding),
            0,
            less(i.content_height as int, 1),
        );
        least(
            i.viewport.source_start + row * i.viewport.source_len / most(
                i.content_height as int,
                1,
            ),
            u32::MAX as int,
        )
    }

    /// The handle that was seized follows the pointer.
    pub open spec fn dragged(self) -> Input {
        if self.seized is Some && self.interaction is Some && (self.interaction->0).crop_enabled {
            Input {
                drag: Some(
                    PreviewCropDrag {
                        edge: self.seized->0,
                        source_y: self.row_under(self.interaction->0) as u32,
                    },
                ),
                ..self
            }
        } else {
            self
        }
    }

    /// What is known after an event.
    pub open spec fn after(self, event: PointerEvent) -> Input {
        match event {
            PointerEvent::Enter { on_preview, x, y } => Input {
                on_preview,
                x: x as int,
                y: y as int,
                ..self
            },
            PointerEvent::Leave { on_preview } => if on_preview {
                Input { on_preview: false, seized: None, ..self }
            } else {
                self
            },
            PointerEvent::Motion { x, y } => {
                let moved = Input { x: x as int, y: y as int, ..self };
                if self.on_preview {
                    moved.dragged()
                } else {
                    moved
                }
            },
            PointerEvent::Button { button, pressed } => if !self.on_preview || button
                != LEFT_BUTTON {
                self
            } else if !pressed {
                Input { seized: None, ..self }
            } else if self.handle() is Some {
                (Input { seized: self.handle(), ..self }).dragged()
            } else {
                Input { seized: None, toggle_zoom: true, ..self }
            },
            PointerEvent::Axis { vertical, value } => if self.on_preview && vertical {
                Input { scroll: sum(self.scroll, fixed_units(value as int)), ..self }
            } else {
                self
            },
            PointerEvent::Lost => Input { on_preview: false, ..self },
        }
    }
}

/// The pointer on the preview.
#[derive(Clone, Copy, Debug)]
pub struct PreviewInput {
    on_preview: bool,
    x: i32,
    y: i32,
    toggle_zoom: bool,
    scroll_delta: Single,
    crop_drag: Option<PreviewCropDrag>,
    active_crop_drag: Option<PreviewCropEdge>,
    interaction: Option<PreviewInteraction>,
}

impl View for PreviewInput {
    type V = Input;

    closed spec fn view(&self) -> Input {
        Input {
            on_preview: self.on_preview,
            x: self.x as int,
            y: self.y as int,
            toggle_zoom: self.toggle_zoom,
            scroll: self.scroll_delta.units(),
            drag: self.crop_drag,
            seized: self.active_crop_drag,
            interaction: self.interaction,
        }
    }
}

fn round_fixed(n: i64) -> (result: i64)
    requires
        -0x200_0000_0000 <= n <= 0x200_0000_0000,
    ensures
        result == fixed_round(n as int),
{
    if n < 0 {
        -((2 * (-n) + 256) / 512)
    } else {
        (2 * n + 256) / 512
    }
}

/// A number of 256th parts as a number.
pub fn single_of_fixed(n: i32) -> (result: Single)
    ensures
        result.units() == fixed_units(n as int),
        result.is_finite(),
{
    let parts: u64 = if n < 0 {
        (-(n as i64)) as u64
    } else {
        n as u64
    };
    let size = Single::ratio(parts, 256);
    proof {
        crate::single::lemma_part_finite(parts as nat, 256);
    }
    if n < 0 {
        size.negated()
    } else {
        size
    }
}

impl PreviewInput {
    pub fn new() -> (input: PreviewInput)
        ensures
            input@ == Input::idle(),
    {
        PreviewInput {
            on_preview: false,
            x: 0,
            y: 0,
            toggle_zoom: false,
            scroll_delta: Single::zero(),
            crop_drag: None,
            active_crop_drag: None,
            interaction: None,
        }
    }

    /// Takes note of the preview that is shown, or that none is.
    pub fn show(&mut self, interaction: Option<PreviewInteraction>)
        ensures
            final(self)@ == (Input { interaction, ..old(self)@ }),
    {
        self.interaction = interaction;
    }

    fn is_near(&self, interaction: PreviewInteraction, source: u32) -> (near: bool)
        ensures
            near == self@.near(interaction, source as int),
    {
        let y: i64 = round_fixed(self.y as i64);
        match crop_source_to_pointer_y(interaction, source) {
            None => false,
            Some(row) => {
                let distance: i64 = y - (interaction.padding as i64 + row as i64);
                -HANDLE_REACH <= distance && distance <= HANDLE_REACH
            },
        }
    }

    /// The crop handle under the pointer.
    pub fn crop_edge_at_pointer(&self) -> (edge: Option<PreviewCropEdge>)
        ensures
            edge == self@.handle(),
    {
        let interaction = match self.interaction {
            None => {
                return None;
            },
            Some(interaction) => interaction,
        };
        if !interaction.crop_enabled {
            return None;
        }
        let x: i64 = round_fixed(self.x as i64);
        let left: i64 = interaction.padding as i64;
        if x < left || x >= left + interaction.content_width as i64 {
            return None;
        }
        if self.is_near(interaction, interaction.crop_top) {
            return Some(PreviewCropEdge::Top);
        }
        let low: u32 = bottom_source_from_crop(
            interaction.crop_top,
            interaction.crop_bottom,
            interaction,
        );
        if self.is_near(interaction, low) {
            return Some(PreviewCropEdge::Bottom);
        }
        None
    }

    /// Lets the handle that was seized follow the pointer.
    pub fn update_crop_drag(&mut self)
        ensures
            final(self)@ == old(self)@.dragged(),
    {
        if let Some(edge) = self.active_crop_drag {
            if let Some(i) = self.interaction {
                if i.crop_enabled {
                    let row: i64 = round_fixed(self.y as i64 - 256 * i.padding as i64);
                    let last: u32 = minus_or_zero(i.content_height, 1);
                    let relative: u32 = if row < 0 {
                        0
                    } else if row > last as i64 {
                        last
                    } else {
                        row as u32
                    };
                    let rows: u32 = larger(i.content_height, 1);
                    proof {
                        let n = relative * i.viewport.source_len;
                        let len = i.viewport.source_len;
                        assert(0 <= n / rows as int <= len) by (nonlinear_arith)
                            requires
                                n == relative * len,
                                0 <= relative <= rows,
                                0 < rows,
                                0 <= len,
                        ;
                    }
                    let down: u32 = (wide_product(relative, i.viewport.source_len)
                        / rows as u64) as u32;
                    let source_y: u32 = end_of(i.viewport.source_start, down);
                    self.crop_drag = Some(PreviewCropDrag { edge, source_y });
                }
            }
        }
    }

    /// Takes note of what the pointer does.
    pub fn handle_event(&mut self, event: PointerEvent)
        ensures
            final(self)@ == old(self)@.after(event),
    {
        match event {
            PointerEvent::Enter { on_preview, x, y } => {
                self.on_preview = on_preview;
                self.x = x;
                self.y = y;
            },
            PointerEvent::Leave { on_preview } => {
                if on_preview {
                    self.on_preview = false;
                    self.active_crop_drag = None;
                }
            },
            PointerEvent::Motion { x, y } => {
                self.x = x;
                self.y = y;
                if self.on_preview {
                    self.update_crop_drag();
                }
            },
            PointerEvent::Button { button, pressed } => {
                if self.on_preview && button == LEFT_BUTTON {
                    if pressed {
                        self.active_crop_drag = self.crop_edge_at_pointer();
                        if self.active_crop_drag.is_some() {
                            self.update_crop_drag();
                        } else {
                            self.toggle_zoom = true;
                        }
                    } else {
                        self.active_crop_drag = None;
                    }
                }
            },
            PointerEvent::Axis { vertical, value } => {
                if self.on_preview && vertical {
                    self.scroll_delta = self.scroll_delta.plus(single_of_fixed(value));
                }
            },
            PointerEvent::Lost => {
                self.on_preview = false;
            },
        }
    }

    /// Hands out what was done since the last time.
    pub fn take_events(&mut self) -> (events: PreviewEvents)
        ensures
            events.toggle_zoom == old(self)@.toggle_zoom,
            events.scroll_delta.units() == old(self)@.scroll,
            events.crop_drag == old(self)@.drag,
            final(self)@ == (Input { toggle_zoom: false, scroll: 0, drag: None, ..old(self)@ }),
    {
        let events = PreviewEvents {
            toggle_zoom: self.toggle_zoom,
            scroll_delta: self.scroll_delta,
            crop_drag: self.crop_drag,
        };
        self.toggle_zoom = false;
        self.scroll_delta = Single::zero();
        self.crop_drag = None;
        events
    }
}

/// Away from the preview nothing that is handed out comes of buttons, wheel or motion.
pub proof fn lemma_ignored_elsewhere(input: Input, event: PointerEvent)
    requires
        !input.on_preview,
    ensures
        input.after(event).toggle_zoom == input.toggle_zoom,
        input.after(event).scroll == input.scroll,
        input.after(event).drag == input.drag,
{
}

/// Pressing the left button on the preview either seizes a crop handle or toggles the zoom,
/// never both.
pub proof fn lemma_press_seizes_or_zooms(input: Input)
    requires
        input.on_preview,
        !input.toggle_zoom,
    ensures
        ({
            let after = input.after(
                PointerEvent::Button { button: LEFT_BUTTON, pressed: true },
            );
            after.toggle_zoom <==> after.seized is None
        }),
{
}

} // verus!
