//! Which part of the picture the preview shows, and how it is cropped.

use crate::pointer::PreviewEvents;
use crate::preview::{
    end_of, larger, least, less, minus_or_zero, most, scale_height_for_width, scaled_rows, smaller,
    wide_product, PreviewCropDrag, PreviewCropEdge, PreviewEdge, PreviewOptions,
};
use crate::profile::fraction;
use crate::raster::Image;
use crate::search::Edge;
use crate::single::{
    confined, infinite, lemma_quotient_bounded, limit, lemma_whole_exact, magnitude,
    nearest_integer, one, product, quotient, Single,
};
use crate::stitch::{StitchResult, StitchStatus, Stitcher};
use vstd::arithmetic::power2::{lemma2_to64, lemma_pow2_adds, lemma_pow2_pos, pow2};
use vstd::prelude::*;

verus! {

/// The state of the preview.
#[derive(Clone, Copy, Debug)]
pub struct PreviewView {
    pub zoomed: bool,
    pub scrub_pos: u32,
    pub following: bool,
    pub frame_len: u32,
    pub edge: Option<Edge>,
    pub capture_pos: u32,
    pub capture_len: u32,
    pub crop_enabled: bool,
    pub crop_top: u32,
    pub crop_bottom: u32,
    pub crop_image_height: u32,
}

/// The state of a preview that has shown nothing yet.
pub open spec fn fresh_view() -> PreviewView {
    PreviewView {
        zoomed: false,
        scrub_pos: 0,
        following: true,
        frame_len: 0,
        edge: None,
        capture_pos: 0,
        capture_len: 0,
        crop_enabled: true,
        crop_top: 0,
        crop_bottom: 0,
        crop_image_height: 0,
    }
}

impl Default for PreviewView {
    fn default() -> (view: PreviewView)
        ensures
            view == fresh_view(),
    {
        PreviewView {
            zoomed: false,
            scrub_pos: 0,
            following: true,
            frame_len: 0,
            edge: None,
            capture_pos: 0,
            capture_len: 0,
            crop_enabled: true,
            crop_top: 0,
            crop_bottom: 0,
            crop_image_height: 0,
        }
    }
}

impl PreviewView {
    /// The crop brought in line with the height of the picture: what is cropped at the
    /// bottom stays cropped when the picture grows, and at least one row is left.
    pub open spec fn crop_synced(self, height: u32) -> PreviewView {
        if height == 0 {
            PreviewView { crop_top: 0, crop_bottom: 0, crop_image_height: 0, ..self }
        } else {
            let grown = self.crop_image_height > 0 && height > self.crop_image_height
                && self.crop_bottom > 0;
            let bottom = if grown {
                least(self.crop_bottom + (height - self.crop_image_height), u32::MAX as int)
            } else {
                self.crop_bottom as int
            };
            let top = least(self.crop_top as int, height - 1);
            PreviewView {
                crop_top: top as u32,
                crop_bottom: least(bottom, height - (top + 1)) as u32,
                crop_image_height: height,
                ..self
            }
        }
    }

    /// Whether the crop leaves a row of a picture of the given height.
    pub open spec fn crop_leaves(self, height: u32) -> bool {
        if height == 0 {
            self.crop_top == 0 && self.crop_bottom == 0
        } else {
            self.crop_top + self.crop_bottom < height
        }
    }

    /// Where the last frame was captured, after an outcome.
    pub open spec fn captured(self, outcome: StitchResult) -> PreviewView {
        let accepted = outcome.status == StitchStatus::FirstFrame || outcome.status
            == StitchStatus::Appended;
        let stable = outcome.status == StitchStatus::NoProgress && outcome.edge is None;
        if outcome.status == StitchStatus::FirstFrame {
            PreviewView { capture_pos: 0, capture_len: outcome.frame_len, ..self }
        } else if accepted || stable {
            PreviewView {
                capture_pos: if outcome.status == StitchStatus::Appended && outcome.edge == Some(
                    Edge::Start,
                ) {
                    0
                } else {
                    most(outcome.position as int, 0) as u32
                },
                capture_len: outcome.frame_len,
                ..self
            }
        } else {
            self
        }
    }

    /// The preview after an outcome, for a picture of the given height.
    pub open spec fn synced(self, height: Option<u32>, outcome: StitchResult) -> PreviewView {
        let accepted = outcome.status == StitchStatus::FirstFrame || outcome.status
            == StitchStatus::Appended;
        let seen = self.captured(outcome);
        if !self.following && accepted {
            PreviewView {
                following: true,
                scrub_pos: seen.capture_pos,
                frame_len: outcome.frame_len,
                edge: outcome.edge,
                ..seen
            }
        } else if !self.following {
            if outcome.edge == Some(Edge::Start) && outcome.added > 0 {
                PreviewView {
                    scrub_pos: least(self.scrub_pos + outcome.added, u32::MAX as int) as u32,
                    ..seen
                }
            } else {
                seen
            }
        } else if !accepted || height is None {
            seen
        } else {
            PreviewView {
                scrub_pos: least(seen.capture_pos as int, less(height->0 as int, 1)) as u32,
                frame_len: outcome.frame_len,
                edge: outcome.edge,
                ..seen
            }
        }
    }

    /// The preview moved to the end of a picture of the given height.
    pub open spec fn at_bottom(self, height: u32, frame_len: u32) -> PreviewView {
        let pos = less(height as int, frame_len as int);
        PreviewView {
            following: true,
            frame_len,
            edge: Some(Edge::End),
            capture_len: 0,
            capture_pos: pos as u32,
            scrub_pos: least(pos, less(height as int, 1)) as u32,
            ..self
        }
    }

    /// What the preview shows.
    pub open spec fn options(self, width: u32) -> PreviewOptions {
        PreviewOptions {
            width,
            zoomed: self.zoomed,
            source_pos: self.scrub_pos,
            frame_len: if self.following {
                self.frame_len
            } else {
                0
            },
            edge: if self.following {
                followed_edge(self.edge)
            } else {
                PreviewEdge::Neither
            },
            capture_pos: self.capture_pos,
            capture_len: self.capture_len,
            crop_enabled: self.crop_enabled,
            crop_top: self.crop_top,
            crop_bottom: self.crop_bottom,
        }
    }

    /// The crop after a handle was dragged.
    pub open spec fn cropped(self, drag: Option<PreviewCropDrag>, height: u32) -> PreviewView {
        if drag is None || !self.crop_enabled {
            self
        } else {
            let source = (drag->0).source_y as int;
            match (drag->0).edge {
                PreviewCropEdge::Top => PreviewView {
                    crop_top: least(source, less(height as int, self.crop_bottom + 1)) as u32,
                    ..self
                },
                PreviewCropEdge::Bottom => {
                    let end = least(
                        most(source, least(self.crop_top + 1, u32::MAX as int)),
                        height as int,
                    );
                    PreviewView { crop_bottom: less(height as int, end) as u32, ..self }
                },
            }
        }
    }

    /// The preview scrolled.
    pub open spec fn scrolled(self, scroll: int, amount: u32, height: u32) -> PreviewView {
        if scroll < 0 {
            PreviewView {
                scrub_pos: less(self.scrub_pos as int, amount as int) as u32,
                following: false,
                ..self
            }
        } else if scroll > 0 {
            PreviewView {
                scrub_pos: least(
                    least(self.scrub_pos + amount, u32::MAX as int),
                    less(height as int, 1),
                ) as u32,
                following: false,
                ..self
            }
        } else {
            self
        }
    }

    /// The zoom toggled or not.
    pub open spec fn zoom_toggled(self, toggle: bool, height: u32) -> PreviewView {
        if toggle {
            PreviewView {
                zoomed: !self.zoomed,
                scrub_pos: least(self.scrub_pos as int, less(height as int, 1)) as u32,
                ..self
            }
        } else {
            self
        }
    }

    /// The preview after what was done on it.
    pub open spec fn handled(
        self,
        toggle: bool,
        scroll: int,
        drag: Option<PreviewCropDrag>,
        image_width: u32,
        image_height: u32,
        width: u32,
    ) -> PreviewView {
        let cropped = self.crop_synced(image_height).cropped(drag, image_height);
        if nothing_done(toggle, scroll, drag) {
            cropped
        } else {
            let zoomed = cropped.zoom_toggled(toggle, image_height);
            let amount = scroll_amount(
                scroll,
                image_width as int,
                image_height as int,
                width as int,
                zoomed.zoomed,
                zoomed.capture_len as int,
            );
            zoomed.scrolled(scroll, amount as u32, image_height)
        }
    }
}

/// Whether nothing was done that the preview has to be drawn anew for.
pub open spec fn nothing_done(toggle: bool, scroll: int, drag: Option<PreviewCropDrag>) -> bool {
    !toggle && magnitude(scroll) < fraction(1, 8388608) && drag is None
}

/// The end that the preview follows.
pub open spec fn followed_edge(edge: Option<Edge>) -> PreviewEdge {
    match edge {
        Some(Edge::Start) => PreviewEdge::Start,
        Some(Edge::End) => PreviewEdge::End,
        None => PreviewEdge::Neither,
    }
}

/// The width of the content that the length shown is estimated by.
pub open spec fn estimated_width(width: int, zoomed: bool) -> int {
    most(width, if zoomed { 240 } else { 1 })
}

/// How many rows of the picture the preview shows, by estimate.
pub open spec fn estimated_rows(
    image_width: int,
    image_height: int,
    width: int,
    zoomed: bool,
    capture_len: int,
) -> int {
    if image_width == 0 || image_height == 0 {
        1
    } else {
        let scaled = scaled_rows(image_width, image_height, estimated_width(width, zoomed));
        let visible = most(least(scaled, most(less(capture_len, 16), 1)), 1);
        least(most(visible * image_height / scaled, 1), image_height)
    }
}

/// How many rows a turn of the wheel scrolls.
pub open spec fn scroll_amount(
    scroll: int,
    image_width: int,
    image_height: int,
    width: int,
    zoomed: bool,
    capture_len: int,
) -> int {
    let base = most(
        16,
        estimated_rows(image_width, image_height, width, zoomed, capture_len) / 8,
    );
    let turned = quotient(magnitude(scroll) as int, fraction(15, 1));
    let least_turn = fraction(35, 100);
    let notches = if turned < least_turn {
        least_turn
    } else {
        turned
    };
    if infinite(scroll) {
        u32::MAX as int
    } else {
        confined(
            nearest_integer(product(notches, fraction(base as nat, 1))),
            0,
            u32::MAX as int,
        )
    }
}

/// Brings the crop in line with the height of the picture.
pub fn sync_crop_with_image_height(view: &mut PreviewView, image_height: u32)
    ensures
        *final(view) == old(view).crop_synced(image_height),
        final(view).crop_leaves(image_height),
{
    if image_height == 0 {
        view.crop_top = 0;
        view.crop_bottom = 0;
        view.crop_image_height = 0;
        return;
    }
    if view.crop_image_height > 0 && image_height > view.crop_image_height && view.crop_bottom > 0 {
        view.crop_bottom = end_of(view.crop_bottom, image_height - view.crop_image_height);
    }
    view.crop_top = smaller(view.crop_top, image_height - 1);
    view.crop_bottom = smaller(view.crop_bottom, image_height - (view.crop_top + 1));
    view.crop_image_height = image_height;
}

/// The height of what is stitched.
pub open spec fn stitched_height(stitcher: Stitcher) -> Option<u32> {
    match stitcher@.full {
        Some(full) => Some(full.height as u32),
        None => None,
    }
}

/// Brings the preview in line with what became of a frame.
pub fn sync_preview_view(
    view: &mut PreviewView,
    stitcher: &Stitcher,
    outcome: StitchResult,
    _preview_width: u32,
)
    ensures
        *final(view) == old(view).synced(stitched_height(*stitcher), outcome),
{
    let accepted: bool = outcome.accepted();
    let stable: bool = outcome.status == StitchStatus::NoProgress && outcome.edge.is_none();
    let at_start: bool = match outcome.edge {
        Some(Edge::Start) => true,
        _ => false,
    };
    if outcome.status == StitchStatus::FirstFrame {
        view.capture_pos = 0;
        view.capture_len = outcome.frame_len;
    } else if accepted || stable {
        view.capture_pos = if outcome.status == StitchStatus::Appended && at_start {
            0
        } else if outcome.position > 0 {
            outcome.position as u32
        } else {
            0
        };
        view.capture_len = outcome.frame_len;
    }
    if !view.following && accepted {
        view.following = true;
        view.scrub_pos = view.capture_pos;
        view.frame_len = outcome.frame_len;
        view.edge = outcome.edge;
        return;
    }
    if !view.following {
        if at_start && outcome.added > 0 {
            view.scrub_pos = end_of(view.scrub_pos, outcome.added);
        }
        return;
    }
    if !accepted {
        return;
    }
    if let Some(full) = stitcher.full() {
        view.scrub_pos = smaller(view.capture_pos, minus_or_zero(full.height(), 1));
        view.frame_len = outcome.frame_len;
        view.edge = outcome.edge;
    }
}

/// Moves the preview to the end of the picture.
pub fn force_preview_to_bottom(view: &mut PreviewView, stitcher: &Stitcher, frame_len: u32)
    ensures
        *final(view) == match stitched_height(*stitcher) {
            Some(height) => old(view).at_bottom(height, frame_len),
            None => *old(view),
        },
{
    if let Some(full) = stitcher.full() {
        let height: u32 = full.height();
        view.following = true;
        view.frame_len = frame_len;
        view.edge = Some(Edge::End);
        view.capture_len = 0;
        view.capture_pos = minus_or_zero(height, frame_len);
        view.scrub_pos = smaller(view.capture_pos, minus_or_zero(height, 1));
    }
}

/// The end that the preview follows.
pub fn preview_edge(edge: Option<Edge>) -> (followed: PreviewEdge)
    ensures
        followed == followed_edge(edge),
{
    match edge {
        Some(Edge::Start) => PreviewEdge::Start,
        Some(Edge::End) => PreviewEdge::End,
        None => PreviewEdge::Neither,
    }
}

/// What the preview shows.
pub fn preview_options(view: &PreviewView, width: u32) -> (options: PreviewOptions)
    ensures
        options == view.options(width),
{
    PreviewOptions {
        width,
        zoomed: view.zoomed,
        source_pos: view.scrub_pos,
        frame_len: if view.following {
            view.frame_len
        } else {
            0
        },
        edge: if view.following {
            preview_edge(view.edge)
        } else {
            PreviewEdge::Neither
        },
        capture_pos: view.capture_pos,
        capture_len: view.capture_len,
        crop_enabled: view.crop_enabled,
        crop_top: view.crop_top,
        crop_bottom: view.crop_bottom,
    }
}

/// How many rows of the picture the preview shows, by estimate.
pub fn estimated_preview_source_len(image: &Image, width: u32, zoomed: bool, capture_len: u32) -> (rows:
    u32)
    requires
        scaled_rows(
            image@.width as int,
            image@.height as int,
            estimated_width(width as int, zoomed),
        ) > 0,
    ensures
        rows == estimated_rows(
            image@.width as int,
            image@.height as int,
            width as int,
            zoomed,
            capture_len as int,
        ),
{
    let height: u32 = image.height();
    if image.width() == 0 || height == 0 {
        return 1;
    }
    let content: u32 = larger(width, if zoomed { 240 } else { 1 });
    let scaled: u32 = scale_height_for_width(image.width(), height, content);
    let visible: u32 = larger(
        smaller(scaled, larger(minus_or_zero(capture_len, 16), 1)),
        1,
    );
    let rows: u64 = wide_product(visible, height) / scaled as u64;
    if rows > height as u64 {
        height
    } else if rows > 1 {
        rows as u32
    } else {
        1
    }
}

/// A finite number divided by fifteen is finite.
proof fn lemma_turned_finite(n: int)
    requires
        0 <= n < limit(),
    ensures
        fraction(15, 1) == 15 * one(),
        0 < 15 * one() < limit(),
        0 <= quotient(n, fraction(15, 1)) < limit(),
{
    lemma_whole_exact(15);
    lemma_pow2_pos(149);
    lemma2_to64();
    lemma_pow2_adds(21, 253);
    lemma_pow2_adds(3, 274);
    let unit: nat = one();
    let part: nat = pow2(274);
    assert(0x20_0000 * pow2(253) == part);
    assert(n * unit <= part * (15 * unit)) by (nonlinear_arith)
        requires
            0 <= n <= 8 * part,
            0 < unit,
    ;
    lemma_quotient_bounded(n, (15 * one()) as int, 0x20_0000, 253);
}

/// How many rows a turn of the wheel scrolls.
pub fn preview_scroll_amount(
    delta: Single,
    image: &Image,
    width: u32,
    zoomed: bool,
    capture_len: u32,
) -> (amount: u32)
    requires
        scaled_rows(
            image@.width as int,
            image@.height as int,
            estimated_width(width as int, zoomed),
        ) > 0,
    ensures
        amount == scroll_amount(
            delta.units(),
            image@.width as int,
            image@.height as int,
            width as int,
            zoomed,
            capture_len as int,
        ),
{
    if !delta.finite() {
        return u32::MAX;
    }
    let rows: u32 = estimated_preview_source_len(image, width, zoomed, capture_len);
    let base: u32 = larger(16, rows / 8);
    proof {
        lemma_turned_finite(magnitude(delta.units()) as int);
        crate::single::lemma_part_finite(35, 100);
        crate::single::lemma_part_finite(base as nat, 1);
    }
    let notches = delta.absolute().over(Single::whole(15)).greater(Single::ratio(35, 100));
    let amount: i64 = notches.times(Single::whole(base as u64)).round_within(0, u32::MAX as i64);
    amount as u32
}

/// Brings the preview in line with what was done on it, and tells whether it has to be drawn
/// anew.
pub fn apply_preview_events(
    view: &mut PreviewView,
    events: PreviewEvents,
    image: &Image,
    width: u32,
) -> (redraw: bool)
    requires
        nothing_done(events.toggle_zoom, events.scroll_delta.units(), events.crop_drag)
            || scaled_rows(
            image@.width as int,
            image@.height as int,
            estimated_width(width as int, old(view).zoomed != events.toggle_zoom),
        ) > 0,
    ensures
        *final(view) == old(view).handled(
            events.toggle_zoom,
            events.scroll_delta.units(),
            events.crop_drag,
            image@.width as u32,
            image@.height as u32,
            width,
        ),
        redraw == !nothing_done(
            events.toggle_zoom,
            events.scroll_delta.units(),
            events.crop_drag,
        ),
{
    let image_height: u32 = image.height();
    let _ = image.width();
    sync_crop_with_image_height(view, image_height);
    if view.crop_enabled {
        if let Some(drag) = events.crop_drag {
            match drag.edge {
                PreviewCropEdge::Top => {
                    view.crop_top = smaller(
                        drag.source_y,
                        minus_or_zero(image_height, view.crop_bottom + 1),
                    );
                },
                PreviewCropEdge::Bottom => {
                    let end: u32 = smaller(
                        larger(drag.source_y, end_of(view.crop_top, 1)),
                        image_height,
                    );
                    view.crop_bottom = minus_or_zero(image_height, end);
                },
            }
        }
    }
    let zero = Single::zero();
    let still: bool = events.scroll_delta.absolute().below(Single::ratio(1, 8388608));
    if !events.toggle_zoom && still && events.crop_drag.is_none() {
        return false;
    }
    if events.toggle_zoom {
        view.zoomed = !view.zoomed;
        view.scrub_pos = smaller(view.scrub_pos, minus_or_zero(image_height, 1));
    }
    let amount: u32 = preview_scroll_amount(
        events.scroll_delta,
        image,
        width,
        view.zoomed,
        view.capture_len,
    );
    if events.scroll_delta.below(zero) {
        view.scrub_pos = minus_or_zero(view.scrub_pos, amount);
        view.following = false;
    } else if zero.below(events.scroll_delta) {
        view.scrub_pos = smaller(
            end_of(view.scrub_pos, amount),
            minus_or_zero(image_height, 1),
        );
        view.following = false;
    }
    true
}

/// Whatever is done on the preview, the crop leaves at least one row of the picture.
pub proof fn lemma_crop_leaves_a_row(
    view: PreviewView,
    toggle: bool,
    scroll: int,
    drag: Option<PreviewCropDrag>,
    image_width: u32,
    image_height: u32,
    width: u32,
)
    ensures
        view.handled(toggle, scroll, drag, image_width, image_height, width).crop_leaves(
            image_height,
        ),
{
}

/// What is cropped at the bottom stays cropped when the picture grows below: the rows left
/// are the same.
pub proof fn lemma_crop_kept_on_growth(view: PreviewView, height: u32, grown: u32)
    requires
        0 < height <= grown,
        view.crop_image_height == height,
        view.crop_leaves(height),
        view.crop_bottom > 0,
    ensures
        view.crop_synced(grown).crop_top == view.crop_top,
        grown - view.crop_synced(grown).crop_bottom == height - view.crop_bottom,
{
}

/// A frame that makes no progress does not move the preview.
pub proof fn lemma_no_progress_keeps_place(
    view: PreviewView,
    height: Option<u32>,
    outcome: StitchResult,
)
    requires
        outcome.status == StitchStatus::NoProgress || outcome.status == StitchStatus::NoMatch,
        outcome.added == 0,
    ensures
        view.synced(height, outcome).scrub_pos == view.scrub_pos,
        view.synced(height, outcome).following == view.following,
        view.synced(height, outcome).edge == view.edge,
{
}

/// A frame that is taken makes the preview follow it again, whether or not it followed before:
/// it stands where the frame lies, which is the top for the first frame and for growth above.
pub proof fn lemma_growth_is_followed(
    view: PreviewView,
    height: Option<u32>,
    outcome: StitchResult,
)
    requires
        outcome.status == StitchStatus::FirstFrame || outcome.status == StitchStatus::Appended,
        height is Some,
    ensures
        ({
            let after = view.synced(height, outcome);
            &&& after.following
            &&& after.edge == outcome.edge
            &&& after.frame_len == outcome.frame_len
            &&& after.capture_len == outcome.frame_len
            &&& outcome.status == StitchStatus::FirstFrame ==> after.capture_pos == 0
                && after.scrub_pos == 0
            &&& outcome.edge == Some(Edge::Start) ==> after.scrub_pos == 0 && after.capture_pos == 0
            &&& outcome.status == StitchStatus::Appended && outcome.edge != Some(Edge::Start)
                && 0 <= outcome.position < height->0 ==> after.capture_pos == outcome.position
                && after.scrub_pos == outcome.position
            &&& after.scrub_pos == after.capture_pos || (view.following && after.scrub_pos + 1
                == height->0) || (view.following && height->0 == 0 && after.scrub_pos == 0)
            &&& after == (PreviewView {
                following: after.following,
                edge: after.edge,
                frame_len: after.frame_len,
                capture_pos: after.capture_pos,
                capture_len: after.capture_len,
                scrub_pos: after.scrub_pos,
                ..view
            })
        }),
{
}

/// A frame that is refused, or that is too short at an end, leaves the preview as it is; one that
/// is known only tells where it lies.
pub proof fn lemma_no_growth_shown(view: PreviewView, height: Option<u32>, outcome: StitchResult)
    requires
        outcome.status == StitchStatus::NoProgress || outcome.status == StitchStatus::NoMatch,
        outcome.added == 0,
    ensures
        outcome.status == StitchStatus::NoMatch || outcome.edge is Some ==> view.synced(
            height,
            outcome,
        ) == view,
        outcome.status == StitchStatus::NoProgress && outcome.edge is None ==> view.synced(
            height,
            outcome,
        ) == (PreviewView {
            capture_pos: if outcome.position > 0 {
                outcome.position as u32
            } else {
                0
            },
            capture_len: outcome.frame_len,
            ..view
        }),
{
}

/// A preview moved to the bottom follows the last frame there: it ends where the picture ends.
pub proof fn lemma_bottom_followed(view: PreviewView, height: u32, frame_len: u32)
    requires
        height > 0,
    ensures
        ({
            let after = view.at_bottom(height, frame_len);
            &&& after.following
            &&& after.edge == Some(Edge::End)
            &&& after.frame_len == frame_len
            &&& after.capture_len == 0
            &&& 0 < frame_len <= height ==> after.scrub_pos + frame_len == height
                && after.capture_pos == after.scrub_pos
            &&& frame_len >= height ==> after.scrub_pos == 0 && after.capture_pos == 0
            &&& after.zoomed == view.zoomed
            &&& after.crop_enabled == view.crop_enabled
            &&& after.crop_top == view.crop_top
            &&& after.crop_bottom == view.crop_bottom
            &&& after.crop_image_height == view.crop_image_height
        }),
{
}

/// The wheel moves the preview by whole rows towards the top or the bottom, not beyond them, and
/// it does not follow the frames any more; without a turn nothing moves.
pub proof fn lemma_scrolled(view: PreviewView, scroll: int, amount: u32, height: u32)
    requires
        height > 0,
    ensures
        ({
            let after = view.scrolled(scroll, amount, height);
            &&& scroll == 0 ==> after == view
            &&& scroll != 0 ==> !after.following
            &&& scroll < 0 && amount <= view.scrub_pos ==> after.scrub_pos + amount
                == view.scrub_pos
            &&& scroll < 0 && amount > view.scrub_pos ==> after.scrub_pos == 0
            &&& scroll > 0 && view.scrub_pos + amount < height ==> after.scrub_pos
                == view.scrub_pos + amount
            &&& scroll > 0 && view.scrub_pos + amount >= height ==> after.scrub_pos == height - 1
            &&& after == (PreviewView {
                scrub_pos: after.scrub_pos,
                following: after.following,
                ..view
            })
        }),
{
}

/// What the wheel scrolled can be scrolled back.
pub proof fn lemma_scrolled_back(view: PreviewView, up: int, down: int, amount: u32, height: u32)
    requires
        up < 0,
        down > 0,
        view.scrub_pos + amount < height,
    ensures
        view.scrolled(down, amount, height).scrolled(up, amount, height).scrub_pos
            == view.scrub_pos,
{
}

/// Zooming keeps the place, as far as it lies in the picture, and zooming again undoes it.
pub proof fn lemma_zoomed_twice(view: PreviewView, height: u32)
    ensures
        view.zoom_toggled(true, height).zoomed == !view.zoomed,
        view.zoom_toggled(false, height) == view,
        view.scrub_pos < height ==> view.zoom_toggled(true, height).scrub_pos == view.scrub_pos
            && view.zoom_toggled(true, height).zoom_toggled(true, height) == view,
        height > 0 ==> view.zoom_toggled(true, height).scrub_pos < height,
        view.zoom_toggled(true, height).following == view.following,
{
}

/// A handle that is dragged crops the picture at the row it is dragged to, if that leaves a row;
/// else it leaves one. The other handle stays, and nothing is cropped where that is off.
pub proof fn lemma_handle_dragged(view: PreviewView, drag: PreviewCropDrag, height: u32)
    requires
        height > 0,
        view.crop_leaves(height),
    ensures
        ({
            let after = view.cropped(Some(drag), height);
            let row = drag.source_y;
            &&& !view.crop_enabled ==> after == view
            &&& view.crop_enabled && drag.edge == PreviewCropEdge::Top ==> {
                &&& row + view.crop_bottom < height ==> after.crop_top == row
                &&& row + view.crop_bottom >= height ==> after.crop_top + view.crop_bottom + 1
                    == height
                &&& after == (PreviewView { crop_top: after.crop_top, ..view })
            }
            &&& view.crop_enabled && drag.edge == PreviewCropEdge::Bottom ==> {
                &&& view.crop_top < row <= height ==> after.crop_bottom == height - row
                &&& row <= view.crop_top ==> view.crop_top + after.crop_bottom + 1 == height
                &&& row > height ==> after.crop_bottom == 0
                &&& after == (PreviewView { crop_bottom: after.crop_bottom, ..view })
            }
            &&& after.crop_leaves(height)
        }),
{
}

/// A crop that leaves a row of a picture stays as it is for as long as the picture does, and what
/// is not cropped at the bottom is not cropped there when the picture grows.
pub proof fn lemma_crop_stays(view: PreviewView, height: u32, grown: u32)
    requires
        0 < height <= grown,
        view.crop_leaves(height),
    ensures
        view.crop_image_height == height ==> view.crop_synced(height) == view,
        view.crop_synced(grown).crop_top == view.crop_top,
        view.crop_bottom == 0 ==> view.crop_synced(grown).crop_bottom == 0,
        view.crop_synced(grown).crop_image_height == grown,
        view.crop_synced(grown) == (PreviewView {
            crop_bottom: view.crop_synced(grown).crop_bottom,
            crop_image_height: grown,
            ..view
        }),
        view.crop_synced(0).crop_top == 0,
        view.crop_synced(0).crop_bottom == 0,
{
}

/// The preview shows the place it stands at; it tells the length and the end that it follows only
/// while it follows the frames.
pub proof fn lemma_shown(view: PreviewView, width: u32)
    ensures
        ({
            let options = view.options(width);
            &&& options.width == width
            &&& options.zoomed == view.zoomed
            &&& options.source_pos == view.scrub_pos
            &&& options.capture_pos == view.capture_pos
            &&& options.capture_len == view.capture_len
            &&& options.crop_enabled == view.crop_enabled
            &&& options.crop_top == view.crop_top
            &&& options.crop_bottom == view.crop_bottom
            &&& !view.following ==> options.frame_len == 0 && options.edge
                == PreviewEdge::Neither
            &&& view.following ==> options.frame_len == view.frame_len
            &&& view.following && view.edge == Some(Edge::Start) ==> options.edge
                == PreviewEdge::Start
            &&& view.following && view.edge == Some(Edge::End) ==> options.edge == PreviewEdge::End
            &&& view.following && view.edge is None ==> options.edge == PreviewEdge::Neither
        }),
{
}

/// A new preview follows the frames, is not zoomed and crops nothing, though it can.
pub proof fn lemma_fresh()
    ensures
        fresh_view().following,
        !fresh_view().zoomed,
        fresh_view().crop_enabled,
        fresh_view().crop_top == 0,
        fresh_view().crop_bottom == 0,
        fresh_view().scrub_pos == 0,
        fresh_view().edge is None,
{
}

/// What is done on the preview is done in turn: a handle is dragged, the zoom is toggled and the
/// wheel scrolls. Nothing but the crop changes where there was no turn and no press.
pub proof fn lemma_handled(
    view: PreviewView,
    toggle: bool,
    scroll: int,
    drag: Option<PreviewCropDrag>,
    image_width: u32,
    image_height: u32,
    width: u32,
)
    requires
        image_height > 0,
    ensures
        ({
            let after = view.handled(toggle, scroll, drag, image_width, image_height, width);
            let synced = view.crop_synced(image_height);
            &&& scroll == 0 ==> after.following == view.following
            &&& scroll <= -one() || scroll >= one() ==> !after.following
            &&& after.zoomed == (view.zoomed != toggle)
            &&& !toggle && scroll == 0 ==> after.scrub_pos == view.scrub_pos
            &&& scroll <= -one() ==> after.scrub_pos <= view.scrub_pos
            &&& scroll >= one() && view.scrub_pos < image_height ==> view.scrub_pos
                <= after.scrub_pos < image_height
            &&& drag is None ==> after.crop_top == synced.crop_top && after.crop_bottom
                == synced.crop_bottom
            &&& drag is Some ==> after.crop_top == synced.cropped(drag, image_height).crop_top
                && after.crop_bottom == synced.cropped(drag, image_height).crop_bottom
            &&& after.capture_pos == view.capture_pos
            &&& after.capture_len == view.capture_len
            &&& after.frame_len == view.frame_len
            &&& after.edge == view.edge
        }),
{
    lemma_smallest_turn();
    lemma_pow2_pos(149);
}

/// The smallest turn of the wheel that counts.
pub proof fn lemma_smallest_turn()
    ensures
        fraction(1, 8388608) == pow2(126),
        0 < pow2(126) < one(),
        forall|toggle: bool, scroll: int, drag: Option<PreviewCropDrag>| #[trigger]
            nothing_done(toggle, scroll, drag) <==> !toggle && drag is None && -pow2(126) < scroll
                < pow2(126),
{
    lemma2_to64();
    crate::single::lemma_power_exact(23);
    vstd::arithmetic::power2::lemma_pow2_strictly_increases(126, 149);
}

/// The rows that the preview shows, by estimate: at least one and at most all, and otherwise as
/// many as the rows of a frame without sixteen take up when scaled to its width.
pub proof fn lemma_estimated_rows(
    image_width: int,
    image_height: int,
    width: int,
    zoomed: bool,
    capture_len: int,
)
    requires
        image_width > 0,
        image_height > 0,
        scaled_rows(image_width, image_height, estimated_width(width, zoomed)) > 0,
    ensures
        ({
            let rows = estimated_rows(image_width, image_height, width, zoomed, capture_len);
            let scaled = scaled_rows(image_width, image_height, estimated_width(width, zoomed));
            let shown = if scaled < capture_len - 16 {
                scaled
            } else if capture_len > 17 {
                capture_len - 16
            } else {
                1
            };
            &&& 1 <= rows <= image_height
            &&& rows * scaled <= shown * image_height || rows == 1
            &&& shown * image_height < (rows + 1) * scaled || rows == image_height
            &&& estimated_width(width, zoomed) == if zoomed && width < 240 {
                240
            } else if width < 1 {
                1
            } else {
                width
            }
        }),
{
    let scaled = scaled_rows(image_width, image_height, estimated_width(width, zoomed));
    let shown = most(least(scaled, most(less(capture_len, 16), 1)), 1);
    let n = shown * image_height;
    vstd::arithmetic::div_mod::lemma_fundamental_div_mod(n, scaled);
    vstd::arithmetic::div_mod::lemma_mod_bound(n, scaled);
    let q = n / scaled;
    let rows = estimated_rows(image_width, image_height, width, zoomed, capture_len);
    assert(q * scaled <= n && n < (q + 1) * scaled) by (nonlinear_arith)
        requires
            n == scaled * q + n % scaled,
            0 <= n % scaled < scaled,
    ;
    assert(0 <= n) by (nonlinear_arith)
        requires
            n == shown * image_height,
            shown >= 1,
            image_height > 0,
    ;
    assert(q >= 0) by (nonlinear_arith)
        requires
            n >= 0,
            n < (q + 1) * scaled,
            scaled > 0,
    ;
    if rows < q {
        assert(rows * scaled <= q * scaled) by (nonlinear_arith)
            requires
                rows < q,
                scaled > 0,
        ;
    }
    if q < rows {
        assert((q + 1) * scaled <= (rows + 1) * scaled) by (nonlinear_arith)
            requires
                q < rows,
                scaled > 0,
        ;
    }
}

/// A turn up scrolls as far as a turn down. Each whole notch of fifteen scrolls an eighth of the
/// rows shown, at least sixteen.
pub proof fn lemma_notches(
    notches: nat,
    image_width: int,
    image_height: int,
    width: int,
    zoomed: bool,
    capture_len: int,
)
    requires
        0 < notches < 0x10_0000,
        image_width > 0,
        image_height > 0,
        scaled_rows(image_width, image_height, estimated_width(width, zoomed)) > 0,
        ({
            let rows = estimated_rows(image_width, image_height, width, zoomed, capture_len);
            notches * 16 < 0x100_0000 && notches * (rows / 8) < 0x100_0000
        }),
    ensures
        ({
            let rows = estimated_rows(image_width, image_height, width, zoomed, capture_len);
            let turn = (notches * 15) * one();
            let amount = scroll_amount(
                turn as int,
                image_width,
                image_height,
                width,
                zoomed,
                capture_len,
            );
            &&& amount == notches * if rows >= 128 {
                rows / 8
            } else {
                16
            }
            &&& scroll_amount(
                -(turn as int),
                image_width,
                image_height,
                width,
                zoomed,
                capture_len,
            ) == amount
        }),
{
    let rows = estimated_rows(image_width, image_height, width, zoomed, capture_len);
    lemma_estimated_rows(image_width, image_height, width, zoomed, capture_len);
    let base: nat = if rows >= 128 {
        (rows / 8) as nat
    } else {
        16
    };
    assert(base == most(16, rows / 8));
    let unit = one();
    lemma_pow2_pos(149);
    lemma_whole_exact(15);
    lemma_whole_exact(notches);
    lemma_whole_exact(notches * 15);
    assert(base < 0x100_0000) by (nonlinear_arith)
        requires
            notches * base < 0x100_0000,
            notches > 0,
    ;
    lemma_whole_exact(base);
    lemma_whole_exact(notches * base);
    crate::single::lemma_part_finite(35, 100);
    let turn: nat = (notches * 15) * unit;
    crate::single::lemma_ratio_exact(notches, 15);
    assert(fraction(35, 100) <= notches * unit) by {
        let whole: nat = 100 * (notches * unit);
        assert(35 * unit <= whole) by (nonlinear_arith)
            requires
                notches > 0,
                whole == 100 * (notches * unit),
        ;
        crate::single::lemma_rounding_ordered((35 * unit) as nat, whole, 100);
        crate::single::lemma_ratio_whole(notches, 100);
    }
    assert(((notches * unit) * (base * unit)) == ((notches * base) * unit) * unit)
        by (nonlinear_arith);
    crate::single::lemma_scaled_exact(notches * base);
    let result = notches * base;
    assert(nearest_integer((result * unit) as int) == result) by {
        assert((2 * (result * unit) + unit) / (2 * unit) == result) by (nonlinear_arith)
            requires
                unit > 0,
        ;
    }
}

} // verus!
