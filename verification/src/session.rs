//! A capture from its start to the picture that is written.

use crate::codec::{crop_image_vertical, cropped_picture};
use crate::config::{text_of, Backend, Config, GrimMode};
use crate::course::{Course, Manner};
use crate::geometry::{next_region, read_rect, rect_text};
use crate::menu::{is_blank, texts_of, GrimAction};
use crate::pointer::PreviewEvents;
use crate::preview::{
    larger, scale_height_for_width, scaled_rows, OverlayConfig, PreviewConfig, PreviewOptions, Rect,
};
use crate::raster::{is_padded, lemma_padded, padded, Image, Picture};
use crate::single::Single;
use crate::stitch::{lemma_stacked_bands, StitchStatus, Stitcher, Stitching};
use crate::text::{
    append_decimal, append_padded, decimal, padded_decimal, same_text, trimmed, Kind,
};
use crate::view::{
    apply_preview_events, estimated_width, force_preview_to_bottom, fresh_view, nothing_done,
    preview_options, sync_crop_with_image_height, sync_preview_view, PreviewView,
};
use vstd::prelude::*;

verus! {

/// Where the picture is written.
#[derive(Clone, Copy, Debug, PartialEq, Eq, Structural)]
pub enum Target {
    /// To the standard output.
    Stdout,
    /// To the file that was named.
    Named,
    /// To a file with a name of its own.
    Default,
}

/// Where the picture is written.
pub fn output_target(output: &Option<String>) -> (target: Target)
    ensures
        target == match text_of(*output) {
            None => Target::Default,
            Some(name) => if name == "-"@ {
                Target::Stdout
            } else {
                Target::Named
            },
        },
{
    match output {
        None => Target::Default,
        Some(name) => if same_text(name.as_str(), "-") {
            Target::Stdout
        } else {
            Target::Named
        },
    }
}

/// The folder that files with a name of their own go to.
#[derive(Clone, Copy, Debug, PartialEq, Eq, Structural)]
pub enum Folder {
    /// The folder for pictures.
    Pictures,
    /// The home folder, for the folder `Pictures` in it.
    HomePictures,
}

/// The folder that files with a name of their own go to, by whether the folders for pictures and
/// for the home are set.
pub fn default_folder(pictures: bool, home: bool) -> (folder: Result<Folder, String>)
    ensures
        match folder {
            Ok(Folder::Pictures) => pictures,
            Ok(Folder::HomePictures) => !pictures && home,
            Err(text) => !pictures && !home && text@ == "HOME is not set"@,
        },
{
    if pictures {
        Ok(Folder::Pictures)
    } else if home {
        Ok(Folder::HomePictures)
    } else {
        Err("HOME is not set".to_owned())
    }
}

/// The name of a file by the seconds at which it was made.
pub fn default_file_name(seconds: u64) -> (name: String)
    ensures
        name@ == "longshot_"@ + decimal(seconds as nat) + ".png"@,
{
    let mut name = "longshot_".to_owned();
    append_decimal(&mut name, seconds as u128);
    name.append(".png");
    name
}

/// A path that was not named: a folder, those below it, and the file there.
#[derive(Debug)]
pub struct DefaultPath {
    pub folder: Folder,
    pub below: Vec<String>,
    pub name: String,
}

/// The folders below the folder for pictures or, with that folder, below the home folder.
pub open spec fn folders_below(folder: Folder) -> Seq<Seq<char>> {
    match folder {
        Folder::Pictures => seq!["Screenshots"@, "longshots"@],
        Folder::HomePictures => seq!["Pictures"@, "Screenshots"@, "longshots"@],
    }
}

/// The path of a file that was not named, by whether the folders for pictures and for the home
/// are set and the seconds at which it was made.
pub fn default_output_path(pictures: bool, home: bool, seconds: u64) -> (path: Result<
    DefaultPath,
    String,
>)
    ensures
        match path {
            Ok(path) => {
                &&& pictures || home
                &&& path.folder == if pictures {
                    Folder::Pictures
                } else {
                    Folder::HomePictures
                }
                &&& texts_of(path.below@) == folders_below(path.folder)
                &&& path.name@ == "longshot_"@ + decimal(seconds as nat) + ".png"@
            },
            Err(text) => !pictures && !home && text@ == "HOME is not set"@,
        },
{
    let folder = match default_folder(pictures, home) {
        Ok(folder) => folder,
        Err(text) => {
            return Err(text);
        },
    };
    let mut below: Vec<String> = Vec::new();
    if folder == Folder::HomePictures {
        below.push("Pictures".to_owned());
    }
    below.push("Screenshots".to_owned());
    below.push("longshots".to_owned());
    proof {
        assert(texts_of(below@) =~= folders_below(folder));
    }
    Ok(DefaultPath { folder, below, name: default_file_name(seconds) })
}

/// The name of a file with a number, as it is kept for finding faults.
pub fn debug_file_name(kind: &str, number: usize) -> (name: String)
    ensures
        name@ == kind@ + "_"@ + padded_decimal(number as nat, 5) + ".png"@,
{
    let mut name = kind.to_owned();
    name.append("_");
    append_padded(&mut name, number as u64, 5);
    name.append(".png");
    name
}

/// What is done with the picture once it is written.
#[derive(Clone, Copy, Debug, PartialEq, Eq, Structural)]
pub struct Afterwards {
    pub copy: bool,
    pub open: bool,
    pub edit: bool,
}

/// What is done with the picture once it is written: nothing where it went to the standard
/// output.
pub fn post_process(config: &Config, target: Target) -> (afterwards: Afterwards)
    ensures
        afterwards == if target == Target::Stdout {
            Afterwards { copy: false, open: false, edit: false }
        } else {
            Afterwards { copy: config.copy, open: config.open, edit: config.edit }
        },
        target == Target::Stdout ==> afterwards.programs() == Seq::<Program>::empty(),
{
    if target == Target::Stdout {
        proof {
            lemma_programs(Afterwards { copy: false, open: false, edit: false });
        }
        Afterwards { copy: false, open: false, edit: false }
    } else {
        Afterwards { copy: config.copy, open: config.open, edit: config.edit }
    }
}

/// A program that is started with the picture once it is written.
#[derive(Clone, Copy, Debug, PartialEq, Eq, Structural)]
pub enum Program {
    /// The clipboard, which gets the picture itself.
    Copy,
    /// The viewer, which gets the path of the file.
    Open,
    /// The editor, which gets the path of the file.
    Edit,
}

/// How a program is called.
pub fn program_name(program: Program) -> (name: &'static str)
    ensures
        name@ == match program {
            Program::Copy => "wl-copy"@,
            Program::Open => "xdg-open"@,
            Program::Edit => "satty"@,
        },
{
    match program {
        Program::Copy => "wl-copy",
        Program::Open => "xdg-open",
        Program::Edit => "satty",
    }
}

impl Afterwards {
    /// Whether a program is started.
    pub open spec fn wants(self, program: Program) -> bool {
        match program {
            Program::Copy => self.copy,
            Program::Open => self.open,
            Program::Edit => self.edit,
        }
    }

    /// The programs that are started, in order.
    pub open spec fn programs(self) -> Seq<Program> {
        seq![Program::Copy, Program::Open, Program::Edit].filter(
            |program: Program| self.wants(program),
        )
    }

    /// The program that is started after another, or first.
    pub open spec fn following(self, last: Option<Program>) -> Option<Program> {
        if last is None && self.copy {
            Some(Program::Copy)
        } else if (last is None || last == Some(Program::Copy)) && self.open {
            Some(Program::Open)
        } else if last != Some(Program::Edit) && self.edit {
            Some(Program::Edit)
        } else {
            None
        }
    }

    /// The program that is started next, by whether each one before could be started.
    pub open spec fn due(self, started: Seq<bool>) -> Option<Program>
        decreases started.len(),
    {
        if started.len() == 0 {
            self.following(None)
        } else {
            match self.due(started.drop_last()) {
                Some(last) if started.last() => self.following(Some(last)),
                _ => None,
            }
        }
    }

    /// The program that is started next, by the one started last and what came of it: nothing
    /// follows a failure, which is what comes of it all.
    pub fn next_program(&self, last: Option<Program>, came: Result<(), String>) -> (next: Result<
        Option<Program>,
        String,
    >)
        ensures
            match came {
                Ok(_) => next == Ok::<Option<Program>, String>(self.following(last)),
                Err(text) => next == Err::<Option<Program>, String>(text),
            },
    {
        match came {
            Err(text) => Err(text),
            Ok(_) => {
                if last.is_none() && self.copy {
                    return Ok(Some(Program::Copy));
                }
                if matches!(last, None | Some(Program::Copy)) && self.open {
                    return Ok(Some(Program::Open));
                }
                if !matches!(last, Some(Program::Edit)) && self.edit {
                    return Ok(Some(Program::Edit));
                }
                Ok(None)
            },
        }
    }
}

/// The programs asked for are started one after the other, the clipboard before the viewer and
/// the viewer before the editor, and nothing is started after one that could not be.
pub proof fn lemma_programs_in_order(afterwards: Afterwards, started: Seq<bool>)
    ensures
        afterwards.due(started) == if started.len() < afterwards.programs().len() && !started.contains(
            false,
        ) {
            Some(afterwards.programs()[started.len() as int])
        } else {
            None
        },
    decreases started.len(),
{
    lemma_programs(afterwards);
    if started.len() > 0 {
        let before = started.drop_last();
        lemma_programs_in_order(afterwards, before);
        assert(started.contains(false) <==> before.contains(false) || !started.last()) by {
            if before.contains(false) {
                let i = choose|i: int| 0 <= i < before.len() && before[i] == false;
                assert(started[i] == false);
            }
            if started.contains(false) && started.last() {
                let i = choose|i: int| 0 <= i < started.len() && started[i] == false;
                assert(before[i] == false);
            }
            if !started.last() {
                assert(started[started.len() - 1] == false);
            }
        }
    } else {
        assert(!started.contains(false));
    }
}

/// The programs that are started, written out.
proof fn lemma_programs(afterwards: Afterwards)
    ensures
        afterwards.programs() == (if afterwards.copy {
            seq![Program::Copy]
        } else {
            Seq::empty()
        }) + (if afterwards.open {
            seq![Program::Open]
        } else {
            Seq::empty()
        }) + (if afterwards.edit {
            seq![Program::Edit]
        } else {
            Seq::empty()
        }),
{
    let all = seq![Program::Copy, Program::Open, Program::Edit];
    let wanted = |program: Program| afterwards.wants(program);
    let two = all.drop_last();
    let one = two.drop_last();
    reveal(Seq::filter);
    assert(two =~= seq![Program::Copy, Program::Open]);
    assert(one =~= seq![Program::Copy]);
    assert(one.drop_last() =~= Seq::<Program>::empty());
    assert(one.drop_last().filter(wanted) =~= Seq::<Program>::empty());
    assert(one.filter(wanted) =~= if afterwards.copy {
        seq![Program::Copy]
    } else {
        Seq::empty()
    });
    assert(two.filter(wanted) =~= one.filter(wanted) + if afterwards.open {
        seq![Program::Open]
    } else {
        Seq::empty()
    });
    assert(all.filter(wanted) =~= two.filter(wanted) + if afterwards.edit {
        seq![Program::Edit]
    } else {
        Seq::empty()
    });
}

/// What a capture starts with.
#[derive(Clone, Copy, Debug)]
pub struct Opening {
    pub region: Rect,
    /// What is shown around and beside the region, if anything.
    pub overlay: Option<OverlayConfig>,
}

/// What is shown around and beside a region that is captured frame by frame.
pub open spec fn frame_overlay(config: Config) -> OverlayConfig {
    OverlayConfig {
        enabled: config.show_border,
        color: config.border_color,
        preview: PreviewConfig { enabled: config.preview, width: config.preview_width },
    }
}

/// What is shown around and beside a region that is captured by `grim`: a border only where
/// frames are captured on their own.
pub open spec fn grim_overlay(config: Config) -> Option<OverlayConfig> {
    let bordered = config.grim_mode == GrimMode::Auto && config.show_border;
    if config.preview || bordered {
        Some(OverlayConfig { enabled: bordered, ..frame_overlay(config) })
    } else {
        None
    }
}

/// Whether what a capture starts with is what a region asks for.
pub open spec fn opened(
    result: Result<Option<Opening>, String>,
    geometry: Seq<char>,
    overlay: Option<OverlayConfig>,
) -> bool {
    if trimmed(geometry, Kind::White).len() == 0 {
        result == Ok::<Option<Opening>, String>(None)
    } else {
        match read_rect(geometry) {
            Ok(region) => result == Ok::<Option<Opening>, String>(
                Some(Opening { region, overlay }),
            ),
            Err(message) => result matches Err(text) && text@ == message,
        }
    }
}

/// What a capture frame by frame starts with: nothing where no region was selected.
pub fn open_frame_capture(config: &Config, geometry: &str) -> (result: Result<
    Option<Opening>,
    String,
>)
    ensures
        opened(result, geometry@, Some(frame_overlay(*config))),
{
    if is_blank(geometry) {
        return Ok(None);
    }
    match Rect::parse(geometry) {
        Ok(region) => Ok(
            Some(
                Opening {
                    region,
                    overlay: Some(
                        OverlayConfig {
                            enabled: config.show_border,
                            color: config.border_color,
                            preview: PreviewConfig {
                                enabled: config.preview,
                                width: config.preview_width,
                            },
                        },
                    ),
                },
            ),
        ),
        Err(text) => Err(text),
    }
}

/// What a capture by `grim` starts with: nothing where no region was selected.
pub fn open_grim_capture(config: &Config, geometry: &str) -> (result: Result<
    Option<Opening>,
    String,
>)
    ensures
        opened(result, geometry@, grim_overlay(*config)),
{
    if is_blank(geometry) {
        return Ok(None);
    }
    let bordered: bool = config.grim_mode == GrimMode::Auto && config.show_border;
    match Rect::parse(geometry) {
        Ok(region) => {
            let overlay = if config.preview || bordered {
                Some(
                    OverlayConfig {
                        enabled: bordered,
                        color: config.border_color,
                        preview: PreviewConfig {
                            enabled: config.preview,
                            width: config.preview_width,
                        },
                    },
                )
            } else {
                None
            };
            Ok(Some(Opening { region, overlay }))
        },
        Err(text) => Err(text),
    }
}

/// A capture under way: what is stitched, and the preview of it.
#[derive(Debug)]
pub struct Session {
    stitcher: Stitcher,
    view: PreviewView,
    preview: bool,
    preview_width: u32,
    manual: bool,
    fixed_width: bool,
    dedup: bool,
    base: Rect,
}

/// A capture under way.
pub struct Capture {
    pub stitching: Stitching,
    pub view: PreviewView,
    pub preview: bool,
    pub preview_width: u32,
    pub manual: bool,
    pub fixed_width: bool,
    pub dedup: bool,
    pub base: Rect,
}

/// The height of a picture that may be missing.
pub open spec fn height_of(full: Option<Picture>) -> Option<u32> {
    match full {
        Some(full) => Some(full.height as u32),
        None => None,
    }
}

/// Whether a frame became part of the picture.
pub open spec fn taken(status: StitchStatus) -> bool {
    status == StitchStatus::FirstFrame || status == StitchStatus::Appended
}

impl Capture {
    /// A frame of its own.
    pub open spec fn auto_pushed(self, frame: Picture) -> Capture {
        let outcome = self.stitching.outcome(frame);
        let stitching = self.stitching.pushed(frame);
        Capture {
            stitching,
            view: if self.preview {
                self.view.synced(height_of(stitching.full), outcome)
            } else {
                self.view
            },
            ..self
        }
    }

    /// What is stitched, and the frame as it is given, where widths may differ.
    pub open spec fn widths_kept(self, frame: Picture) -> (Stitching, Picture) {
        if self.stitching.full is None || (self.stitching.full->0).width == frame.width {
            (self.stitching, frame)
        } else {
            let width = self.stitching.common_width(frame);
            (self.stitching.widened(width), padded(frame, width))
        }
    }

    /// What is stitched after a frame that was asked for, and whether it is streamed.
    pub open spec fn manual_stitched(self, frame: Picture) -> (Stitching, bool) {
        if self.manual && !self.dedup {
            (self.stitching.extended(frame), true)
        } else if self.manual && !self.fixed_width {
            let (before, wide) = self.widths_kept(frame);
            (before.pushed(wide), taken(before.outcome(wide).status))
        } else {
            (self.stitching.pushed(frame), taken(self.stitching.outcome(frame).status))
        }
    }

    /// A frame that was asked for: the preview moves to the end of the picture.
    pub open spec fn manual_pushed(self, frame: Picture, frame_len: u32) -> Capture {
        let stitching = self.manual_stitched(frame).0;
        Capture {
            stitching,
            view: match height_of(stitching.full) {
                Some(height) if self.preview => self.view.at_bottom(height, frame_len),
                _ => self.view,
            },
            ..self
        }
    }

    /// A frame given in the course of a capture, and whether the picture is streamed: the first
    /// by `grim` always is, and does not move the preview.
    pub open spec fn given(self, course: Course, frame: Picture, frame_len: u32) -> (Capture, bool) {
        let auto = (self.auto_pushed(frame), taken(self.stitching.outcome(frame).status));
        let first = (Capture { stitching: self.stitching.pushed(frame), ..self }, true);
        match course.manner {
            Manner::Frames => auto,
            Manner::Repeated => if course.first {
                first
            } else {
                auto
            },
            Manner::Asked => if course.first {
                first
            } else {
                (self.manual_pushed(frame, frame_len), self.manual_stitched(frame).1)
            },
        }
    }

    /// Whether what was done on the preview can be taken note of.
    pub open spec fn handles(self, events: PreviewEvents) -> bool {
        self.stitching.full matches Some(full) ==> nothing_done(
            events.toggle_zoom,
            events.scroll_delta.units(),
            events.crop_drag,
        ) || scaled_rows(
            full.width as int,
            full.height as int,
            estimated_width(self.preview_width as int, self.view.zoomed != events.toggle_zoom),
        ) > 0
    }

    /// The picture that is written in the end.
    pub open spec fn finished(self) -> Option<Picture> {
        match self.stitching.full {
            Some(full) => Some(
                cropped_picture(full, self.view.crop_top as int, self.view.crop_bottom as int),
            ),
            None => None,
        }
    }
}

impl View for Session {
    type V = Capture;

    closed spec fn view(&self) -> Capture {
        Capture {
            stitching: self.stitcher@,
            view: self.view,
            preview: self.preview,
            preview_width: self.preview_width,
            manual: self.manual,
            fixed_width: self.fixed_width,
            dedup: self.dedup,
            base: self.base,
        }
    }
}

/// What is told when nothing was captured.
pub open spec fn nothing_captured(backend: Backend) -> Seq<char> {
    match backend {
        Backend::Frame => "no frames received from Wayland screencopy"@,
        Backend::Grim => "no frames captured from grim"@,
    }
}

/// What is done next in a capture one by one.
#[derive(Clone, Copy, Debug, PartialEq, Eq, Structural)]
pub enum Turn {
    /// The next region is selected.
    Select,
    /// The picture is written.
    Finish,
    /// Nothing is written.
    Abort,
}

/// What is done next in a capture one by one; it is finished when nothing more is told.
pub fn next_turn(action: Option<GrimAction>) -> (turn: Turn)
    ensures
        turn == match action {
            Some(GrimAction::Next) => Turn::Select,
            Some(GrimAction::Abort) => Turn::Abort,
            _ => Turn::Finish,
        },
{
    match action {
        Some(GrimAction::Next) => Turn::Select,
        Some(GrimAction::Abort) => Turn::Abort,
        _ => Turn::Finish,
    }
}

impl Session {
    /// What is stitched is in order.
    pub closed spec fn wf(&self) -> bool {
        self.stitcher.wf()
    }

    pub fn new(config: &Config, base: Rect) -> (session: Session)
        ensures
            session.wf(),
            session@ == (Capture {
                stitching: Stitching::blank(),
                view: fresh_view(),
                preview: config.preview,
                preview_width: config.preview_width,
                manual: config.grim_mode == GrimMode::Manual,
                fixed_width: config.grim_fixed_width,
                dedup: config.grim_dedup,
                base,
            }),
    {
        Session {
            stitcher: Stitcher::new(),
            view: PreviewView::default(),
            preview: config.preview,
            preview_width: config.preview_width,
            manual: config.grim_mode == GrimMode::Manual,
            fixed_width: config.grim_fixed_width,
            dedup: config.grim_dedup,
            base,
        }
    }

    /// What is stitched so far.
    pub fn stitcher(&self) -> (stitcher: &Stitcher)
        ensures
            stitcher@ == self@.stitching,
            self.wf() ==> stitcher.wf(),
    {
        &self.stitcher
    }

    /// The state of the preview.
    pub fn preview_view(&self) -> (view: PreviewView)
        ensures
            view == self@.view,
    {
        self.view
    }

    /// Whether a frame can be given: it is not empty, and there is room for it.
    pub fn has_room(&self, frame: &Image) -> (result: bool)
        ensures
            result == (frame@.width > 0 && frame@.height > 0 && self@.stitching.holds(frame@)),
    {
        self.stitcher.has_room(frame)
    }

    /// Gives the first frame. It becomes the picture.
    pub fn push_first(&mut self, frame: Image)
        requires
            old(self).wf(),
            frame@.width > 0,
            frame@.height > 0,
            old(self)@.stitching.holds(frame@),
        ensures
            final(self).wf(),
            final(self)@ == (Capture {
                stitching: old(self)@.stitching.pushed(frame@),
                ..old(self)@
            }),
    {
        let _ = self.stitcher.push_frame(frame);
    }

    /// Gives a frame that was captured on its own, and tells whether the picture is streamed.
    pub fn push_auto(&mut self, frame: Image) -> (stream: bool)
        requires
            old(self).wf(),
            frame@.width > 0,
            frame@.height > 0,
            old(self)@.stitching.holds(frame@),
        ensures
            final(self).wf(),
            final(self)@ == old(self)@.auto_pushed(frame@),
            stream == taken(old(self)@.stitching.outcome(frame@).status),
    {
        let outcome = self.stitcher.push_frame_result(frame);
        if self.preview {
            sync_preview_view(&mut self.view, &self.stitcher, outcome, self.preview_width);
        }
        outcome.accepted()
    }

    /// The region that is captured next and how it is written: none where none was selected.
    pub fn select(&self, selected: &str) -> (result: Result<Option<(Rect, String)>, String>)
        ensures
            if trimmed(selected@, Kind::White).len() == 0 {
                result matches Ok(None)
            } else {
                match read_rect(selected@) {
                    Ok(rect) => {
                        let region = if self@.fixed_width {
                            Rect {
                                x: self@.base.x,
                                y: rect.y,
                                width: self@.base.width,
                                height: rect.height,
                            }
                        } else {
                            rect
                        };
                        result matches Ok(Some(next)) && next.0 == region && next.1@ == rect_text(
                            region,
                        )
                    },
                    Err(message) => result matches Err(text) && text@ == message,
                }
            },
    {
        if is_blank(selected) {
            return Ok(None);
        }
        match Rect::parse(selected) {
            Ok(rect) => {
                let region = next_region(self.base, rect, self.fixed_width);
                Ok(Some((region, region.to_text())))
            },
            Err(text) => Err(text),
        }
    }

    /// Gives a frame that was asked for, and tells whether the picture is streamed.
    pub fn push_manual(&mut self, frame: Image, frame_len: u32) -> (stream: bool)
        requires
            old(self).wf(),
            frame@.width > 0,
            frame@.height > 0,
            old(self)@.stitching.holds(frame@),
        ensures
            final(self).wf(),
            final(self)@ == old(self)@.manual_pushed(frame@, frame_len),
            stream == old(self)@.manual_stitched(frame@).1,
    {
        let stream: bool = if self.manual && !self.dedup {
            self.stitcher.append_without_dedup(frame);
            true
        } else if self.manual && !self.fixed_width {
            self.stitcher.push_frame_keep_widths(frame)
        } else {
            self.stitcher.push_frame(frame)
        };
        if self.preview {
            force_preview_to_bottom(&mut self.view, &self.stitcher, frame_len);
        }
        stream
    }

    /// Gives a frame as the course of the capture asks for, and tells whether the picture is
    /// streamed.
    pub fn give(&mut self, course: &Course, frame: Image, frame_len: u32) -> (stream: bool)
        requires
            old(self).wf(),
            frame@.width > 0,
            frame@.height > 0,
            old(self)@.stitching.holds(frame@),
        ensures
            final(self).wf(),
            (final(self)@, stream) == old(self)@.given(*course, frame@, frame_len),
    {
        match course.manner {
            Manner::Frames => self.push_auto(frame),
            Manner::Repeated => if course.first {
                self.push_first(frame);
                true
            } else {
                self.push_auto(frame)
            },
            Manner::Asked => if course.first {
                self.push_first(frame);
                true
            } else {
                self.push_manual(frame, frame_len)
            },
        }
    }

    /// What the preview shows, with the crop brought in line with the picture; nothing where
    /// there is no picture.
    pub fn show(&mut self) -> (options: Option<PreviewOptions>)
        ensures
            final(self)@.stitching == old(self)@.stitching,
            old(self).wf() ==> final(self).wf(),
            match height_of(old(self)@.stitching.full) {
                Some(height) => {
                    &&& final(self)@ == (Capture {
                        view: old(self)@.view.crop_synced(height),
                        ..old(self)@
                    })
                    &&& options == Some(final(self)@.view.options(old(self)@.preview_width))
                },
                None => final(self)@ == old(self)@ && options is None,
            },
    {
        let height: u32 = match self.stitcher.full() {
            Some(full) => full.height(),
            None => {
                return None;
            },
        };
        sync_crop_with_image_height(&mut self.view, height);
        Some(preview_options(&self.view, self.preview_width))
    }

    /// Whether what was done on the preview can be taken note of: the height of the picture,
    /// scaled to the width of the preview, can be told.
    pub fn can_handle(&self, events: PreviewEvents) -> (result: bool)
        ensures
            result == self@.handles(events),
    {
        let quiet: bool = !events.toggle_zoom && events.crop_drag.is_none()
            && events.scroll_delta.absolute().below(Single::ratio(1, 8388608));
        match self.stitcher.full() {
            None => true,
            Some(full) => {
                let width: u32 = larger(
                    self.preview_width,
                    if self.view.zoomed != events.toggle_zoom {
                        240
                    } else {
                        1
                    },
                );
                quiet || scale_height_for_width(full.width(), full.height(), width) > 0
            },
        }
    }

    /// Takes note of what was done on the preview, and tells what it shows if it has to be
    /// drawn anew.
    pub fn handle(&mut self, events: PreviewEvents) -> (options: Option<PreviewOptions>)
        requires
            old(self)@.handles(events),
        ensures
            old(self).wf() ==> final(self).wf(),
            match old(self)@.stitching.full {
                Some(full) => {
                    &&& final(self)@ == (Capture {
                        view: old(self)@.view.handled(
                            events.toggle_zoom,
                            events.scroll_delta.units(),
                            events.crop_drag,
                            full.width as u32,
                            full.height as u32,
                            old(self)@.preview_width,
                        ),
                        ..old(self)@
                    })
                    &&& options == if nothing_done(
                        events.toggle_zoom,
                        events.scroll_delta.units(),
                        events.crop_drag,
                    ) {
                        None
                    } else {
                        Some(final(self)@.view.options(old(self)@.preview_width))
                    }
                },
                None => final(self)@ == old(self)@ && options is None,
            },
    {
        let redraw: bool = match self.stitcher.full() {
            Some(full) => {
                apply_preview_events(&mut self.view, events, full, self.preview_width)
            },
            None => {
                return None;
            },
        };
        if redraw {
            Some(preview_options(&self.view, self.preview_width))
        } else {
            None
        }
    }

    /// What is told when a capture frame by frame ends.
    pub fn summary(&self) -> (text: String)
        ensures
            text@ == "frames="@ + decimal(self@.stitching.frames) + " stitched="@ + decimal(
                self@.stitching.accepted,
            ) + " height="@ + decimal(self@.stitching.height() as nat),
    {
        let mut text = "frames=".to_owned();
        append_decimal(&mut text, self.stitcher.frames() as u128);
        text.append(" stitched=");
        append_decimal(&mut text, self.stitcher.accepted() as u128);
        text.append(" height=");
        let height: u32 = match self.stitcher.full() {
            Some(full) => full.height(),
            None => 0,
        };
        append_decimal(&mut text, height as u128);
        text
    }

    /// The picture that is written in the end, cropped as the preview shows; or that nothing
    /// was captured.
    pub fn finish(self, backend: Backend) -> (result: Result<Image, String>)
        ensures
            match result {
                Ok(image) => self@.finished() == Some(image@),
                Err(text) => self@.finished() is None && text@ == nothing_captured(backend),
            },
    {
        let top: u32 = self.view.crop_top;
        let bottom: u32 = self.view.crop_bottom;
        match self.stitcher.into_full() {
            Some(image) => crop_image_vertical(image, top, bottom),
            None => match backend {
                Backend::Frame => Err("no frames received from Wayland screencopy".to_owned()),
                Backend::Grim => Err("no frames captured from grim".to_owned()),
            },
        }
    }
}

/// A frame that was asked for is kept whole where repeated rows are not looked for: the
/// picture and the frame, brought to one width, stand on top of each other.
pub proof fn lemma_kept_whole(capture: Capture, frame: Picture, frame_len: u32)
    requires
        capture.manual,
        !capture.dedup,
        capture.stitching.full is Some,
        (capture.stitching.full->0).complete(),
        frame.complete(),
    ensures
        capture.manual_stitched(frame).1,
        ({
            let after = capture.manual_pushed(frame, frame_len).stitching;
            let width = capture.stitching.common_width(frame);
            &&& after.full is Some
            &&& after.height() == capture.stitching.height() + frame.height
            &&& is_padded(
                capture.stitching.full->0,
                width,
                (after.full->0).band(0, capture.stitching.height()),
            )
            &&& is_padded(
                frame,
                width,
                (after.full->0).band(capture.stitching.height(), after.height()),
            )
        }),
{
    let width = capture.stitching.common_width(frame);
    lemma_padded(capture.stitching.full->0, width);
    lemma_padded(frame, width);
    lemma_stacked_bands(padded(capture.stitching.full->0, width), padded(frame, width));
}

/// A capture by `grim` keeps its first frame whatever comes after it: once there is a
/// picture, there always is.
pub proof fn lemma_picture_stays(capture: Capture, frame: Picture, frame_len: u32)
    requires
        capture.stitching.full is Some,
    ensures
        capture.auto_pushed(frame).stitching.full is Some,
        capture.manual_pushed(frame, frame_len).stitching.full is Some,
{
    reveal(Stitching::by_edges);
}

/// What is written in the end is the picture without the rows cropped away at its ends, and
/// never nothing of it.
pub proof fn lemma_something_written(capture: Capture)
    requires
        capture.stitching.full matches Some(full) && full.complete() && full.width > 0
            && full.height > 0,
    ensures
        capture.finished() matches Some(written) && {
            &&& written.width == (capture.stitching.full->0).width
            &&& 1 <= written.height <= (capture.stitching.full->0).height
            &&& capture.view.crop_leaves((capture.stitching.full->0).height as u32) && (
            capture.stitching.full->0).height <= u32::MAX ==> written.height
                == (capture.stitching.full->0).height - capture.view.crop_top
                - capture.view.crop_bottom
        },
{
}

} // verus!
