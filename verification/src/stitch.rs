//! Frames of a scrolled view stitched into one tall picture.

use crate::edges::{edge_overlap_tail_head, found_overlap};
use crate::profile::{
    all_tame, compute_cols, lemma_sample_inside, levels_of, picture_levels, row_samples,
    sample_column, sample_count, Levels, RowProfile,
};
use crate::raster::{
    byte_count, join_rows, lemma_band_complete, lemma_band_pixel, lemma_padded, lemma_stacked_pixel,
    pad_width, padded, stacked, Image, Picture,
};
use crate::search::{
    close, effective_min_overlap, find_edge_position, find_known_position, find_offset,
    known_overlap, known_overlap_diff, needed_overlap, offset_found, offset_reach,
    offsets_countable, overhang, overhang_amount, Edge, Inside, Match, Outside,
};
use crate::signature::{
    duplicates, frame_signature, is_duplicate_signature, signature_of, COLUMNS, ROWS,
};
use crate::single::Single;
use vstd::prelude::*;

verus! {

/// The least number of rows by which the picture grows at once.
pub const LEAST_GROWTH: i32 = 15;

/// What became of a frame.
#[derive(Clone, Copy, Debug, PartialEq, Eq, Structural)]
pub enum StitchStatus {
    FirstFrame,
    Appended,
    NoProgress,
    NoMatch,
}

/// What became of a frame, and where it lies.
#[derive(Clone, Copy, Debug)]
pub struct StitchResult {
    pub status: StitchStatus,
    pub added: u32,
    pub edge: Option<Edge>,
    pub position: i32,
    pub frame_len: u32,
}

impl StitchResult {
    /// Whether the frame became part of the picture.
    pub fn accepted(self) -> (accepted: bool)
        ensures
            accepted == (self.status == StitchStatus::FirstFrame || self.status
                == StitchStatus::Appended),
    {
        self.status == StitchStatus::FirstFrame || self.status == StitchStatus::Appended
    }
}

/// What is decided about a frame.
#[derive(Clone, Copy, Debug)]
pub enum Verdict {
    /// It shows what the frame before showed.
    Duplicate,
    /// It is the first.
    First,
    /// It belongs nowhere.
    Unplaced,
    /// It would add rows at the end opposite to the one awaited.
    Contrary,
    /// It lies inside the picture.
    Settled { pos: i32 },
    /// It would add too few rows at an end, which is awaited from now on.
    Awaiting { edge: Edge, pos: i32 },
    /// Its edges show that it would add too few rows at the bottom.
    Short { pos: i32 },
    /// It adds rows at an end.
    Grown { edge: Edge, pos: i32, amount: i32 },
}

/// What is stitched so far.
pub struct Stitching {
    /// The picture.
    pub full: Option<Picture>,
    /// The profile of the frame placed last.
    pub last: Seq<Levels>,
    /// The signature of the frame placed last.
    pub signature: Option<Seq<u8>>,
    /// Where the frame placed last lies.
    pub anchor: int,
    /// How far that frame was from the one before.
    pub offset: int,
    /// The end at which a frame would have added too few rows.
    pub pending: Option<Edge>,
    /// The end at which the picture grew last.
    pub growth: Option<Edge>,
    /// How many frames were given.
    pub frames: nat,
    /// How many of them became part of the picture.
    pub accepted: nat,
}

impl Stitching {
    /// Nothing stitched yet.
    pub open spec fn blank() -> Stitching {
        Stitching {
            full: None,
            last: Seq::empty(),
            signature: None,
            anchor: 0,
            offset: 0,
            pending: None,
            growth: None,
            frames: 0,
            accepted: 0,
        }
    }

    /// The height of the picture.
    pub open spec fn height(self) -> int {
        match self.full {
            Some(full) => full.height as int,
            None => 0,
        }
    }

    /// The profile of the picture.
    pub open spec fn levels(self) -> Seq<Levels> {
        picture_levels(self.full->0)
    }

    /// Whether a frame shows what the one placed last showed.
    pub open spec fn repeats(self, frame: Picture) -> bool {
        self.signature is Some && duplicates(self.signature->0, signature_of(frame))
    }

    /// The search for the frame inside the picture.
    pub open spec fn inside(self, frame: Picture) -> Option<Match> {
        (Inside {
            full: self.levels(),
            frame: picture_levels(frame),
            predicted: self.predicted(frame),
            min_overlap: needed_overlap(frame.height as int),
        }).result(self.anchor)
    }

    /// The search for the frame at the ends of the picture.
    pub open spec fn outside(self, frame: Picture) -> Option<Match> {
        (Outside {
            full: self.levels(),
            frame: picture_levels(frame),
            predicted: self.predicted(frame),
            min_overlap: needed_overlap(frame.height as int),
        }).result()
    }

    /// The offset of the frame from the one placed last.
    pub open spec fn shift(self, frame: Picture) -> Match {
        offset_found(
            self.last,
            picture_levels(frame),
            self.offset,
            needed_overlap(frame.height as int),
        )
    }

    /// Where the frame lies by that offset.
    pub open spec fn predicted(self, frame: Picture) -> int {
        self.anchor + self.shift(frame).pos
    }

    /// The rows that the frame shares with the picture at a place.
    pub open spec fn shared(self, frame: Picture, pos: int) -> Option<Match> {
        known_overlap(
            self.levels(),
            picture_levels(frame),
            pos,
            needed_overlap(frame.height as int),
        )
    }

    /// Where the frame is taken to lie: by its offset, else inside the picture, else at an
    /// end; nowhere if none of these is close.
    pub open spec fn place(self, frame: Picture) -> Option<int> {
        if close(self.shift(frame).diff) {
            Some(self.predicted(frame))
        } else {
            match self.inside(frame) {
                None => Some(self.predicted(frame)),
                Some(known) if close(known.diff) => Some(known.pos),
                Some(_) => match self.outside(frame) {
                    Some(edge) if close(edge.diff) => Some(edge.pos),
                    _ => None,
                },
            }
        }
    }

    /// The verdict by the edges in the rows, where the profiles do not place the frame.
    #[verifier::opaque]
    pub open spec fn by_edges(self, frame: Picture) -> Verdict {
        match found_overlap(self.full->0, frame, needed_overlap(frame.height as int)) {
            None => Verdict::Unplaced,
            Some(overlap) => {
                let pos = self.height() - overlap;
                let amount = frame.height - overlap;
                if amount < LEAST_GROWTH {
                    Verdict::Short { pos: pos as i32 }
                } else {
                    Verdict::Grown { edge: Edge::End, pos: pos as i32, amount: amount as i32 }
                }
            },
        }
    }

    /// The verdict on a frame that is taken to lie at `pos`.
    pub open spec fn placed(self, frame: Picture, pos: int) -> Verdict {
        let (amount, edge) = overhang(pos, frame.height as int, self.height());
        let shared = self.shared(frame, pos);
        if amount == 0 {
            if shared is Some && close((shared->0).diff) {
                Verdict::Settled { pos: pos as i32 }
            } else {
                self.by_edges(frame)
            }
        } else if amount < LEAST_GROWTH {
            Verdict::Awaiting { edge, pos: pos as i32 }
        } else if shared is None {
            Verdict::Unplaced
        } else if !close((shared->0).diff) {
            match self.inside(frame) {
                Some(known) if close(known.diff) => Verdict::Settled { pos: known.pos as i32 },
                _ => self.by_edges(frame),
            }
        } else if self.pending is Some && self.pending->0 != edge {
            Verdict::Contrary
        } else {
            Verdict::Grown { edge, pos: pos as i32, amount: amount as i32 }
        }
    }

    /// The verdict on a frame.
    pub open spec fn verdict(self, frame: Picture) -> Verdict {
        if self.repeats(frame) {
            Verdict::Duplicate
        } else if self.full is None {
            Verdict::First
        } else if (self.full->0).width != frame.width {
            Verdict::Unplaced
        } else {
            match self.place(frame) {
                None => self.by_edges(frame),
                Some(pos) => self.placed(frame, pos),
            }
        }
    }

    /// The frame taken as the one placed last.
    pub open spec fn moved(self, frame: Picture, pos: int, anchor: int) -> Stitching {
        Stitching {
            last: picture_levels(frame),
            signature: Some(signature_of(frame)),
            anchor,
            offset: pos - self.anchor,
            pending: None,
            ..self
        }
    }

    /// What is stitched after a verdict.
    pub open spec fn after(self, frame: Picture, verdict: Verdict) -> Stitching {
        let counted = Stitching { frames: self.frames + 1, ..self };
        match verdict {
            Verdict::Duplicate => counted,
            Verdict::Unplaced => counted,
            Verdict::Short { pos } => counted,
            Verdict::First => Stitching {
                full: Some(frame),
                last: picture_levels(frame),
                signature: Some(signature_of(frame)),
                accepted: self.accepted + 1,
                ..counted
            },
            Verdict::Contrary => Stitching { pending: None, ..counted },
            Verdict::Awaiting { edge, pos } => Stitching { pending: Some(edge), ..counted },
            Verdict::Settled { pos } => counted.moved(frame, pos as int, pos as int),
            Verdict::Grown { edge: Edge::Start, pos, amount } => Stitching {
                full: Some(stacked(frame.band(0, amount as int), self.full->0)),
                growth: Some(Edge::Start),
                accepted: self.accepted + 1,
                ..counted.moved(frame, pos as int, pos + amount)
            },
            Verdict::Grown { edge: Edge::End, pos, amount } => Stitching {
                full: Some(
                    stacked(
                        self.full->0,
                        frame.band(frame.height - amount, frame.height as int),
                    ),
                ),
                growth: Some(Edge::End),
                accepted: self.accepted + 1,
                ..counted.moved(frame, pos as int, pos as int)
            },
        }
    }

    /// What is told about a frame after a verdict.
    pub open spec fn told(self, frame: Picture, verdict: Verdict) -> StitchResult {
        let nothing = StitchResult {
            status: StitchStatus::NoProgress,
            added: 0,
            edge: None,
            position: self.anchor as i32,
            frame_len: frame.height as u32,
        };
        match verdict {
            Verdict::Duplicate => nothing,
            Verdict::First => StitchResult {
                status: StitchStatus::FirstFrame,
                added: frame.height as u32,
                position: 0,
                ..nothing
            },
            Verdict::Unplaced | Verdict::Contrary => StitchResult {
                status: StitchStatus::NoMatch,
                ..nothing
            },
            Verdict::Settled { pos } => StitchResult { position: pos, ..nothing },
            Verdict::Awaiting { edge, pos } => StitchResult {
                edge: Some(edge),
                position: pos,
                ..nothing
            },
            Verdict::Short { pos } => StitchResult {
                edge: Some(Edge::End),
                position: pos,
                ..nothing
            },
            Verdict::Grown { edge, pos, amount } => StitchResult {
                status: StitchStatus::Appended,
                added: amount as u32,
                edge: Some(edge),
                position: self.after(frame, verdict).anchor as i32,
                ..nothing
            },
        }
    }

    /// What is stitched once a frame was given.
    pub open spec fn pushed(self, frame: Picture) -> Stitching {
        self.after(frame, self.verdict(frame))
    }

    /// What is told about a frame that is given.
    pub open spec fn outcome(self, frame: Picture) -> StitchResult {
        self.told(frame, self.verdict(frame))
    }

    /// The picture widened.
    pub open spec fn widened(self, width: nat) -> Stitching {
        Stitching { full: Some(padded(self.full->0, width)), ..self }
    }

    /// The width that holds the picture and a frame.
    pub open spec fn common_width(self, frame: Picture) -> nat {
        if self.full is Some && (self.full->0).width > frame.width {
            (self.full->0).width
        } else {
            frame.width
        }
    }

    /// What is stitched once a frame was put below the picture as it is.
    pub open spec fn extended(self, frame: Picture) -> Stitching {
        let width = self.common_width(frame);
        let counted = Stitching {
            frames: self.frames + 1,
            accepted: self.accepted + 1,
            last: picture_levels(padded(frame, width)),
            ..self
        };
        match self.full {
            None => Stitching { full: Some(frame), last: picture_levels(frame), ..counted },
            Some(full) => Stitching {
                full: Some(stacked(padded(full, width), padded(frame, width))),
                ..counted
            },
        }
    }

    /// Whether frames given one after the other lead here: all is blank before the first frame,
    /// and from then on there is a picture, and the frame placed last lies around it.
    pub open spec fn in_order(self) -> bool {
        &&& self.full is None ==> self == Stitching::blank()
        &&& self.full matches Some(full) ==> {
            &&& full.complete()
            &&& full.height > 0 ==> full.width > 0
            &&& 1 <= self.accepted <= self.frames
        }
        &&& self.last.len() <= 2 * self.height()
        &&& -self.height() <= self.anchor <= self.height()
        &&& self.signature matches Some(bytes) ==> bytes.len() == ROWS * COLUMNS
    }

    /// Whether the picture with a frame can be held.
    pub open spec fn fits(self, frame: Picture) -> bool {
        &&& self.frames < usize::MAX
        &&& self.height() + frame.height <= u32::MAX
        &&& byte_count(
            self.common_width(frame) as int,
            self.height() + frame.height,
        ) <= usize::MAX
    }

    /// Whether all places and offsets at which a frame is looked for can be counted.
    pub open spec fn countable(self, frame: Picture) -> bool {
        let reach = self.last.len();
        &&& reach <= i32::MAX
        &&& offsets_countable(
            offset_reach(reach as int, needed_overlap(frame.height as int)),
            self.offset,
        )
        &&& i32::MIN <= self.anchor - reach - 160
        &&& self.anchor + reach + 160 <= i32::MAX
        &&& self.anchor + reach + frame.height <= i32::MAX
        &&& self.height() - self.anchor <= i32::MAX
        &&& self.height() + frame.height + 8 <= i32::MAX
    }

    /// Whether there is room for a frame: the picture with it can be held, and where there is a
    /// picture, all places at which the frame is looked for can be counted.
    pub open spec fn holds(self, frame: Picture) -> bool {
        self.fits(frame) && (self.full is Some ==> self.countable(frame))
    }
}

/// The profile of a part of a picture is the part of its profile.
pub proof fn lemma_band_levels(p: Picture, start: int, end: int)
    requires
        p.complete(),
        p.width > 0,
        0 <= start <= end <= p.height,
    ensures
        picture_levels(p.band(start, end)) == picture_levels(p).subrange(start, end),
{
    let part = p.band(start, end);
    assert forall|y: int| 0 <= y < end - start implies #[trigger] picture_levels(part)[y]
        == picture_levels(p)[start + y] by {
        let count = sample_count(p.width as int);
        assert forall|i: int| 0 <= i < count implies row_samples(part, y)[i] == row_samples(
            p,
            start + y,
        )[i] by {
            lemma_sample_inside(p.width as int, count, i);
            lemma_band_pixel(p, start, end, sample_column(p.width as int, count, i), y);
        }
        assert(row_samples(part, y) =~= row_samples(p, start + y));
    }
    assert(picture_levels(part) =~= picture_levels(p).subrange(start, end));
}

/// The profile of two pictures on top of each other is one profile after the other.
pub proof fn lemma_stacked_levels(upper: Picture, lower: Picture)
    requires
        upper.complete(),
        lower.complete(),
        upper.width == lower.width,
        upper.height + lower.height > 0 ==> upper.width > 0,
    ensures
        picture_levels(stacked(upper, lower)) == picture_levels(upper) + picture_levels(lower),
{
    let whole = stacked(upper, lower);
    let parts = picture_levels(upper) + picture_levels(lower);
    assert forall|y: int| 0 <= y < whole.height implies #[trigger] picture_levels(whole)[y]
        == parts[y] by {
        let count = sample_count(upper.width as int);
        let (part, row) = if y < upper.height {
            (upper, y)
        } else {
            (lower, y - upper.height)
        };
        assert forall|i: int| 0 <= i < count implies row_samples(whole, y)[i] == row_samples(
            part,
            row,
        )[i] by {
            lemma_sample_inside(upper.width as int, count, i);
            lemma_stacked_pixel(upper, lower, sample_column(upper.width as int, count, i), y);
        }
        assert(row_samples(whole, y) =~= row_samples(part, row));
    }
    assert(picture_levels(whole) =~= parts);
}

/// Stitches frames of a scrolled view into one tall picture.
#[derive(Debug)]
pub struct Stitcher {
    full: Option<Image>,
    full_cols: Vec<RowProfile>,
    last_cols: Vec<RowProfile>,
    last_signature: Option<Vec<u8>>,
    anchor_pos: i32,
    last_offset: i32,
    pending_edge: Option<Edge>,
    growth_edge: Option<Edge>,
    frames: usize,
    accepted: usize,
}

impl View for Stitcher {
    type V = Stitching;

    closed spec fn view(&self) -> Stitching {
        Stitching {
            full: match self.full {
                Some(image) => Some(image@),
                None => None,
            },
            last: levels_of(self.last_cols@),
            signature: match self.last_signature {
                Some(bytes) => Some(bytes@),
                None => None,
            },
            anchor: self.anchor_pos as int,
            offset: self.last_offset as int,
            pending: self.pending_edge,
            growth: self.growth_edge,
            frames: self.frames as nat,
            accepted: self.accepted as nat,
        }
    }
}

impl Stitcher {
    /// The profile kept is that of the picture, and the places kept lie around it.
    pub closed spec fn wf(&self) -> bool {
        &&& self@.in_order()
        &&& self@.full is None ==> self.full_cols@.len() == 0
        &&& self@.full matches Some(full) ==> levels_of(self.full_cols@) == picture_levels(full)
        &&& all_tame(levels_of(self.full_cols@))
        &&& all_tame(levels_of(self.last_cols@))
    }

    /// The profile kept of the picture.
    pub closed spec fn profile(&self) -> Seq<Levels> {
        levels_of(self.full_cols@)
    }

    /// What is stitched is in order, and the profile kept is that of the picture, row by row.
    pub proof fn lemma_wf(&self)
        requires
            self.wf(),
        ensures
            self@.in_order(),
            self.profile().len() == self@.height(),
            self@.full matches Some(full) ==> self.profile() == picture_levels(full),
    {
    }

    pub fn new() -> (stitcher: Stitcher)
        ensures
            stitcher.wf(),
            stitcher@ == Stitching::blank(),
    {
        let stitcher = Stitcher {
            full: None,
            full_cols: Vec::new(),
            last_cols: Vec::new(),
            last_signature: None,
            anchor_pos: 0,
            last_offset: 0,
            pending_edge: None,
            growth_edge: None,
            frames: 0,
            accepted: 0,
        };
        proof {
            assert(levels_of(stitcher.last_cols@) =~= Seq::<Levels>::empty());
        }
        stitcher
    }

    /// The picture stitched so far.
    pub fn full(&self) -> (full: Option<&Image>)
        ensures
            (match full {
                Some(image) => Some(image@),
                None => None,
            }) == self@.full,
    {
        match &self.full {
            Some(image) => Some(image),
            None => None,
        }
    }

    /// The picture stitched, when no more frames follow.
    pub fn into_full(self) -> (full: Option<Image>)
        ensures
            (match full {
                Some(image) => Some(image@),
                None => None,
            }) == self@.full,
    {
        self.full
    }

    /// How many frames were given.
    pub fn frames(&self) -> (frames: usize)
        ensures
            frames == self@.frames,
    {
        self.frames
    }

    /// How many of the frames given became part of the picture.
    pub fn accepted(&self) -> (accepted: usize)
        ensures
            accepted == self@.accepted,
    {
        self.accepted
    }

    /// Where the frame placed last lies.
    pub fn anchor(&self) -> (anchor: i32)
        ensures
            anchor == self@.anchor,
    {
        self.anchor_pos
    }
}

impl Verdict {
    /// Whether a verdict can be carried out on a picture with the given frame.
    pub open spec fn sound(self, height: int, frame: Picture) -> bool {
        match self {
            Verdict::Settled { pos } => 0 <= pos && pos + frame.height <= height,
            Verdict::Grown { edge, pos, amount } => {
                &&& LEAST_GROWTH <= amount
                &&& amount + needed_overlap(frame.height as int) <= frame.height
                &&& -amount <= pos <= height
                &&& edge == Edge::Start ==> pos == -amount && frame.height <= 2 * (height + amount)
                &&& edge == Edge::End ==> pos + frame.height == height + amount
            },
            _ => true,
        }
    }
}

impl Stitcher {
    /// Whether a frame can be judged against the picture.
    spec fn ready(&self, frame: Picture, cols: Seq<RowProfile>) -> bool {
        &&& self.wf()
        &&& self@.holds(frame)
        &&& self@.full is Some
        &&& (self@.full->0).width == frame.width
        &&& frame.complete()
        &&& frame.width > 0
        &&& frame.height > 0
        &&& levels_of(cols) == picture_levels(frame)
        &&& all_tame(levels_of(cols))
    }

    /// The verdict by the edges in the rows, where the profiles do not place the frame.
    fn try_edge_append_down(&self, frame: &Image, cols: &Vec<RowProfile>, min_overlap: i32) -> (verdict:
        Verdict)
        requires
            self.ready(frame@, cols@),
            min_overlap == needed_overlap(frame@.height as int),
            12 <= min_overlap <= 100,
        ensures
            verdict == self@.by_edges(frame@),
            verdict.sound(self@.height(), frame@),
    {
        proof {
            reveal(Stitching::by_edges);
        }
        match &self.full {
            None => Verdict::Unplaced,
            Some(full) => {
                match edge_overlap_tail_head(full, frame, min_overlap as u32) {
                    None => Verdict::Unplaced,
                    Some(overlap) => {
                        let amount: i32 = (frame.height() - overlap) as i32;
                        let pos: i32 = (full.height() - overlap) as i32;
                        if amount < LEAST_GROWTH {
                            Verdict::Short { pos }
                        } else {
                            Verdict::Grown { edge: Edge::End, pos, amount }
                        }
                    },
                }
            },
        }
    }

    /// The verdict on a frame that is taken to lie at `pos`.
    #[verifier::rlimit(50)]
    fn judge_placed(
        &self,
        frame: &Image,
        cols: &Vec<RowProfile>,
        predicted: i32,
        pos: i32,
        min_overlap: i32,
    ) -> (verdict: Verdict)
        requires
            self.ready(frame@, cols@),
            min_overlap == needed_overlap(frame@.height as int),
            12 <= min_overlap <= 100,
            predicted == self@.predicted(frame@),
            i32::MIN < pos,
            pos + frame@.height <= i32::MAX,
        ensures
            verdict == self@.placed(frame@, pos as int),
            verdict.sound(self@.height(), frame@),
    {
        let height: i32 = frame.height() as i32;
        let full_height: i32 = self.full_cols.len() as i32;
        proof {
            assert(levels_of(self.full_cols@).len() == self@.height());
            assert(levels_of(cols@).len() == frame@.height);
        }
        let (amount, edge) = overhang_amount(pos, height, full_height);
        let shared = known_overlap_diff(&self.full_cols, cols, pos, min_overlap);
        let nine = Single::whole(9);
        if amount == 0 {
            if let Some(overlap) = shared {
                if !nine.below(overlap.diff) {
                    return Verdict::Settled { pos };
                }
            }
            return self.try_edge_append_down(frame, cols, min_overlap);
        }
        if amount < LEAST_GROWTH {
            return Verdict::Awaiting { edge, pos };
        }
        let overlap = match shared {
            Some(overlap) => overlap,
            None => {
                return Verdict::Unplaced;
            },
        };
        if nine.below(overlap.diff) {
            if let Some(known) = find_known_position(
                &self.full_cols,
                cols,
                self.anchor_pos,
                predicted,
                min_overlap,
            ) {
                if !nine.below(known.diff) {
                    return Verdict::Settled { pos: known.pos };
                }
            }
            return self.try_edge_append_down(frame, cols, min_overlap);
        }
        if let Some(pending) = self.pending_edge {
            if pending != edge {
                return Verdict::Contrary;
            }
        }
        Verdict::Grown { edge, pos, amount }
    }

    /// The verdict on a frame of the width of the picture.
    #[verifier::spinoff_prover]
    fn judge(&self, frame: &Image, cols: &Vec<RowProfile>) -> (verdict: Verdict)
        requires
            self.ready(frame@, cols@),
            !self@.repeats(frame@),
        ensures
            verdict == self@.verdict(frame@),
            verdict.sound(self@.height(), frame@),
    {
        let min_overlap: i32 = effective_min_overlap(frame.height() as i32);
        proof {
            assert(levels_of(self.full_cols@).len() == self@.height());
            assert(levels_of(self.last_cols@).len() == self.last_cols@.len());
            assert(levels_of(cols@).len() == frame@.height);
        }
        let shift = find_offset(&self.last_cols, cols, self.last_offset, min_overlap);
        let predicted: i32 = self.anchor_pos + shift.pos;
        let nine = Single::whole(9);
        if !nine.below(shift.diff) {
            return self.judge_placed(frame, cols, predicted, predicted, min_overlap);
        }
        match find_known_position(&self.full_cols, cols, self.anchor_pos, predicted, min_overlap) {
            None => self.judge_placed(frame, cols, predicted, predicted, min_overlap),
            Some(known) => {
                if !nine.below(known.diff) {
                    return self.judge_placed(frame, cols, predicted, known.pos, min_overlap);
                }
                if let Some(edge) = find_edge_position(
                    &self.full_cols,
                    cols,
                    predicted,
                    min_overlap,
                ) {
                    if !nine.below(edge.diff) {
                        return self.judge_placed(frame, cols, predicted, edge.pos, min_overlap);
                    }
                }
                self.try_edge_append_down(frame, cols, min_overlap)
            },
        }
    }

    /// Puts the last rows of a frame below the picture.
    #[verifier::spinoff_prover]
    fn append_end(&mut self, frame: &Image, cols: &Vec<RowProfile>, amount: u32)
        requires
            old(self).ready(frame@, cols@),
            amount <= frame@.height,
        ensures
            final(self)@ == (Stitching {
                full: Some(
                    stacked(
                        old(self)@.full->0,
                        frame@.band(frame@.height - amount, frame@.height as int),
                    ),
                ),
                ..old(self)@
            }),
            final(self).wf(),
    {
        let start: u32 = frame.height() - amount;
        proof {
            lemma_band_levels(frame@, start as int, frame@.height as int);
            lemma_band_complete(frame@, start as int, frame@.height as int);
            lemma_stacked_levels(
                self@.full->0,
                frame@.band(start as int, frame@.height as int),
            );
            lemma_fewer_bytes(self@.full->0, frame@, amount as int);
            assert(levels_of(cols@).len() == cols@.len());
        }
        if let Some(full) = &self.full {
            let merged = join_rows(full, frame, start, frame.height(), true);
            let ghost before = self.full_cols@;
            self.full = Some(merged);
            extend_profile(&mut self.full_cols, cols, start as usize, cols.len());
        }
    }

    /// Puts the first rows of a frame above the picture.
    #[verifier::spinoff_prover]
    fn prepend_start(&mut self, frame: &Image, cols: &Vec<RowProfile>, amount: u32)
        requires
            old(self).ready(frame@, cols@),
            amount <= frame@.height,
        ensures
            final(self)@ == (Stitching {
                full: Some(stacked(frame@.band(0, amount as int), old(self)@.full->0)),
                ..old(self)@
            }),
            final(self).wf(),
    {
        proof {
            lemma_band_levels(frame@, 0, amount as int);
            lemma_band_complete(frame@, 0, amount as int);
            lemma_stacked_levels(frame@.band(0, amount as int), self@.full->0);
            lemma_fewer_bytes(self@.full->0, frame@, amount as int);
            assert(levels_of(cols@).len() == cols@.len());
        }
        if let Some(full) = &self.full {
            let merged = join_rows(full, frame, 0, amount, false);
            let mut joined: Vec<RowProfile> = Vec::new();
            extend_profile(&mut joined, cols, 0, amount as usize);
            extend_profile(&mut joined, &self.full_cols, 0, self.full_cols.len());
            proof {
                assert(levels_of(Seq::<RowProfile>::empty()) =~= Seq::<Levels>::empty());
                assert(levels_of(joined@) =~= picture_levels(merged@));
            }
            self.full = Some(merged);
            self.full_cols = joined;
        }
    }
}

impl Stitcher {
    /// Carries out the verdict that a frame adds rows.
    #[verifier::spinoff_prover]
    fn grow(
        &mut self,
        frame: &Image,
        cols: Vec<RowProfile>,
        signature: Vec<u8>,
        edge: Edge,
        pos: i32,
        amount: i32,
    )
        requires
            old(self).ready(frame@, cols@),
            signature@ == signature_of(frame@),
            signature@.len() == ROWS * COLUMNS,
            (Verdict::Grown { edge, pos, amount }).sound(old(self)@.height(), frame@),
        ensures
            final(self)@ == old(self)@.after(frame@, Verdict::Grown { edge, pos, amount }),
            final(self).wf(),
    {
        let old_anchor: i32 = self.anchor_pos;
        proof {
            assert(levels_of(cols@).len() == frame@.height);
        }
        if edge == Edge::Start {
            self.prepend_start(frame, &cols, amount as u32);
            self.anchor_pos = pos + amount;
        } else {
            self.append_end(frame, &cols, amount as u32);
            self.anchor_pos = pos;
        }
        self.last_cols = cols;
        self.last_signature = Some(signature);
        self.last_offset = pos - old_anchor;
        self.pending_edge = None;
        self.growth_edge = Some(edge);
        self.frames += 1;
        self.accepted += 1;
    }

    /// Takes a frame as the one placed last.
    #[verifier::spinoff_prover]
    fn settle(&mut self, cols: Vec<RowProfile>, signature: Vec<u8>, pos: i32, Ghost(frame): Ghost<Picture>)
        requires
            old(self).ready(frame, cols@),
            signature@ == signature_of(frame),
            signature@.len() == ROWS * COLUMNS,
            (Verdict::Settled { pos }).sound(old(self)@.height(), frame),
        ensures
            final(self)@ == old(self)@.after(frame, Verdict::Settled { pos }),
            final(self).wf(),
    {
        proof {
            assert(levels_of(cols@).len() == frame.height);
        }
        let old_anchor: i32 = self.anchor_pos;
        self.anchor_pos = pos;
        self.last_offset = pos - old_anchor;
        self.last_cols = cols;
        self.last_signature = Some(signature);
        self.pending_edge = None;
        self.frames += 1;
    }

    /// Whether a frame can be given: it is not empty, and there is room for it.
    pub fn has_room(&self, frame: &Image) -> (result: bool)
        ensures
            result == (frame@.width > 0 && frame@.height > 0 && self@.holds(frame@)),
    {
        let (full_width, full_height): (u32, u32) = match &self.full {
            Some(full) => (full.width(), full.height()),
            None => (0, 0),
        };
        let width: u32 = if full_width > frame.width() {
            full_width
        } else {
            frame.width()
        };
        let rows: u64 = full_height as u64 + frame.height() as u64;
        proof {
            assert(rows * (width * 4) <= 0x1_ffff_fffe * 0x3_ffff_fffc) by (nonlinear_arith)
                requires
                    rows <= 0x1_ffff_fffe,
                    width <= 0xffff_ffff,
            ;
        }
        let bytes: u128 = rows as u128 * (width as u128 * 4);
        frame.width() > 0 && frame.height() > 0 && self.frames < usize::MAX && rows
            <= u32::MAX as u64 && bytes <= usize::MAX as u128 && (self.full.is_none()
            || self.can_count(full_height as i128, frame.height() as i128))
    }

    /// Whether all places at which a frame of the given height is looked for can be counted.
    fn can_count(&self, height: i128, frame_height: i128) -> (result: bool)
        requires
            height == self@.height(),
            0 <= height <= u32::MAX,
            0 <= frame_height <= u32::MAX,
        ensures
            forall|frame: Picture|
                frame.height == frame_height ==> result == #[trigger] self@.countable(frame),
    {
        let reach: i128 = self.last_cols.len() as i128;
        let most: i128 = i32::MAX as i128;
        let anchor: i128 = self.anchor_pos as i128;
        let offset: i128 = self.last_offset as i128;
        let quarter: i128 = frame_height / 4;
        let needed: i128 = if quarter < 12 {
            12
        } else if quarter > 100 {
            100
        } else {
            quarter
        };
        let max: i128 = if reach > needed {
            reach - needed
        } else {
            0
        };
        let center: i128 = if offset < -max {
            -max
        } else if offset > max {
            max
        } else {
            offset
        };
        proof {
            assert(levels_of(self.last_cols@).len() == self.last_cols@.len());
            assert(needed == needed_overlap(frame_height as int));
        }
        reach <= most && -most - 1 <= center - 2 * max && center + 2 * max <= most && -most - 1
            <= anchor - reach - 160 && anchor + reach + 160 <= most && anchor + reach
            + frame_height <= most && height - anchor <= most && height + frame_height + 8 <= most
    }

    /// Carries out a verdict on a frame of the width of the picture, and tells what became of
    /// the frame.
    #[verifier::spinoff_prover]
    fn carry_out(
        &mut self,
        frame: &Image,
        cols: Vec<RowProfile>,
        signature: Vec<u8>,
        verdict: Verdict,
    ) -> (result: StitchResult)
        requires
            old(self).ready(frame@, cols@),
            signature@ == signature_of(frame@),
            signature@.len() == ROWS * COLUMNS,
            verdict.sound(old(self)@.height(), frame@),
            !(verdict is First),
        ensures
            result == old(self)@.told(frame@, verdict),
            final(self)@ == old(self)@.after(frame@, verdict),
            final(self).wf(),
    {
        let frame_len: u32 = frame.height();
        let nothing = StitchResult {
            status: StitchStatus::NoProgress,
            added: 0,
            edge: None,
            position: self.anchor_pos,
            frame_len,
        };
        match verdict {
            Verdict::Duplicate | Verdict::First => {
                self.frames += 1;
                nothing
            },
            Verdict::Unplaced => {
                self.frames += 1;
                StitchResult { status: StitchStatus::NoMatch, ..nothing }
            },
            Verdict::Contrary => {
                self.pending_edge = None;
                self.frames += 1;
                StitchResult { status: StitchStatus::NoMatch, ..nothing }
            },
            Verdict::Settled { pos } => {
                self.settle(cols, signature, pos, Ghost(frame@));
                StitchResult { position: pos, ..nothing }
            },
            Verdict::Awaiting { edge, pos } => {
                self.pending_edge = Some(edge);
                self.frames += 1;
                StitchResult { edge: Some(edge), position: pos, ..nothing }
            },
            Verdict::Short { pos } => {
                self.frames += 1;
                StitchResult { edge: Some(Edge::End), position: pos, ..nothing }
            },
            Verdict::Grown { edge, pos, amount } => {
                self.grow(frame, cols, signature, edge, pos, amount);
                StitchResult {
                    status: StitchStatus::Appended,
                    added: amount as u32,
                    edge: Some(edge),
                    position: self.anchor_pos,
                    frame_len,
                }
            },
        }
    }

    /// Takes the first frame as the picture.
    fn begin(&mut self, frame: Image, cols: Vec<RowProfile>, signature: Vec<u8>)
        requires
            old(self).wf(),
            old(self)@.full is None,
            frame@.complete(),
            frame@.width > 0,
            levels_of(cols@) == picture_levels(frame@),
            all_tame(levels_of(cols@)),
            signature@ == signature_of(frame@),
            signature@.len() == ROWS * COLUMNS,
        ensures
            final(self)@ == old(self)@.after(frame@, Verdict::First),
            final(self).wf(),
    {
        let mut copy: Vec<RowProfile> = Vec::new();
        extend_profile(&mut copy, &cols, 0, cols.len());
        proof {
            assert(levels_of(cols@).len() == cols@.len());
            assert(levels_of(Seq::<RowProfile>::empty()) =~= Seq::<Levels>::empty());
            assert(levels_of(copy@) =~= levels_of(cols@));
        }
        self.full_cols = copy;
        self.last_cols = cols;
        self.last_signature = Some(signature);
        self.full = Some(frame);
        self.frames += 1;
        self.accepted += 1;
    }

    /// Judges a frame and carries out the verdict.
    #[verifier::spinoff_prover]
    fn take_frame(&mut self, frame: Image) -> (result: StitchResult)
        requires
            old(self).wf(),
            frame@.width > 0,
            frame@.height > 0,
            old(self)@.frames < usize::MAX,
            old(self)@.repeats(frame@) || old(self)@.holds(frame@),
        ensures
            result == old(self)@.outcome(frame@),
            final(self)@ == old(self)@.pushed(frame@),
            final(self).wf(),
    {
        let frame_len: u32 = frame.height();
        let signature = frame_signature(&frame);
        let repeated: bool = match &self.last_signature {
            Some(previous) => is_duplicate_signature(previous, &signature),
            None => false,
        };
        let nothing = StitchResult {
            status: StitchStatus::NoProgress,
            added: 0,
            edge: None,
            position: self.anchor_pos,
            frame_len,
        };
        if repeated {
            self.frames += 1;
            return nothing;
        }
        let cols = compute_cols(&frame);
        let width: u32 = match &self.full {
            None => {
                self.begin(frame, cols, signature);
                return StitchResult {
                    status: StitchStatus::FirstFrame,
                    added: frame_len,
                    edge: None,
                    position: 0,
                    frame_len,
                };
            },
            Some(full) => full.width(),
        };
        if width != frame.width() {
            self.frames += 1;
            return StitchResult { status: StitchStatus::NoMatch, ..nothing };
        }
        let verdict = self.judge(&frame, &cols);
        proof {
            lemma_first_alone(self@, frame@);
        }
        self.carry_out(&frame, cols, signature, verdict)
    }

    /// Gives a frame, and tells what became of it. A frame that shows what the one placed last
    /// showed needs no room.
    #[verifier::spinoff_prover]
    pub fn push_frame_result(&mut self, frame: Image) -> (result: StitchResult)
        requires
            old(self).wf(),
            frame@.width > 0,
            frame@.height > 0,
            old(self)@.frames < usize::MAX,
            old(self)@.repeats(frame@) || old(self)@.holds(frame@),
        ensures
            result == old(self)@.outcome(frame@),
            final(self)@ == old(self)@.pushed(frame@),
            final(self).wf(),
            result.frame_len == frame@.height,
            final(self)@.full is Some,
            final(self).profile().len() == final(self)@.height(),
            final(self)@.frames == old(self)@.frames + 1,
            final(self)@.accepted == old(self)@.accepted + if result.status
                == StitchStatus::FirstFrame || result.status == StitchStatus::Appended {
                1int
            } else {
                0int
            },
            result.status == StitchStatus::FirstFrame <==> old(self)@.full is None,
            result.status == StitchStatus::Appended ==> grown(
                old(self)@.full->0,
                frame@,
                result,
                final(self)@.full->0,
            ),
            result.status == StitchStatus::FirstFrame || result.status == StitchStatus::Appended
                ==> final(self)@.repeats(frame@) && final(self)@.anchor == result.position,
            old(self)@.repeats(frame@) ==> {
                &&& result.status == StitchStatus::NoProgress
                &&& result.added == 0
                &&& result.edge is None
                &&& result.position == old(self)@.anchor
                &&& final(self)@ == (Stitching { frames: old(self)@.frames + 1, ..old(self)@ })
            },
    {
        let ghost before = self@;
        let ghost picture = frame@;
        proof {
            self.lemma_wf();
        }
        let _ = frame.height();
        let result = self.take_frame(frame);
        proof {
            self.lemma_wf();
            lemma_frame_told(before, picture);
        }
        result
    }

    /// Gives a frame, and tells whether it became part of the picture.
    pub fn push_frame(&mut self, frame: Image) -> (accepted: bool)
        requires
            old(self).wf(),
            frame@.width > 0,
            frame@.height > 0,
            old(self)@.frames < usize::MAX,
            old(self)@.repeats(frame@) || old(self)@.holds(frame@),
        ensures
            accepted == (old(self)@.outcome(frame@).status == StitchStatus::FirstFrame || old(
                self,
            )@.outcome(frame@).status == StitchStatus::Appended),
            final(self)@ == old(self)@.pushed(frame@),
            final(self).wf(),
    {
        self.push_frame_result(frame).accepted()
    }

    /// Widens the picture.
    fn widen(&mut self, width: u32)
        requires
            old(self).wf(),
            old(self)@.full is Some,
            byte_count(width as int, old(self)@.height()) <= usize::MAX,
            width > 0,
        ensures
            final(self)@ == old(self)@.widened(width as nat),
            final(self).wf(),
            (final(self)@.full->0).width >= width,
            (old(self)@.full->0).width <= width ==> (final(self)@.full->0).width == width,
            final(self)@.height() == old(self)@.height(),
    {
        if let Some(full) = &self.full {
            let wide = pad_width(full, width);
            self.full_cols = compute_cols(&wide);
            self.full = Some(wide);
        }
    }

    /// Gives a frame, and tells whether it became part of the picture; where the widths
    /// differ, the narrower is widened first.
    pub fn push_frame_keep_widths(&mut self, frame: Image) -> (accepted: bool)
        requires
            old(self).wf(),
            frame@.width > 0,
            frame@.height > 0,
            old(self)@.holds(frame@),
        ensures
            ({
                let width = old(self)@.common_width(frame@);
                let (before, wide) = if old(self)@.full is None || (old(self)@.full->0).width
                    == frame@.width {
                    (old(self)@, frame@)
                } else {
                    (old(self)@.widened(width), padded(frame@, width))
                };
                &&& accepted == (before.outcome(wide).status == StitchStatus::FirstFrame
                    || before.outcome(wide).status == StitchStatus::Appended)
                &&& final(self)@ == before.pushed(wide)
            }),
            final(self).wf(),
    {
        let full_width: u32 = match &self.full {
            None => {
                return self.push_frame(frame);
            },
            Some(full) => full.width(),
        };
        if frame.width() == full_width {
            return self.push_frame(frame);
        }
        let width: u32 = if full_width > frame.width() {
            full_width
        } else {
            frame.width()
        };
        proof {
            lemma_parts_fit(width as int, self@.height(), frame@.height as int);
        }
        self.widen(width);
        let wide = pad_width(&frame, width);
        self.push_frame(wide)
    }

    /// Puts a frame below the picture as it is; where the widths differ, the narrower is
    /// widened.
    pub fn append_without_dedup(&mut self, frame: Image)
        requires
            old(self).wf(),
            frame@.height > 0 ==> old(self)@.common_width(frame@) > 0,
            old(self)@.fits(frame@),
        ensures
            final(self)@ == old(self)@.extended(frame@),
            final(self).wf(),
    {
        let full_width: u32 = match &self.full {
            None => {
                let cols = compute_cols(&frame);
                let mut copy: Vec<RowProfile> = Vec::new();
                extend_profile(&mut copy, &cols, 0, cols.len());
                proof {
                    assert(levels_of(cols@).len() == cols@.len());
                    assert(levels_of(Seq::<RowProfile>::empty()) =~= Seq::<Levels>::empty());
                    assert(levels_of(copy@) =~= levels_of(cols@));
                }
                let _ = frame.height();
                self.full_cols = copy;
                self.last_cols = cols;
                self.full = Some(frame);
                self.frames += 1;
                self.accepted += 1;
                return;
            },
            Some(full) => full.width(),
        };
        let width: u32 = if full_width > frame.width() {
            full_width
        } else {
            frame.width()
        };
        proof {
            lemma_parts_fit(width as int, self@.height(), frame@.height as int);
        }
        let wide = pad_width(&frame, width);
        self.append_raw(&wide, Ghost(frame@));
    }

    /// Puts a frame that is at least as wide as the picture below it.
    #[verifier::spinoff_prover]
    fn append_raw(&mut self, frame: &Image, Ghost(narrow): Ghost<Picture>)
        requires
            old(self).wf(),
            old(self)@.full is Some,
            old(self)@.fits(narrow),
            narrow.height > 0 ==> old(self)@.common_width(narrow) > 0,
            frame@ == padded(narrow, old(self)@.common_width(narrow)),
            frame@.width == old(self)@.common_width(narrow),
            frame@.height == narrow.height,
        ensures
            final(self)@ == old(self)@.extended(narrow),
            final(self).wf(),
    {
        proof {
            lemma_parts_fit(frame@.width as int, self@.height(), frame@.height as int);
        }
        if let Some(full) = &self.full {
            let wide = pad_width(full, frame.width());
            let merged = join_rows(&wide, frame, 0, frame.height(), true);
            proof {
                assert(frame@.band(0, frame@.height as int) == frame@) by {
                    lemma_band_complete(frame@, 0, frame@.height as int);
                    assert(0 * frame@.row_bytes() == 0);
                    assert(frame@.rows(0, frame@.height as int) =~= frame@.bytes);
                }
            }
            self.full_cols = compute_cols(&merged);
            self.last_cols = compute_cols(frame);
            self.full = Some(merged);
            self.frames += 1;
            self.accepted += 1;
            proof {
                assert(levels_of(self.last_cols@).len() == frame@.height);
            }
        }
    }
}

/// Where two pictures on top of each other can be held, each can.
proof fn lemma_parts_fit(width: int, upper: int, lower: int)
    requires
        0 <= width,
        0 <= upper,
        0 <= lower,
    ensures
        byte_count(width, upper) <= byte_count(width, upper + lower),
        byte_count(width, lower) <= byte_count(width, upper + lower),
{
    let row = width * 4;
    assert(upper * row <= (upper + lower) * row && lower * row <= (upper + lower) * row)
        by (nonlinear_arith)
        requires
            0 <= upper,
            0 <= lower,
            0 <= row,
    ;
}

/// A picture with a part of a frame takes no more bytes than with all of it.
proof fn lemma_fewer_bytes(full: Picture, frame: Picture, amount: int)
    requires
        full.width == frame.width,
        0 <= amount <= frame.height,
    ensures
        byte_count(full.width as int, full.height + amount) <= byte_count(
            frame.width as int,
            (full.height + frame.height) as int,
        ),
{
    let row: int = (full.width * 4) as int;
    assert((full.height + amount) * row <= (full.height + frame.height) * row) by (nonlinear_arith)
        requires
            amount <= frame.height,
            row >= 0,
    ;
}

/// Adds rows of one profile to another.
fn extend_profile(cols: &mut Vec<RowProfile>, more: &Vec<RowProfile>, start: usize, end: usize)
    requires
        start <= end <= more@.len(),
        all_tame(levels_of(old(cols)@)),
        all_tame(levels_of(more@)),
    ensures
        levels_of(final(cols)@) =~= levels_of(old(cols)@) + levels_of(more@).subrange(
            start as int,
            end as int,
        ),
        all_tame(levels_of(final(cols)@)),
{
    let mut i: usize = start;
    while i < end
        invariant
            start <= i <= end <= more@.len(),
            all_tame(levels_of(more@)),
            all_tame(levels_of(cols@)),
            levels_of(cols@) =~= levels_of(old(cols)@) + levels_of(more@).subrange(
                start as int,
                i as int,
            ),
        decreases end - i,
    {
        let ghost before = cols@;
        cols.push(more[i]);
        proof {
            assert(levels_of(cols@) =~= levels_of(before).push(levels_of(more@)[i as int]));
        }
        i += 1;
    }
}

/// Whether a picture grew by rows of a frame at one end and kept all it had: the frame shares
/// enough of its rows with what was there, and lies at that end of what is there now.
pub open spec fn grown(
    before: Picture,
    frame: Picture,
    result: StitchResult,
    after: Picture,
) -> bool {
    let added = result.added as int;
    &&& after.complete()
    &&& after.width == before.width
    &&& after.height == before.height + added
    &&& LEAST_GROWTH <= added < frame.height
    &&& added + needed_overlap(frame.height as int) <= frame.height
    &&& result.frame_len == frame.height
    &&& match result.edge {
        Some(Edge::Start) => {
            &&& result.position == 0
            &&& after.band(0, added) == frame.band(0, added)
            &&& after.band(added, after.height as int) == before
        },
        Some(Edge::End) => {
            &&& result.position + result.frame_len == after.height
            &&& after.band(0, before.height as int) == before
            &&& after.band(before.height as int, after.height as int) == frame.band(
                frame.height - added,
                frame.height as int,
            )
        },
        None => false,
    }
}

/// Two pictures on top of each other can be told apart again.
pub proof fn lemma_stacked_bands(upper: Picture, lower: Picture)
    requires
        upper.complete(),
        lower.complete(),
        upper.width == lower.width,
    ensures
        stacked(upper, lower).complete(),
        stacked(upper, lower).band(0, upper.height as int) == upper,
        stacked(upper, lower).band(upper.height as int, (upper.height + lower.height) as int)
            == lower,
{
    crate::raster::lemma_stacked_complete(upper, lower);
    let whole = stacked(upper, lower);
    let row = upper.row_bytes();
    assert(0 * row == 0);
    assert(whole.rows(0, upper.height as int) =~= upper.bytes);
    assert((upper.height + lower.height) * row == upper.height * row + lower.height * row)
        by (nonlinear_arith);
    assert(whole.rows(upper.height as int, (upper.height + lower.height) as int) =~= lower.bytes);
}

proof fn lemma_grown(before: Stitching, frame: Picture, edge: Edge, pos: i32, amount: i32)
    requires
        before.full is Some,
        (before.full->0).complete(),
        frame.complete(),
        (before.full->0).width == frame.width,
        frame.height <= u32::MAX,
        (Verdict::Grown { edge, pos, amount }).sound(before.height(), frame),
    ensures
        grown(
            before.full->0,
            frame,
            before.told(frame, Verdict::Grown { edge, pos, amount }),
            before.after(frame, Verdict::Grown { edge, pos, amount }).full->0,
        ),
{
    let full = before.full->0;
    lemma_band_complete(frame, 0, amount as int);
    lemma_band_complete(frame, frame.height - amount, frame.height as int);
    if edge == Edge::Start {
        lemma_stacked_bands(frame.band(0, amount as int), full);
    } else {
        lemma_stacked_bands(full, frame.band(frame.height - amount, frame.height as int));
    }
}

/// A picture is its upper part on top of its lower part.
proof fn lemma_parted(p: Picture, row: int)
    requires
        p.complete(),
        0 <= row <= p.height,
    ensures
        p.bytes == p.band(0, row).bytes + p.band(row, p.height as int).bytes,
{
    let r = p.row_bytes() as int;
    assert(0 <= row * r <= p.height * r && 0 * r == 0) by (nonlinear_arith)
        requires
            0 <= row <= p.height,
            r >= 0,
    ;
    assert(p.bytes =~= p.band(0, row).bytes + p.band(row, p.height as int).bytes);
}

/// Two parts of a page that follow each other make up one part of it.
proof fn lemma_parts_joined(page: Picture, start: int, middle: int, end: int)
    requires
        page.complete(),
        0 <= start <= middle <= end <= page.height,
    ensures
        page.band(start, middle).bytes + page.band(middle, end).bytes == page.band(
            start,
            end,
        ).bytes,
{
    let r = page.row_bytes() as int;
    assert(0 <= start * r <= middle * r && middle * r <= end * r && end * r <= page.height * r)
        by (nonlinear_arith)
        requires
            0 <= start <= middle <= end <= page.height,
            r >= 0,
    ;
    assert(page.band(start, middle).bytes + page.band(middle, end).bytes =~= page.band(
        start,
        end,
    ).bytes);
}

/// A part of a part of a page is a part of the page.
proof fn lemma_part_of_part(page: Picture, start: int, end: int, from: int, to: int)
    requires
        page.complete(),
        0 <= start <= end <= page.height,
        0 <= from <= to <= end - start,
    ensures
        page.band(start, end).band(from, to) == page.band(start + from, start + to),
{
    let r = page.row_bytes() as int;
    assert(0 <= start * r <= end * r && end * r <= page.height * r && 0 <= from * r <= to * r && to
        * r <= (end - start) * r && (start + from) * r == start * r + from * r && (start + to) * r
        == start * r + to * r && (end - start) * r == end * r - start * r) by (nonlinear_arith)
        requires
            0 <= start <= end <= page.height,
            0 <= from <= to <= end - start,
            r >= 0,
    ;
    assert(page.band(start, end).band(from, to).bytes =~= page.band(start + from, start + to).bytes);
}

/// The picture stays a part of the page that is scrolled: where it is one, and a frame of the
/// page makes it grow by the rows that the frame shows beyond it, it becomes the part of the
/// page that reaches as far as the frame.
pub proof fn lemma_page_continued(
    page: Picture,
    start: int,
    end: int,
    frame_start: int,
    frame_end: int,
    result: StitchResult,
    after: Picture,
)
    requires
        page.complete(),
        0 <= start <= end <= page.height,
        0 <= frame_start <= frame_end <= page.height,
        grown(page.band(start, end), page.band(frame_start, frame_end), result, after),
        result.edge == Some(Edge::End) ==> frame_end == end + result.added,
        result.edge == Some(Edge::Start) ==> frame_start == start - result.added,
    ensures
        after == if result.edge == Some(Edge::End) {
            page.band(start, frame_end)
        } else {
            page.band(frame_start, end)
        },
{
    let added = result.added as int;
    let frame = page.band(frame_start, frame_end);
    if result.edge == Some(Edge::End) {
        lemma_parted(after, end - start);
        lemma_part_of_part(page, frame_start, frame_end, frame.height - added, frame.height as int);
        lemma_parts_joined(page, start, end, frame_end);
    } else {
        lemma_parted(after, added);
        lemma_part_of_part(page, frame_start, frame_end, 0, added);
        lemma_parts_joined(page, frame_start, start, end);
    }
}

/// Every frame is counted, and it is counted as accepted if and only if it is told to be the
/// first or to have been appended.
pub proof fn lemma_frames_counted(before: Stitching, frame: Picture)
    ensures
        before.pushed(frame).frames == before.frames + 1,
        before.pushed(frame).accepted == before.accepted + if before.outcome(frame).status
            == StitchStatus::FirstFrame || before.outcome(frame).status == StitchStatus::Appended {
            1int
        } else {
            0int
        },
{
}

/// Only frames told to be the first or appended change the picture.
pub proof fn lemma_picture_kept(before: Stitching, frame: Picture)
    requires
        before.outcome(frame).status == StitchStatus::NoProgress || before.outcome(frame).status
            == StitchStatus::NoMatch,
    ensures
        before.pushed(frame).full == before.full,
        before.outcome(frame).added == 0,
{
}

/// The first frame becomes the picture as it is.
pub proof fn lemma_first_frame(frame: Picture)
    ensures
        Stitching::blank().outcome(frame).status == StitchStatus::FirstFrame,
        Stitching::blank().pushed(frame).full == Some(frame),
{
}

/// A frame that belongs nowhere leaves everything but the count of frames and the awaited
/// end as it was.
pub proof fn lemma_rejected_changes_nothing(before: Stitching, frame: Picture)
    requires
        before.outcome(frame).status == StitchStatus::NoMatch,
    ensures
        before.pushed(frame) == (Stitching {
            frames: before.frames + 1,
            pending: before.pushed(frame).pending,
            ..before
        }),
        before.pushed(frame).pending == before.pending || before.pushed(frame).pending is None,
{
}

/// How many frames were counted has no bearing on the verdict.
proof fn lemma_count_irrelevant(before: Stitching, frames: nat, frame: Picture)
    ensures
        (Stitching { frames, ..before }).verdict(frame) == before.verdict(frame),
{
    reveal(Stitching::by_edges);
}

/// A frame that belongs nowhere does not spoil the next one: where no end was awaited, the
/// next frame fares as if the rejected one had not been given.
#[verifier::spinoff_prover]
pub proof fn lemma_rejected_spoils_nothing(before: Stitching, bad: Picture, next: Picture)
    requires
        before.outcome(bad).status == StitchStatus::NoMatch,
        before.pending is None,
    ensures
        before.pushed(bad).outcome(next) == before.outcome(next),
        before.pushed(bad).pushed(next) == (Stitching {
            frames: before.frames + 2,
            ..before.pushed(next)
        }),
{
    lemma_rejected_changes_nothing(before, bad);
    lemma_count_irrelevant(before, before.frames + 1, next);
    assert(before.pushed(bad) == (Stitching { frames: before.frames + 1, ..before }));
}

/// A frame is taken for the first only where there is no picture.
proof fn lemma_first_alone(before: Stitching, frame: Picture)
    ensures
        before.verdict(frame) is First ==> before.full is None,
{
    reveal(Stitching::by_edges);
}

/// A frame that is placed is told to lie where it is then taken to lie.
proof fn lemma_told_where_placed(before: Stitching, frame: Picture, verdict: Verdict)
    requires
        verdict is First || verdict is Grown || verdict is Settled,
        verdict is First ==> before.anchor == 0,
    ensures
        before.told(frame, verdict).position == before.after(frame, verdict).anchor as i32,
        before.after(frame, verdict).signature == Some(signature_of(frame)),
{
}

/// A frame that shows what the one placed last showed changes nothing but the count of frames.
proof fn lemma_repeat_told(before: Stitching, frame: Picture)
    requires
        before.repeats(frame),
    ensures
        before.verdict(frame) == Verdict::Duplicate,
        before.outcome(frame).status == StitchStatus::NoProgress,
        before.outcome(frame).added == 0,
        before.outcome(frame).edge is None,
        before.outcome(frame).position == before.anchor as i32,
        before.pushed(frame) == (Stitching { frames: before.frames + 1, ..before }),
{
}

/// A frame that was placed and is given once more is told to show nothing new at the place
/// told before, at no end, and changes nothing but the count of frames.
pub proof fn lemma_repeated_frame(before: Stitching, frame: Picture)
    requires
        before.in_order(),
        before.verdict(frame) is First || before.verdict(frame) is Grown || before.verdict(
            frame,
        ) is Settled,
    ensures
        ({
            let once = before.pushed(frame);
            &&& once.outcome(frame).status == StitchStatus::NoProgress
            &&& once.outcome(frame).added == 0
            &&& once.outcome(frame).edge is None
            &&& once.outcome(frame).position == before.outcome(frame).position
            &&& once.outcome(frame).position == once.anchor as i32
            &&& once.pushed(frame) == (Stitching { frames: once.frames + 1, ..once })
        }),
{
    let verdict = before.verdict(frame);
    let once = before.after(frame, verdict);
    lemma_first_alone(before, frame);
    lemma_told_where_placed(before, frame, verdict);
    crate::signature::lemma_duplicates_itself(signature_of(frame));
    lemma_repeat_told(once, frame);
}

/// A frame is never taken to lie far from the picture: the places are so bounded that they
/// can be counted where there is room for the frame.
pub proof fn lemma_place_bounded(before: Stitching, frame: Picture)
    requires
        before.in_order(),
        before.full is Some,
    ensures
        before.place(frame) matches Some(pos) ==> {
            &&& -frame.height <= pos <= before.height() || before.anchor - before.last.len() <= pos
                <= before.anchor + before.last.len()
            &&& before.holds(frame) ==> i32::MIN < pos && pos + frame.height <= i32::MAX
        },
{
    let min_overlap = needed_overlap(frame.height as int);
    crate::search::lemma_offset_bounded(
        before.last,
        picture_levels(frame),
        before.offset,
        min_overlap,
    );
    (Inside {
        full: before.levels(),
        frame: picture_levels(frame),
        predicted: before.predicted(frame),
        min_overlap,
    }).lemma_found_inside(before.anchor);
    (Outside {
        full: before.levels(),
        frame: picture_levels(frame),
        predicted: before.predicted(frame),
        min_overlap,
    }).lemma_found_around();
}

proof fn lemma_edges_sound(before: Stitching, frame: Picture)
    requires
        before.full is Some,
        before.holds(frame),
    ensures
        before.by_edges(frame).sound(before.height(), frame),
        before.by_edges(frame) is Unplaced || before.by_edges(frame) is Short || before.by_edges(
            frame,
        ) is Grown,
{
    reveal(Stitching::by_edges);
}

proof fn lemma_placed_sound(before: Stitching, frame: Picture, pos: int)
    requires
        before.in_order(),
        before.full is Some,
        before.holds(frame),
        i32::MIN < pos,
        pos + frame.height <= i32::MAX,
    ensures
        before.placed(frame, pos).sound(before.height(), frame),
        !(before.placed(frame, pos) is First),
{
    lemma_edges_sound(before, frame);
    let min_overlap = needed_overlap(frame.height as int);
    (Inside {
        full: before.levels(),
        frame: picture_levels(frame),
        predicted: before.predicted(frame),
        min_overlap,
    }).lemma_found_inside(before.anchor);
    assert(before.levels().len() == before.height());
    assert(picture_levels(frame).len() == frame.height);
}

/// The verdict on a frame that there is room for can be carried out.
pub proof fn lemma_verdict_sound(before: Stitching, frame: Picture)
    requires
        before.in_order(),
        before.holds(frame),
    ensures
        before.verdict(frame).sound(before.height(), frame),
{
    if before.full is Some && !before.repeats(frame) && (before.full->0).width == frame.width {
        lemma_place_bounded(before, frame);
        lemma_edges_sound(before, frame);
        match before.place(frame) {
            Some(pos) => lemma_placed_sound(before, frame, pos),
            None => {},
        }
    }
}

/// Only a frame of the width of the picture makes it grow.
proof fn lemma_grown_alike(before: Stitching, frame: Picture)
    ensures
        before.verdict(frame) is Grown ==> before.full is Some && (before.full->0).width
            == frame.width,
{
}

/// Whatever becomes of a frame, all stays in order and there is a picture. The frame is told
/// to be the first if and only if there was no picture before, and the picture grew as told
/// where the frame is told to have been appended.
#[verifier::spinoff_prover]
pub proof fn lemma_order_kept(before: Stitching, frame: Picture)
    requires
        before.in_order(),
        frame.complete(),
        frame.width > 0,
        0 < frame.height <= u32::MAX,
        before.repeats(frame) || before.holds(frame),
    ensures
        before.pushed(frame).in_order(),
        before.pushed(frame).full is Some,
        before.outcome(frame).frame_len == frame.height,
        before.outcome(frame).status == StitchStatus::FirstFrame <==> before.full is None,
        before.outcome(frame).status == StitchStatus::Appended ==> grown(
            before.full->0,
            frame,
            before.outcome(frame),
            before.pushed(frame).full->0,
        ),
{
    let verdict = before.verdict(frame);
    assert(picture_levels(frame).len() == frame.height);
    assert(signature_of(frame).len() == ROWS * COLUMNS);
    lemma_first_alone(before, frame);
    if before.repeats(frame) {
        lemma_repeat_told(before, frame);
    } else {
        lemma_verdict_sound(before, frame);
        if let Verdict::Grown { edge, pos, amount } = verdict {
            lemma_grown_alike(before, frame);
            lemma_grown(before, frame, edge, pos, amount);
        }
    }
}

/// A frame that became part of the picture is known when it is given once more, and lies where
/// it is told to lie.
proof fn lemma_accepted_placed(before: Stitching, frame: Picture, verdict: Verdict)
    requires
        before.told(frame, verdict).status == StitchStatus::FirstFrame || before.told(
            frame,
            verdict,
        ).status == StitchStatus::Appended,
        verdict is First ==> before.anchor == 0,
        verdict.sound(before.height(), frame),
        before.height() <= i32::MAX,
    ensures
        before.after(frame, verdict).repeats(frame),
        before.told(frame, verdict).position == before.after(frame, verdict).anchor,
{
    lemma_told_where_placed(before, frame, verdict);
    crate::signature::lemma_duplicates_itself(signature_of(frame));
}

/// What is told about a frame, and what it leads to.
#[verifier::spinoff_prover]
proof fn lemma_frame_told(before: Stitching, frame: Picture)
    requires
        before.in_order(),
        i32::MIN <= before.anchor <= i32::MAX,
        frame.complete(),
        frame.width > 0,
        0 < frame.height <= u32::MAX,
        before.repeats(frame) || before.holds(frame),
    ensures
        ({
            let result = before.outcome(frame);
            let after = before.pushed(frame);
            let accepted = result.status == StitchStatus::FirstFrame || result.status
                == StitchStatus::Appended;
            &&& after.full is Some
            &&& result.frame_len == frame.height
            &&& after.frames == before.frames + 1
            &&& after.accepted == before.accepted + if accepted {
                1int
            } else {
                0int
            }
            &&& result.status == StitchStatus::FirstFrame <==> before.full is None
            &&& result.status == StitchStatus::Appended ==> grown(
                before.full->0,
                frame,
                result,
                after.full->0,
            )
            &&& accepted ==> after.repeats(frame) && after.anchor == result.position
            &&& before.repeats(frame) ==> {
                &&& result.status == StitchStatus::NoProgress
                &&& result.added == 0
                &&& result.edge is None
                &&& result.position == before.anchor
                &&& after == (Stitching { frames: before.frames + 1, ..before })
            }
        }),
{
    lemma_order_kept(before, frame);
    lemma_frames_counted(before, frame);
    if before.repeats(frame) {
        lemma_repeat_told(before, frame);
    } else {
        lemma_first_alone(before, frame);
        lemma_verdict_sound(before, frame);
        let result = before.outcome(frame);
        if result.status == StitchStatus::FirstFrame || result.status == StitchStatus::Appended {
            lemma_accepted_placed(before, frame, before.verdict(frame));
        }
    }
}

/// Where a frame is put below the picture as it is, all stays in order, and the picture is
/// taller by that frame.
pub proof fn lemma_extended_in_order(before: Stitching, frame: Picture)
    requires
        before.in_order(),
        frame.complete(),
        frame.height > 0 ==> before.common_width(frame) > 0,
    ensures
        before.extended(frame).in_order(),
        before.extended(frame).full is Some,
        before.extended(frame).height() == before.height() + frame.height,
{
    let width = before.common_width(frame);
    lemma_padded(frame, width);
    assert(picture_levels(frame).len() == frame.height);
    assert(picture_levels(padded(frame, width)).len() == frame.height);
    if let Some(full) = before.full {
        lemma_padded(full, width);
        crate::raster::lemma_stacked_complete(padded(full, width), padded(frame, width));
    }
}

/// Where the picture grows at an end, the frame reaches beyond that end.
pub proof fn lemma_growth_at_boundary(pos: int, frame_height: int, full_height: int)
    requires
        overhang(pos, frame_height, full_height).0 > 0,
    ensures
        overhang(pos, frame_height, full_height).1 == Edge::Start ==> pos <= 0,
        overhang(pos, frame_height, full_height).1 == Edge::End ==> pos + frame_height
            >= full_height,
{
}

} // verus!
