//! What becomes of the frames of a page that is scrolled.

use crate::edges::{found_overlap, lemma_overlap_unique, overlap_closest, overlap_found};
use crate::overlap::{lemma_same_rows_agree, rows_left_out, shifted_distance};
use crate::profile::{all_tame, fraction, lemma_picture_tame, picture_levels, Levels};
use crate::raster::{
    lemma_band_complete, lemma_padded, lemma_stacked_complete, lemma_stacked_pixel, padded, stacked,
    Picture,
};
use crate::search::{
    apart_at, best_offset, close, known_overlap, lemma_close, lemma_exact_offset_found, lemma_quarter,
    needed_overlap, offsets_around, overhang, Edge, Inside, Match, Outside,
};
use crate::single::limit;
use crate::stitch::{
    lemma_band_levels, lemma_order_kept, lemma_page_continued, lemma_place_bounded, StitchStatus,
    Stitching,
};
use vstd::prelude::*;

verus! {

/// The rows that a frame of the given height must share with the picture: a quarter of them, at
/// least twelve and at most a hundred.
pub open spec fn rows_needed(height: int) -> int {
    if height < 48 {
        12
    } else if height < 400 {
        height / 4
    } else {
        100
    }
}

/// Whether so many shared rows of a frame are enough, though some of them may be left out.
pub open spec fn enough(shared: int, height: int) -> bool {
    shared >= rows_needed(height) + rows_left_out(shared)
}

/// Whether the picture is a part of a page, and a frame another part of it that is taken to lie
/// at its rows.
pub open spec fn on_page(
    before: Stitching,
    page: Picture,
    start: int,
    end: int,
    frame_start: int,
    frame_end: int,
) -> bool {
    let frame = page.band(frame_start, frame_end);
    &&& page.complete()
    &&& page.width > 0
    &&& 0 <= start <= end <= page.height
    &&& 0 <= frame_start < frame_end <= page.height
    &&& before.in_order()
    &&& before.full == Some(page.band(start, end))
    &&& before.holds(frame)
    &&& !before.repeats(frame)
    &&& before.place(frame) == Some(frame_start - start)
}

/// The smaller of two numbers.
pub open spec fn lower(a: int, b: int) -> int {
    if a < b {
        a
    } else {
        b
    }
}

/// The greater of two numbers.
pub open spec fn upper(a: int, b: int) -> int {
    if a < b {
        b
    } else {
        a
    }
}

/// Parts of a profile agree in the rows that they share.
proof fn lemma_parts_agree(
    rows: Seq<Levels>,
    start: int,
    end: int,
    frame_start: int,
    frame_end: int,
    min_overlap: int,
)
    requires
        all_tame(rows),
        0 <= start <= end <= rows.len(),
        0 <= frame_start <= frame_end <= rows.len(),
        end - start <= 0xffff_ffff,
        0 < min_overlap,
        ({
            let shared = lower(end, frame_end) - upper(start, frame_start);
            shared >= min_overlap + rows_left_out(shared)
        }),
    ensures
        known_overlap(
            rows.subrange(start, end),
            rows.subrange(frame_start, frame_end),
            frame_start - start,
            min_overlap,
        ) == Some(Match { pos: lower(end, frame_end) - upper(start, frame_start), diff: 0 }),
{
    let first = upper(start, frame_start);
    let last = lower(end, frame_end);
    let full = rows.subrange(start, end);
    let frame = rows.subrange(frame_start, frame_end);
    let length = last - first;
    assert(full.subrange(first - start, first - start + length) =~= rows.subrange(first, last));
    assert(frame.subrange(first - frame_start, first - frame_start + length) =~= rows.subrange(
        first,
        last,
    ));
    lemma_same_rows_agree(
        full,
        frame,
        first - start,
        first - frame_start,
        length,
        min_overlap,
    );
}

/// The rows that two parts of a page share agree.
proof fn lemma_page_rows_agree(
    page: Picture,
    start: int,
    end: int,
    frame_start: int,
    frame_end: int,
)
    requires
        page.complete(),
        page.width > 0,
        0 <= start <= end <= page.height,
        0 <= frame_start < frame_end <= page.height,
        end - start <= 0xffff_ffff,
        enough(lower(end, frame_end) - upper(start, frame_start), frame_end - frame_start),
    ensures
        known_overlap(
            picture_levels(page.band(start, end)),
            picture_levels(page.band(frame_start, frame_end)),
            frame_start - start,
            needed_overlap(frame_end - frame_start),
        ) == Some(Match { pos: lower(end, frame_end) - upper(start, frame_start), diff: 0 }),
        close(0),
{
    lemma_band_levels(page, start, end);
    lemma_band_levels(page, frame_start, frame_end);
    lemma_picture_tame(page);
    lemma_quarter();
    lemma_parts_agree(
        picture_levels(page),
        start,
        end,
        frame_start,
        frame_end,
        needed_overlap(frame_end - frame_start),
    );
}

/// A frame that shows fewer than fifteen rows below the picture changes nothing but the end that
/// is awaited from then on.
pub proof fn lemma_short_below(
    before: Stitching,
    page: Picture,
    start: int,
    end: int,
    frame_start: int,
    frame_end: int,
)
    requires
        on_page(before, page, start, end, frame_start, frame_end),
        start <= frame_start,
        end < frame_end < end + 15,
    ensures
        ({
            let frame = page.band(frame_start, frame_end);
            let result = before.outcome(frame);
            &&& result.status == StitchStatus::NoProgress
            &&& result.added == 0
            &&& result.edge == Some(Edge::End)
            &&& result.position == frame_start - start
            &&& before.pushed(frame) == (Stitching {
                pending: Some(Edge::End),
                frames: before.frames + 1,
                ..before
            })
        }),
{
    lemma_place_bounded(before, page.band(frame_start, frame_end));
}

/// A frame that shows fewer than fifteen rows above the picture changes nothing but the end that
/// is awaited from then on.
pub proof fn lemma_short_above(
    before: Stitching,
    page: Picture,
    start: int,
    end: int,
    frame_start: int,
    frame_end: int,
)
    requires
        on_page(before, page, start, end, frame_start, frame_end),
        start - 15 < frame_start < start,
        frame_end <= end,
    ensures
        ({
            let frame = page.band(frame_start, frame_end);
            let result = before.outcome(frame);
            &&& result.status == StitchStatus::NoProgress
            &&& result.added == 0
            &&& result.edge == Some(Edge::Start)
            &&& result.position == frame_start - start
            &&& before.pushed(frame) == (Stitching {
                pending: Some(Edge::Start),
                frames: before.frames + 1,
                ..before
            })
        }),
{
    lemma_place_bounded(before, page.band(frame_start, frame_end));
}

/// A frame of a page that shows at least fifteen rows below the picture is appended, unless the
/// other end is awaited: the picture then is the part of the page that reaches as far as the
/// frame.
pub proof fn lemma_grows_below(
    before: Stitching,
    page: Picture,
    start: int,
    end: int,
    frame_start: int,
    frame_end: int,
)
    requires
        on_page(before, page, start, end, frame_start, frame_end),
        start <= frame_start,
        end + 15 <= frame_end,
        enough(end - frame_start, frame_end - frame_start),
        before.pending != Some(Edge::Start),
    ensures
        ({
            let frame = page.band(frame_start, frame_end);
            let result = before.outcome(frame);
            let after = before.pushed(frame);
            &&& result.status == StitchStatus::Appended
            &&& result.edge == Some(Edge::End)
            &&& result.added == frame_end - end
            &&& result.position == frame_start - start
            &&& after.full == Some(page.band(start, frame_end))
            &&& after.last == picture_levels(frame)
            &&& after.anchor == frame_start - start
            &&& after.pending is None
            &&& after.in_order()
        }),
{
    let frame = page.band(frame_start, frame_end);
    lemma_band_complete(page, start, end);
    lemma_band_complete(page, frame_start, frame_end);
    lemma_place_bounded(before, frame);
    lemma_page_rows_agree(page, start, end, frame_start, frame_end);
    lemma_order_kept(before, frame);
    let after = before.pushed(frame);
    lemma_page_continued(
        page,
        start,
        end,
        frame_start,
        frame_end,
        before.outcome(frame),
        after.full->0,
    );
}

/// A frame of a page that shows at least fifteen rows above the picture is put above it, unless
/// the other end is awaited: the picture then is the part of the page from the frame on.
pub proof fn lemma_grows_above(
    before: Stitching,
    page: Picture,
    start: int,
    end: int,
    frame_start: int,
    frame_end: int,
)
    requires
        on_page(before, page, start, end, frame_start, frame_end),
        frame_start <= start - 15,
        frame_end <= end,
        enough(frame_end - start, frame_end - frame_start),
        before.pending != Some(Edge::End),
    ensures
        ({
            let frame = page.band(frame_start, frame_end);
            let result = before.outcome(frame);
            let after = before.pushed(frame);
            &&& result.status == StitchStatus::Appended
            &&& result.edge == Some(Edge::Start)
            &&& result.added == start - frame_start
            &&& result.position == 0
            &&& after.full == Some(page.band(frame_start, end))
            &&& after.last == picture_levels(frame)
            &&& after.anchor == 0
            &&& after.pending is None
            &&& after.in_order()
        }),
{
    let frame = page.band(frame_start, frame_end);
    lemma_band_complete(page, start, end);
    lemma_band_complete(page, frame_start, frame_end);
    lemma_place_bounded(before, frame);
    lemma_page_rows_agree(page, start, end, frame_start, frame_end);
    lemma_order_kept(before, frame);
    let after = before.pushed(frame);
    lemma_page_continued(
        page,
        start,
        end,
        frame_start,
        frame_end,
        before.outcome(frame),
        after.full->0,
    );
}

/// A frame of a page that lies inside the picture is known there and leaves the picture as it is.
pub proof fn lemma_known_inside(
    before: Stitching,
    page: Picture,
    start: int,
    end: int,
    frame_start: int,
    frame_end: int,
)
    requires
        on_page(before, page, start, end, frame_start, frame_end),
        start <= frame_start,
        frame_end <= end,
        enough(frame_end - frame_start, frame_end - frame_start),
    ensures
        ({
            let frame = page.band(frame_start, frame_end);
            let result = before.outcome(frame);
            let after = before.pushed(frame);
            &&& result.status == StitchStatus::NoProgress
            &&& result.added == 0
            &&& result.edge is None
            &&& result.position == frame_start - start
            &&& after.full == before.full
            &&& after.last == picture_levels(frame)
            &&& after.anchor == frame_start - start
            &&& after.offset == frame_start - start - before.anchor
            &&& after.pending is None
        }),
{
    lemma_place_bounded(before, page.band(frame_start, frame_end));
    lemma_page_rows_agree(page, start, end, frame_start, frame_end);
}

/// Neither the awaited end nor the count of frames has a bearing on where a frame is taken to
/// lie.
proof fn lemma_place_apart(before: Stitching, pending: Option<Edge>, frames: nat, frame: Picture)
    ensures
        ({
            let other = Stitching { pending, frames, ..before };
            &&& other.place(frame) == before.place(frame)
            &&& other.repeats(frame) == before.repeats(frame)
            &&& other.countable(frame) == before.countable(frame)
        }),
{
}

/// A page that is scrolled down slowly: a frame that is too short to grow the picture below never
/// keeps the next one from growing it there. After both the picture reaches as far as the second
/// frame.
pub proof fn lemma_slow_scroll_down(
    before: Stitching,
    page: Picture,
    start: int,
    end: int,
    short_start: int,
    short_end: int,
    next_start: int,
    next_end: int,
)
    requires
        on_page(before, page, start, end, short_start, short_end),
        on_page(before, page, start, end, next_start, next_end),
        start <= short_start,
        end < short_end < end + 15,
        start <= next_start,
        end + 15 <= next_end,
        enough(end - next_start, next_end - next_start),
        before.frames + 1 < usize::MAX,
    ensures
        ({
            let once = before.pushed(page.band(short_start, short_end));
            let next = page.band(next_start, next_end);
            &&& once.full == before.full
            &&& once.outcome(next).status == StitchStatus::Appended
            &&& once.outcome(next).edge == Some(Edge::End)
            &&& once.outcome(next).added == next_end - end
            &&& once.pushed(next).full == Some(page.band(start, next_end))
        }),
{
    let next = page.band(next_start, next_end);
    lemma_short_below(before, page, start, end, short_start, short_end);
    lemma_place_apart(before, Some(Edge::End), before.frames + 1, next);
    let once = before.pushed(page.band(short_start, short_end));
    assert(once.fits(next));
    lemma_grows_below(once, page, start, end, next_start, next_end);
}

/// A page that is scrolled up slowly: a frame that is too short to grow the picture above never
/// keeps the next one from growing it there. After both the picture begins with the second
/// frame.
pub proof fn lemma_slow_scroll_up(
    before: Stitching,
    page: Picture,
    start: int,
    end: int,
    short_start: int,
    short_end: int,
    next_start: int,
    next_end: int,
)
    requires
        on_page(before, page, start, end, short_start, short_end),
        on_page(before, page, start, end, next_start, next_end),
        start - 15 < short_start < start,
        short_end <= end,
        next_start <= start - 15,
        next_end <= end,
        enough(next_end - start, next_end - next_start),
        before.frames + 1 < usize::MAX,
    ensures
        ({
            let once = before.pushed(page.band(short_start, short_end));
            let next = page.band(next_start, next_end);
            &&& once.full == before.full
            &&& once.outcome(next).status == StitchStatus::Appended
            &&& once.outcome(next).edge == Some(Edge::Start)
            &&& once.outcome(next).added == start - next_start
            &&& once.pushed(next).full == Some(page.band(next_start, end))
        }),
{
    let next = page.band(next_start, next_end);
    lemma_short_above(before, page, start, end, short_start, short_end);
    lemma_place_apart(before, Some(Edge::Start), before.frames + 1, next);
    let once = before.pushed(page.band(short_start, short_end));
    assert(once.fits(next));
    lemma_grows_above(once, page, start, end, next_start, next_end);
}

/// Where the end above is awaited, a frame that would grow the picture below is refused once and
/// no end is awaited then: given once more it grows the picture.
pub proof fn lemma_refused_once_below(
    before: Stitching,
    page: Picture,
    start: int,
    end: int,
    frame_start: int,
    frame_end: int,
)
    requires
        on_page(before, page, start, end, frame_start, frame_end),
        start <= frame_start,
        end + 15 <= frame_end,
        enough(end - frame_start, frame_end - frame_start),
        before.frames + 1 < usize::MAX,
    ensures
        ({
            let frame = page.band(frame_start, frame_end);
            let once = before.pushed(frame);
            &&& before.outcome(frame).status == StitchStatus::NoMatch <==> before.pending == Some(
                Edge::Start,
            )
            &&& before.pending == Some(Edge::Start) ==> {
                &&& once == (Stitching { pending: None, frames: before.frames + 1, ..before })
                &&& once.outcome(frame).status == StitchStatus::Appended
                &&& once.pushed(frame).full == Some(page.band(start, frame_end))
            }
        }),
{
    let frame = page.band(frame_start, frame_end);
    lemma_place_bounded(before, frame);
    lemma_page_rows_agree(page, start, end, frame_start, frame_end);
    if before.pending == Some(Edge::Start) {
        lemma_place_apart(before, None, before.frames + 1, frame);
        let once = before.pushed(frame);
        assert(once == (Stitching { pending: None, frames: before.frames + 1, ..before }));
        assert(once.fits(frame));
        lemma_grows_below(once, page, start, end, frame_start, frame_end);
    } else {
        lemma_grows_below(before, page, start, end, frame_start, frame_end);
    }
}

/// Where the end below is awaited, a frame that would grow the picture above is refused once and
/// no end is awaited then: given once more it grows the picture.
pub proof fn lemma_refused_once_above(
    before: Stitching,
    page: Picture,
    start: int,
    end: int,
    frame_start: int,
    frame_end: int,
)
    requires
        on_page(before, page, start, end, frame_start, frame_end),
        frame_start <= start - 15,
        frame_end <= end,
        enough(frame_end - start, frame_end - frame_start),
        before.frames + 1 < usize::MAX,
    ensures
        ({
            let frame = page.band(frame_start, frame_end);
            let once = before.pushed(frame);
            &&& before.outcome(frame).status == StitchStatus::NoMatch <==> before.pending == Some(
                Edge::End,
            )
            &&& before.pending == Some(Edge::End) ==> {
                &&& once == (Stitching { pending: None, frames: before.frames + 1, ..before })
                &&& once.outcome(frame).status == StitchStatus::Appended
                &&& once.pushed(frame).full == Some(page.band(frame_start, end))
            }
        }),
{
    let frame = page.band(frame_start, frame_end);
    lemma_place_bounded(before, frame);
    lemma_page_rows_agree(page, start, end, frame_start, frame_end);
    if before.pending == Some(Edge::End) {
        lemma_place_apart(before, None, before.frames + 1, frame);
        let once = before.pushed(frame);
        assert(once == (Stitching { pending: None, frames: before.frames + 1, ..before }));
        assert(once.fits(frame));
        lemma_grows_above(once, page, start, end, frame_start, frame_end);
    } else {
        lemma_grows_above(before, page, start, end, frame_start, frame_end);
    }
}

/// The rows that two parts of a profile share agree at the offset of the one from the other.
proof fn lemma_offset_agrees(
    rows: Seq<Levels>,
    start: int,
    end: int,
    frame_start: int,
    frame_end: int,
    min_overlap: int,
)
    requires
        all_tame(rows),
        0 <= start <= end <= rows.len(),
        0 <= frame_start <= frame_end <= rows.len(),
        end - start <= 0xffff_ffff,
        0 < min_overlap,
        ({
            let shared = lower(end, frame_end) - upper(start, frame_start);
            shared >= min_overlap + rows_left_out(shared)
        }),
    ensures
        shifted_distance(
            rows.subrange(start, end),
            rows.subrange(frame_start, frame_end),
            frame_start - start,
            min_overlap,
        ) == 0,
{
    let first = upper(start, frame_start);
    let last = lower(end, frame_end);
    let full = rows.subrange(start, end);
    let frame = rows.subrange(frame_start, frame_end);
    let length = last - first;
    assert(full.subrange(first - start, first - start + length) =~= rows.subrange(first, last));
    assert(frame.subrange(first - frame_start, first - frame_start + length) =~= rows.subrange(
        first,
        last,
    ));
    lemma_same_rows_agree(
        full,
        frame,
        first - start,
        first - frame_start,
        length,
        min_overlap,
    );
}

/// A frame of a page is taken to lie at its rows, whatever offset was expected, if the frame
/// placed last is a part of the page that lies at its own rows, both share enough rows, and their
/// rows tell that offset apart from all others.
pub proof fn lemma_placed_at_its_rows(
    before: Stitching,
    page: Picture,
    start: int,
    last_start: int,
    last_end: int,
    frame_start: int,
    frame_end: int,
)
    requires
        page.complete(),
        page.width > 0,
        0 <= last_start <= last_end <= page.height,
        0 <= frame_start < frame_end <= page.height,
        last_end - last_start <= 0xffff_ffff,
        before.last == picture_levels(page.band(last_start, last_end)),
        before.anchor == last_start - start,
        enough(
            lower(last_end, frame_end) - upper(last_start, frame_start),
            frame_end - frame_start,
        ),
        rows_needed(frame_end - frame_start) - (last_end - last_start) <= frame_start - last_start,
        forall|other: int|
            other != frame_start - last_start && rows_needed(frame_end - frame_start) - (last_end
                - last_start) <= other <= (last_end - last_start) - rows_needed(
                frame_end - frame_start,
            ) ==> #[trigger] shifted_distance(
                picture_levels(page.band(last_start, last_end)),
                picture_levels(page.band(frame_start, frame_end)),
                other,
                rows_needed(frame_end - frame_start),
            ) >= fraction(1, 4),
    ensures
        before.place(page.band(frame_start, frame_end)) == Some(frame_start - start),
{
    let frame = page.band(frame_start, frame_end);
    let needed = rows_needed(frame_end - frame_start);
    assert(needed == needed_overlap(frame.height as int));
    lemma_band_levels(page, last_start, last_end);
    lemma_band_levels(page, frame_start, frame_end);
    lemma_picture_tame(page);
    lemma_quarter();
    lemma_offset_agrees(
        picture_levels(page),
        last_start,
        last_end,
        frame_start,
        frame_end,
        needed,
    );
    lemma_exact_offset_found(
        before.last,
        picture_levels(frame),
        before.offset,
        needed,
        frame_start - last_start,
    );
}

/// A frame is found again after a jump: where it fits inside the picture, or sticks out of it, at
/// a place that is looked at and its rows are at most nine apart there, it is placed somewhere.
pub proof fn lemma_found_after_jump(before: Stitching, frame: Picture, pos: int)
    requires
        before.in_order(),
        before.full is Some,
        before.height() < i32::MAX,
        ({
            let inside = Inside {
                full: before.levels(),
                frame: picture_levels(frame),
                predicted: before.predicted(frame),
                min_overlap: rows_needed(frame.height as int),
            };
            let outside = Outside {
                full: before.levels(),
                frame: picture_levels(frame),
                predicted: before.predicted(frame),
                min_overlap: rows_needed(frame.height as int),
            };
            ||| inside.is_looked_at(before.anchor, pos) && inside.comparable()
            ||| outside.is_swept(pos) && outside.fits_at(pos)
        }),
        apart_at(
            before.levels(),
            picture_levels(frame),
            pos,
            rows_needed(frame.height as int),
        ) <= 9 * crate::single::one(),
    ensures
        before.place(frame) is Some,
{
    let needed = rows_needed(frame.height as int);
    assert(needed == needed_overlap(frame.height as int));
    let inside = Inside {
        full: before.levels(),
        frame: picture_levels(frame),
        predicted: before.predicted(frame),
        min_overlap: needed,
    };
    let outside = Outside {
        full: before.levels(),
        frame: picture_levels(frame),
        predicted: before.predicted(frame),
        min_overlap: needed,
    };
    lemma_close(apart_at(before.levels(), picture_levels(frame), pos, needed));
    if inside.is_looked_at(before.anchor, pos) && inside.comparable() {
        inside.lemma_nearest_known(before.anchor, pos);
    } else {
        outside.lemma_closest_swept(pos);
        lemma_close((outside.result()->0).diff);
    }
}

/// A frame that the profiles place nowhere, and whose first rows have the edges of the last rows
/// of the picture, continues the picture below them; if that adds fewer than fifteen rows, nothing
/// but the count of frames changes.
pub proof fn lemma_continued_by_edges(before: Stitching, frame: Picture, overlap: int)
    requires
        before.in_order(),
        before.full is Some,
        (before.full->0).width == frame.width,
        frame.complete(),
        before.holds(frame),
        !before.repeats(frame),
        before.place(frame) is None,
        overlap_found(before.full->0, frame, rows_needed(frame.height as int), overlap),
    ensures
        ({
            let result = before.outcome(frame);
            let after = before.pushed(frame);
            &&& result.edge == Some(Edge::End)
            &&& result.frame_len == frame.height
            &&& frame.height - overlap >= 15 ==> {
                &&& result.status == StitchStatus::Appended
                &&& result.added == frame.height - overlap
                &&& result.position == before.height() - overlap
                &&& after.full == Some(
                    stacked(before.full->0, frame.band(overlap, frame.height as int)),
                )
                &&& after.anchor == before.height() - overlap
                &&& after.offset == before.height() - overlap - before.anchor
                &&& after.last == picture_levels(frame)
                &&& after.growth == Some(Edge::End)
                &&& after.pending is None
            }
            &&& frame.height - overlap < 15 ==> {
                &&& result.status == StitchStatus::NoProgress
                &&& result.added == 0
                &&& result.position == before.height() - overlap
                &&& after == (Stitching { frames: before.frames + 1, ..before })
            }
        }),
{
    reveal(Stitching::by_edges);
    lemma_quarter();
    let full = before.full->0;
    let needed = rows_needed(frame.height as int);
    let found = found_overlap(full, frame, needed)->0;
    assert(overlap_found(full, frame, needed, found));
    lemma_overlap_unique(full, frame, needed, found, overlap);
    assert(frame.height - (frame.height - overlap) == overlap);
}

/// A frame that neither the profiles place nor the edges continue belongs nowhere.
pub proof fn lemma_belongs_nowhere(before: Stitching, frame: Picture)
    requires
        before.full is Some,
        !before.repeats(frame),
        (before.full->0).width == frame.width,
        before.place(frame) is None,
        forall|overlap: int| !overlap_found(
            before.full->0,
            frame,
            rows_needed(frame.height as int),
            overlap,
        ),
    ensures
        before.outcome(frame).status == StitchStatus::NoMatch,
        before.outcome(frame).added == 0,
        before.outcome(frame).edge is None,
        before.pushed(frame) == (Stitching { frames: before.frames + 1, ..before }),
{
    reveal(Stitching::by_edges);
    lemma_quarter();
    let needed = rows_needed(frame.height as int);
    assert(needed_overlap(frame.height as int) == needed);
    assert(found_overlap(before.full->0, frame, needed) is None);
}

/// A frame of another width belongs nowhere.
pub proof fn lemma_other_width(before: Stitching, frame: Picture)
    requires
        before.full is Some,
        !before.repeats(frame),
        (before.full->0).width != frame.width,
    ensures
        before.outcome(frame).status == StitchStatus::NoMatch,
        before.pushed(frame) == (Stitching { frames: before.frames + 1, ..before }),
{
}

/// The picture grows by at least fifteen rows, and only where the frame agrees with it: in the
/// rows that both share, or in the edges of its last rows.
pub proof fn lemma_grown_where_agreed(before: Stitching, frame: Picture)
    requires
        before.in_order(),
        before.full is Some,
        before.holds(frame),
        before.outcome(frame).status == StitchStatus::Appended,
    ensures
        ({
            let result = before.outcome(frame);
            let needed = rows_needed(frame.height as int);
            &&& result.added >= 15
            &&& (before.full->0).width == frame.width
            &&& !before.repeats(frame)
            &&& (exists|overlap: int| #[trigger]
                overlap_found(before.full->0, frame, needed, overlap) && result.edge == Some(
                    Edge::End,
                ) && result.added == frame.height - overlap) || (before.place(frame) matches Some(
                pos,
            ) && before.shared(frame, pos) is Some && close((before.shared(frame, pos)->0).diff))
        }),
{
    reveal(Stitching::by_edges);
    lemma_quarter();
    lemma_place_bounded(before, frame);
    let full = before.full->0;
    let needed = rows_needed(frame.height as int);
    let found = found_overlap(full, frame, needed);
    if found is Some {
        assert(overlap_found(full, frame, needed, found->0));
    }
}

/// A frame that becomes part of the picture, or is known inside it, is remembered: how far it lies
/// from the one before, its rows, and that no end is awaited.
pub proof fn lemma_remembered(before: Stitching, frame: Picture)
    requires
        before.in_order(),
        before.full is Some,
        frame.complete(),
        frame.width > 0,
        0 < frame.height <= u32::MAX,
        !before.repeats(frame),
        before.holds(frame),
        before.outcome(frame).status == StitchStatus::Appended || (before.outcome(frame).status
            == StitchStatus::NoProgress && before.outcome(frame).edge is None),
    ensures
        ({
            let result = before.outcome(frame);
            let after = before.pushed(frame);
            let above = if result.edge == Some(Edge::Start) {
                result.added as int
            } else {
                0
            };
            &&& after.last == picture_levels(frame)
            &&& after.signature == Some(crate::signature::signature_of(frame))
            &&& after.anchor == result.position
            &&& after.offset == result.position - above - before.anchor
            &&& after.pending is None
            &&& result.status == StitchStatus::Appended ==> after.growth == result.edge
            &&& result.status != StitchStatus::Appended ==> after.growth == before.growth
        }),
{
    reveal(Stitching::by_edges);
    lemma_order_kept(before, frame);
    lemma_place_bounded(before, frame);
    crate::stitch::lemma_verdict_sound(before, frame);
}

/// A frame put below the picture as it is: the rows of the picture come first, then those of the
/// frame. The narrower is widened by transparent pixels on the right. Nothing but the picture, its
/// last rows and the counts changes.
pub proof fn lemma_put_below(before: Stitching, frame: Picture)
    requires
        before.full is Some,
        (before.full->0).complete(),
        frame.complete(),
    ensures
        ({
            let full = before.full->0;
            let next = before.extended(frame);
            let after = next.full->0;
            let clear = seq![0u8, 0u8, 0u8, 0u8];
            &&& next.full is Some
            &&& after.complete()
            &&& after.height == full.height + frame.height
            &&& after.width == upper(full.width as int, frame.width as int)
            &&& forall|x: int, y: int|
                0 <= x < after.width && 0 <= y < full.height ==> #[trigger] after.pixel(x, y)
                    == if x < full.width {
                    full.pixel(x, y)
                } else {
                    clear
                }
            &&& forall|x: int, y: int|
                0 <= x < after.width && full.height <= y < after.height ==> #[trigger] after.pixel(
                    x,
                    y,
                ) == if x < frame.width {
                    frame.pixel(x, y - full.height)
                } else {
                    clear
                }
            &&& next.frames == before.frames + 1
            &&& next.accepted == before.accepted + 1
            &&& next.anchor == before.anchor
            &&& next.offset == before.offset
            &&& next.signature == before.signature
            &&& next.pending == before.pending
            &&& next.growth == before.growth
        }),
{
    let full = before.full->0;
    let width = before.common_width(frame);
    let top = padded(full, width);
    let bottom = padded(frame, width);
    lemma_padded(full, width);
    lemma_padded(frame, width);
    lemma_stacked_complete(top, bottom);
    let after = stacked(top, bottom);
    assert forall|x: int, y: int| 0 <= x < width && 0 <= y < after.height implies #[trigger] after.pixel(
        x,
        y,
    ) == if y < full.height {
        top.pixel(x, y)
    } else {
        bottom.pixel(x, y - full.height)
    } by {
        lemma_stacked_pixel(top, bottom, x, y);
    }
}

/// The first frame put below nothing is the picture.
pub proof fn lemma_put_first(before: Stitching, frame: Picture)
    requires
        before.full is None,
    ensures
        before.extended(frame).full == Some(frame),
        before.extended(frame).accepted == before.accepted + 1,
{
}

/// A frame that sticks out at both ends counts at the end at which it sticks out farther, and at
/// the bottom where it sticks out equally far.
pub proof fn lemma_sticks_out(pos: int, frame_height: int, height: int)
    ensures
        ({
            let above = upper(-pos, 0);
            let below = upper(pos + frame_height - height, 0);
            &&& above > below ==> overhang(pos, frame_height, height) == (above, Edge::Start)
            &&& above <= below ==> overhang(pos, frame_height, height) == (below, Edge::End)
        }),
{
}

/// How far an offset is from the one expected.
pub open spec fn off(offset: int, expected: int) -> int {
    upper(offset - expected, expected - offset)
}

/// The offset found is the first of those as close as it, from the one expected outwards: every
/// offset nearer to that, or as near and downwards, is less close.
pub proof fn lemma_nearest_first(
    last: Seq<Levels>,
    frame: Seq<Levels>,
    max: int,
    expected: int,
    reach: nat,
    min_overlap: int,
    other: int,
)
    requires
        -max <= other <= max,
        off(other, expected) <= reach,
        -max <= expected <= max,
    ensures
        ({
            let best = best_offset(
                last,
                frame,
                offsets_around(max, expected, reach),
                min_overlap,
            );
            &&& best.diff < limit() && (off(other, expected) < off(best.pos, expected) || (off(
                other,
                expected,
            ) == off(best.pos, expected) && other > best.pos)) ==> shifted_distance(
                last,
                frame,
                other,
                min_overlap,
            ) > best.diff
            &&& best.diff < limit() ==> off(best.pos, expected) <= reach
            &&& best.diff >= fraction(1, 4) ==> shifted_distance(last, frame, other, min_overlap)
                >= best.diff
            &&& best.diff <= limit()
        }),
    decreases reach,
{
    lemma_quarter();
    let all = offsets_around(max, expected, reach);
    if reach == 0 {
        assert(all.drop_last() =~= Seq::empty());
        assert(best_offset(last, frame, Seq::empty(), min_overlap).diff == limit());
    } else {
        let inner = offsets_around(max, expected, (reach - 1) as nat);
        let lower_one = if expected + reach <= max {
            inner.push(expected + reach)
        } else {
            inner
        };
        lemma_nearest_first(
            last,
            frame,
            max,
            expected,
            (reach - 1) as nat,
            min_overlap,
            if off(other, expected) < reach {
                other
            } else {
                expected
            },
        );
        assert(inner.push(expected + reach).drop_last() =~= inner);
        assert(lower_one.push(expected - reach).drop_last() =~= lower_one);
        reveal_with_fuel(best_offset, 3);
        let first = best_offset(last, frame, inner, min_overlap);
        let second = best_offset(last, frame, lower_one, min_overlap);
        let down = shifted_distance(last, frame, expected + reach, min_overlap);
        let up = shifted_distance(last, frame, expected - reach, min_overlap);
        assert(second == if expected + reach > max || first.diff < fraction(1, 4) || down
            >= first.diff {
            first
        } else {
            Match { pos: expected + reach, diff: down }
        });
        assert(best_offset(last, frame, all, min_overlap) == if expected - reach < -max
            || second.diff < fraction(1, 4) || up >= second.diff {
            second
        } else {
            Match { pos: expected - reach, diff: up }
        });
    }
}

} // verus!
