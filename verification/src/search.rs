//! Where a frame belongs: the searches for its place by row profiles.

use crate::overlap::{col_diff, range_diff, range_distance, shifted_distance};
use crate::profile::{all_tame, fraction, levels_of, Levels, RowProfile};
use crate::single::{confined, infinite, limit, Single};
use vstd::prelude::*;

verus! {

/// The end of the stitched picture at which a frame adds rows.
#[derive(Clone, Copy, Debug, PartialEq, Eq, Structural)]
pub enum Edge {
    Start,
    End,
}

/// A place and how far the rows are apart there.
pub struct Match {
    pub pos: int,
    pub diff: int,
}

/// A place and how far the rows are apart there.
#[derive(Clone, Copy, Debug)]
pub struct MatchResult {
    pub pos: i32,
    pub diff: Single,
}

impl View for MatchResult {
    type V = Match;

    open spec fn view(&self) -> Match {
        Match { pos: self.pos as int, diff: self.diff.units() }
    }
}

/// Whether rows so far apart count as the same.
pub open spec fn close(diff: int) -> bool {
    diff <= fraction(9, 1)
}

/// The rows that a frame of the given height must share with what is there.
pub open spec fn needed_overlap(height: int) -> int {
    confined(height / 4, 12, 100)
}

/// How far a frame sticks out, and at which end.
pub open spec fn overhang(pos: int, frame_height: int, full_height: int) -> (int, Edge) {
    let over_top = if pos < 0 {
        -pos
    } else {
        0
    };
    let over_bottom = if pos + frame_height > full_height {
        pos + frame_height - full_height
    } else {
        0
    };
    if over_bottom >= over_top {
        (over_bottom, Edge::End)
    } else {
        (over_top, Edge::Start)
    }
}

/// Offsets between `-max` and `max` that lie up to `reach` from `predict`, from near to far.
pub open spec fn offsets_around(max: int, predict: int, reach: nat) -> Seq<int>
    decreases reach,
{
    if reach == 0 {
        seq![predict]
    } else {
        let inner = offsets_around(max, predict, (reach - 1) as nat);
        let lower = if predict + reach <= max {
            inner.push(predict + reach)
        } else {
            inner
        };
        if predict - reach >= -max {
            lower.push(predict - reach)
        } else {
            lower
        }
    }
}

/// The farthest offset that leaves enough overlap with a frame of the given height.
pub open spec fn offset_reach(height: int, min_overlap: int) -> int {
    if height > min_overlap {
        height - min_overlap
    } else {
        0
    }
}

/// Whether the offsets between `-max` and `max` can be counted from the expected one outwards.
pub open spec fn offsets_countable(max: int, predict: int) -> bool {
    let center = confined(predict, -max, max);
    i32::MIN <= center - 2 * max && center + 2 * max <= i32::MAX
}

/// The offsets that are tried, in order.
pub open spec fn offsets_tried(max: int, predict: int) -> Seq<int> {
    offsets_around(max, confined(predict, -max, max), (2 * max) as nat)
}

/// The closest of the offsets, tried in order until one is nearly exact.
pub open spec fn best_offset(
    last: Seq<Levels>,
    frame: Seq<Levels>,
    offsets: Seq<int>,
    min_overlap: int,
) -> Match
    decreases offsets.len(),
{
    if offsets.len() == 0 {
        Match { pos: 0, diff: limit() as int }
    } else {
        let best = best_offset(last, frame, offsets.drop_last(), min_overlap);
        let diff = shifted_distance(last, frame, offsets.last(), min_overlap);
        if best.diff < fraction(1, 4) || diff >= best.diff {
            best
        } else {
            Match { pos: offsets.last(), diff }
        }
    }
}

/// The offset of a frame from the frame before.
pub open spec fn offset_found(
    last: Seq<Levels>,
    frame: Seq<Levels>,
    last_offset: int,
    min_overlap: int,
) -> Match {
    let max = offset_reach(last.len() as int, min_overlap);
    best_offset(last, frame, offsets_tried(max, last_offset), min_overlap)
}

/// How many rows a frame at `pos` shares with the whole and how far they are apart; none
/// where it shares too few.
pub open spec fn known_overlap(
    full: Seq<Levels>,
    frame: Seq<Levels>,
    pos: int,
    min_overlap: int,
) -> Option<Match> {
    let start = if pos < 0 {
        0
    } else {
        pos
    };
    let end = if pos + frame.len() < full.len() {
        pos + frame.len()
    } else {
        full.len() as int
    };
    if end - start < min_overlap {
        None
    } else {
        Some(
            Match {
                pos: end - start,
                diff: range_distance(full, frame, start, start - pos, end - start, min_overlap),
            },
        )
    }
}

/// What a search inside the whole has found: the closest place, and of the places that are
/// close enough the one nearest to where the frame was expected.
pub struct Finding {
    pub best: Match,
    pub good: Match,
    pub distance: int,
}

/// The search for a place inside the whole.
pub struct Inside {
    pub full: Seq<Levels>,
    pub frame: Seq<Levels>,
    pub predicted: int,
    pub min_overlap: int,
}

impl Inside {
    pub open spec fn max_pos(self) -> int {
        self.full.len() - self.frame.len()
    }

    /// Where the frame is expected.
    pub open spec fn expected(self) -> int {
        confined(self.predicted, 0, self.max_pos())
    }

    pub open spec fn blank(self) -> Finding {
        let nowhere = Match { pos: self.expected(), diff: limit() as int };
        Finding { best: nowhere, good: nowhere, distance: i32::MAX as int }
    }

    /// What is found after one more place was looked at.
    pub open spec fn looked(self, before: Finding, place: int) -> Finding {
        let pos = confined(place, 0, self.max_pos());
        match known_overlap(self.full, self.frame, pos, self.min_overlap) {
            None => before,
            Some(shared) => {
                let here = Match { pos, diff: shared.diff };
                let distance = if pos < self.expected() {
                    self.expected() - pos
                } else {
                    pos - self.expected()
                };
                let nearer = close(here.diff) && (distance < before.distance || (distance
                    == before.distance && here.diff < before.good.diff));
                Finding {
                    best: if here.diff < before.best.diff {
                        here
                    } else {
                        before.best
                    },
                    good: if nearer {
                        here
                    } else {
                        before.good
                    },
                    distance: if nearer {
                        distance
                    } else {
                        before.distance
                    },
                }
            },
        }
    }

    /// What is found after places were looked at one after the other.
    pub open spec fn searched(self, before: Finding, places: Seq<int>) -> Finding
        decreases places.len(),
    {
        if places.len() == 0 {
            before
        } else {
            self.looked(self.searched(before, places.drop_last()), places.last())
        }
    }

    /// The places looked at first: those expected, then every eighth.
    pub open spec fn first_places(self, anchor: int) -> Seq<int> {
        seq![self.predicted, anchor, 0, self.max_pos()] + every(0, self.max_pos(), 8) + seq![
            self.max_pos(),
        ]
    }

    /// The places around the closest one.
    pub open spec fn near_places(self, center: int) -> Seq<int> {
        every(
            confined(center - 8, 0, self.max_pos()),
            confined(center + 8, 0, self.max_pos()),
            1,
        )
    }

    /// The place found, if the frame fits inside the whole at all.
    #[verifier::opaque]
    pub open spec fn result(self, anchor: int) -> Option<Match> {
        if self.max_pos() < 0 {
            None
        } else {
            let first = self.searched(self.blank(), self.first_places(anchor));
            let last = self.searched(first, self.near_places(first.best.pos));
            Some(
                if close(last.good.diff) {
                    last.good
                } else {
                    last.best
                },
            )
        }
    }
}

/// The numbers from `start` to `end` in steps.
pub open spec fn every(start: int, end: int, step: int) -> Seq<int> {
    Seq::new(
        (if start <= end {
            (end - start) / step + 1
        } else {
            0
        }) as nat,
        |i: int| start + i * step,
    )
}

/// The search for a place where the frame sticks out of the whole.
pub struct Outside {
    pub full: Seq<Levels>,
    pub frame: Seq<Levels>,
    pub predicted: int,
    pub min_overlap: int,
}

impl Outside {
    pub open spec fn min_pos(self) -> int {
        self.min_overlap - self.frame.len()
    }

    pub open spec fn max_pos(self) -> int {
        self.full.len() - self.min_overlap
    }

    pub open spec fn within(self, place: int) -> int {
        confined(place, self.min_pos(), self.max_pos())
    }

    /// The closest place after one more was looked at.
    pub open spec fn looked(self, best: Match, place: int) -> Match {
        let pos = self.within(place);
        if overhang(pos, self.frame.len() as int, self.full.len() as int).0 > 0 {
            match known_overlap(self.full, self.frame, pos, self.min_overlap) {
                Some(shared) if shared.diff < best.diff => Match { pos, diff: shared.diff },
                _ => best,
            }
        } else {
            best
        }
    }

    /// The closest place after places were looked at one after the other.
    pub open spec fn searched(self, best: Match, places: Seq<int>) -> Match
        decreases places.len(),
    {
        if places.len() == 0 {
            best
        } else {
            self.looked(self.searched(best, places.drop_last()), places.last())
        }
    }

    /// Every eighth place between two, and the last.
    pub open spec fn swept(self, start: int, end: int) -> Seq<int> {
        let from = self.within(start);
        let to = self.within(end);
        (if from <= to {
            every(from, to, 8)
        } else {
            every(to, from, 8)
        }).push(to)
    }

    /// The places looked at first: around the expected one, above and below.
    pub open spec fn first_places(self) -> Seq<int> {
        self.swept(self.predicted - 160, self.predicted + 160) + self.swept(self.min_pos(), -1)
            + self.swept(self.full.len() - self.frame.len() + 1, self.max_pos())
    }

    /// The place found, if the frame can share enough rows at all.
    #[verifier::opaque]
    pub open spec fn result(self) -> Option<Match> {
        if self.min_pos() > self.max_pos() {
            None
        } else {
            let blank = Match { pos: self.within(self.predicted), diff: limit() as int };
            let first = self.searched(blank, self.first_places());
            Some(
                if infinite(first.diff) {
                    first
                } else {
                    self.searched(
                        first,
                        every(self.within(first.pos - 8), self.within(first.pos + 8), 1),
                    )
                },
            )
        }
    }
}

/// An integer brought between two bounds.
pub fn clamped(n: i32, low: i32, high: i32) -> (result: i32)
    requires
        low <= high,
    ensures
        result == confined(n as int, low as int, high as int),
        low <= result <= high,
{
    if n < low {
        low
    } else if n > high {
        high
    } else {
        n
    }
}

/// The rows that a frame of the given height must share with what is there.
pub fn effective_min_overlap(frame_height: i32) -> (rows: i32)
    requires
        frame_height >= 0,
    ensures
        rows == needed_overlap(frame_height as int),
        12 <= rows <= 100,
{
    clamped(frame_height / 4, 12, 100)
}

/// How far a frame sticks out, and at which end.
pub fn overhang_amount(pos: i32, frame_height: i32, full_height: i32) -> (result: (i32, Edge))
    requires
        pos > i32::MIN,
        i32::MIN <= pos + frame_height <= i32::MAX,
        pos + frame_height - full_height <= i32::MAX,
    ensures
        (result.0 as int, result.1) == overhang(
            pos as int,
            frame_height as int,
            full_height as int,
        ),
{
    let over_top: i32 = if pos < 0 {
        -pos
    } else {
        0
    };
    let over_bottom: i32 = if pos + frame_height > full_height {
        pos + frame_height - full_height
    } else {
        0
    };
    if over_bottom >= over_top {
        (over_bottom, Edge::End)
    } else {
        (over_top, Edge::Start)
    }
}

/// The values of a list of places.
pub open spec fn places_of(places: Seq<i32>) -> Seq<int> {
    Seq::new(places.len(), |i: int| places[i] as int)
}

/// The offsets that are tried, from the expected one outwards.
pub fn offset_candidates(max_offset: i32, predict: i32) -> (candidates: Vec<i32>)
    requires
        0 <= max_offset,
        offsets_countable(max_offset as int, predict as int),
    ensures
        places_of(candidates@) =~= offsets_tried(max_offset as int, predict as int),
        forall|i: int|
            0 <= i < candidates@.len() ==> -max_offset <= #[trigger] candidates@[i] <= max_offset,
{
    let center: i32 = clamped(predict, -max_offset, max_offset);
    let mut candidates: Vec<i32> = vec![center];
    let mut delta: i32 = 0;
    while delta < max_offset * 2
        invariant
            0 <= delta <= max_offset * 2,
            i32::MIN <= center - max_offset * 2,
            center + max_offset * 2 <= i32::MAX,
            -max_offset <= center <= max_offset,
            places_of(candidates@) =~= offsets_around(
                max_offset as int,
                center as int,
                delta as nat,
            ),
            forall|i: int|
                0 <= i < candidates@.len() ==> -max_offset <= #[trigger] candidates@[i]
                    <= max_offset,
        decreases max_offset * 2 - delta,
    {
        delta += 1;
        let ghost before = candidates@;
        if center + delta <= max_offset {
            candidates.push(center + delta);
        }
        if center - delta >= -max_offset {
            candidates.push(center - delta);
        }
        assert(places_of(candidates@) =~= offsets_around(
            max_offset as int,
            center as int,
            delta as nat,
        )) by {
            let inner = places_of(before);
            assert(inner == offsets_around(max_offset as int, center as int, (delta - 1) as nat));
        }
    }
    candidates
}

/// The offset of a frame from the frame before.
pub fn find_offset(
    last_cols: &[RowProfile],
    frame_cols: &[RowProfile],
    last_offset: i32,
    min_overlap: i32,
) -> (found: MatchResult)
    requires
        all_tame(levels_of(last_cols@)),
        all_tame(levels_of(frame_cols@)),
        last_cols@.len() <= i32::MAX,
        frame_cols@.len() <= i32::MAX,
        0 <= min_overlap,
        offsets_countable(
            offset_reach(last_cols@.len() as int, min_overlap as int),
            last_offset as int,
        ),
    ensures
        found@ == offset_found(
            levels_of(last_cols@),
            levels_of(frame_cols@),
            last_offset as int,
            min_overlap as int,
        ),
        found.diff.units() >= 0,
        -last_cols@.len() <= found.pos <= last_cols@.len(),
{
    let height: i32 = last_cols.len() as i32;
    let max_offset: i32 = if height > min_overlap {
        height - min_overlap
    } else {
        0
    };
    let candidates = offset_candidates(max_offset, last_offset);
    let ghost tried = offsets_tried(max_offset as int, last_offset as int);
    let ghost last = levels_of(last_cols@);
    let ghost frame = levels_of(frame_cols@);
    let quarter = Single::ratio(1, 4);
    let mut best = MatchResult { pos: 0, diff: Single::infinity() };
    let mut i: usize = 0;
    proof {
        assert(tried.take(0) =~= Seq::<int>::empty());
    }
    while i < candidates.len() && !best.diff.below(quarter)
        invariant
            i <= candidates@.len(),
            places_of(candidates@) == tried,
            forall|j: int|
                0 <= j < candidates@.len() ==> -max_offset <= #[trigger] candidates@[j]
                    <= max_offset,
            0 <= max_offset <= last_cols@.len() <= i32::MAX,
            frame_cols@.len() <= i32::MAX,
            last == levels_of(last_cols@),
            frame == levels_of(frame_cols@),
            all_tame(last),
            all_tame(frame),
            0 <= min_overlap,
            quarter.units() == fraction(1, 4),
            best@ == best_offset(last, frame, tried.take(i as int), min_overlap as int),
            best.diff.units() >= 0,
            -last_cols@.len() <= best.pos <= last_cols@.len(),
        decreases candidates@.len() - i,
    {
        let offset: i32 = candidates[i];
        let diff = col_diff(last_cols, frame_cols, offset, min_overlap);
        proof {
            let next = tried.take(i + 1);
            assert(next.drop_last() =~= tried.take(i as int));
            assert(next.last() == offset);
        }
        if diff.below(best.diff) {
            best = MatchResult { pos: offset, diff };
        }
        i += 1;
    }
    proof {
        lemma_stopped(last, frame, tried, min_overlap as int, i as int);
    }
    best
}

/// Once an offset is nearly exact, the ones after it change nothing.
proof fn lemma_stopped(
    last: Seq<Levels>,
    frame: Seq<Levels>,
    offsets: Seq<int>,
    min_overlap: int,
    i: int,
)
    requires
        0 <= i <= offsets.len(),
        i == offsets.len() || best_offset(last, frame, offsets.take(i), min_overlap).diff
            < fraction(1, 4),
    ensures
        best_offset(last, frame, offsets, min_overlap) == best_offset(
            last,
            frame,
            offsets.take(i),
            min_overlap,
        ),
    decreases offsets.len() - i,
{
    if i == offsets.len() {
        assert(offsets.take(i) =~= offsets);
    } else {
        assert(offsets.take(i + 1).drop_last() =~= offsets.take(i));
        lemma_stopped(last, frame, offsets, min_overlap, i + 1);
    }
}

/// How many rows a frame at `pos` shares with the whole and how far they are apart; `None`
/// where it shares too few.
pub fn known_overlap_diff(
    full_cols: &[RowProfile],
    frame_cols: &[RowProfile],
    pos: i32,
    min_overlap: i32,
) -> (shared: Option<MatchResult>)
    requires
        all_tame(levels_of(full_cols@)),
        all_tame(levels_of(frame_cols@)),
        full_cols@.len() <= i32::MAX,
        frame_cols@.len() <= i32::MAX,
        pos + frame_cols@.len() <= i32::MAX,
        0 <= min_overlap,
    ensures
        match shared {
            Some(found) => Some(found@),
            None => None,
        } == known_overlap(
            levels_of(full_cols@),
            levels_of(frame_cols@),
            pos as int,
            min_overlap as int,
        ),
        shared matches Some(found) ==> found.diff.units() >= 0,
{
    let full_height: i32 = full_cols.len() as i32;
    let frame_height: i32 = frame_cols.len() as i32;
    let start: i32 = if pos < 0 {
        0
    } else {
        pos
    };
    let end: i32 = if pos + frame_height < full_height {
        pos + frame_height
    } else {
        full_height
    };
    if (end as i64 - start as i64) < min_overlap as i64 {
        return None;
    }
    let length: i32 = end - start;
    let diff = range_diff(
        full_cols,
        frame_cols,
        start as usize,
        (start - pos) as usize,
        length as usize,
        min_overlap,
    );
    Some(MatchResult { pos: length, diff })
}

proof fn lemma_places_push(places: Seq<i32>, place: i32)
    ensures
        places_of(places.push(place)) == places_of(places).push(place as int),
{
    assert(places_of(places.push(place)) =~= places_of(places).push(place as int));
}

/// The numbers from `start` to `end` in steps, added to a list.
fn list_every(places: &mut Vec<i32>, start: i32, end: i32, step: i32)
    requires
        0 < step <= 8,
        end + step <= i32::MAX,
    ensures
        places_of(final(places)@) =~= places_of(old(places)@) + every(
            start as int,
            end as int,
            step as int,
        ),
{
    let mut pos: i32 = start;
    let ghost mut n: int = 0;
    proof {
        assert(0 * step == 0);
    }
    while pos <= end
        invariant
            0 < step <= 8,
            end + step <= i32::MAX,
            0 <= n,
            start <= pos,
            pos == start + n * step,
            pos > start ==> pos <= end + step,
            n == 0 || start + (n - 1) * step <= end,
            places_of(places@) =~= places_of(old(places)@) + Seq::new(
                n as nat,
                |i: int| start + i * step,
            ),
        decreases end + step - pos,
    {
        proof {
            lemma_places_push(places@, pos);
            let now = Seq::new(n as nat, |i: int| start + i * step);
            let next = Seq::new((n + 1) as nat, |i: int| start + i * step);
            assert(next =~= now.push(pos as int));
            assert(places_of(old(places)@) + next =~= (places_of(old(places)@) + now).push(
                pos as int,
            ));
            assert((n + 1) * step == n * step + step) by (nonlinear_arith);
            n = n + 1;
        }
        places.push(pos);
        pos += step;
    }
    proof {
        if start <= end {
            let q = (end - start) / step as int;
            assert(n == q + 1) by (nonlinear_arith)
                requires
                    q == (end - start) / step as int,
                    0 < step,
                    start + (n - 1) * step <= end,
                    end < start + n * step,
            ;
        }
    }
}

/// A search for the place of a frame.
struct Quest<'a> {
    full_cols: &'a [RowProfile],
    frame_cols: &'a [RowProfile],
    predicted: i32,
    min_overlap: i32,
}

/// What a search inside the whole has found.
struct Found {
    best: MatchResult,
    good: MatchResult,
    distance: i32,
}

impl View for Found {
    type V = Finding;

    closed spec fn view(&self) -> Finding {
        Finding { best: self.best@, good: self.good@, distance: self.distance as int }
    }
}

impl<'a> Quest<'a> {
    spec fn inside(&self) -> Inside {
        Inside {
            full: levels_of(self.full_cols@),
            frame: levels_of(self.frame_cols@),
            predicted: self.predicted as int,
            min_overlap: self.min_overlap as int,
        }
    }

    spec fn outside(&self) -> Outside {
        Outside {
            full: levels_of(self.full_cols@),
            frame: levels_of(self.frame_cols@),
            predicted: self.predicted as int,
            min_overlap: self.min_overlap as int,
        }
    }

    spec fn valid(&self) -> bool {
        &&& all_tame(levels_of(self.full_cols@))
        &&& all_tame(levels_of(self.frame_cols@))
        &&& self.full_cols@.len() <= i32::MAX
        &&& self.frame_cols@.len() <= i32::MAX
        &&& 0 <= self.min_overlap
    }

    /// Whether the places at the ends of the whole can be counted.
    spec fn countable(&self) -> bool {
        &&& self.full_cols@.len() + self.frame_cols@.len() - self.min_overlap <= i32::MAX
        &&& self.full_cols@.len() - self.min_overlap + 8 <= i32::MAX
        &&& self.frame_cols@.len() - self.min_overlap + 8 <= i32::MAX
    }

    fn look_inside(&self, found: Found, place: i32, max_pos: i32) -> (after: Found)
        requires
            self.valid(),
            max_pos == self.inside().max_pos(),
            0 <= max_pos,
            0 <= found.distance,
            0 <= found.best.pos <= max_pos,
            0 <= found.good.pos <= max_pos,
            found.best.diff.units() >= 0,
        ensures
            after@ == self.inside().looked(found@, place as int),
            0 <= after.distance,
            0 <= after.best.pos <= max_pos,
            0 <= after.good.pos <= max_pos,
            after.best.diff.units() >= 0,
    {
        let pos: i32 = clamped(place, 0, max_pos);
        let expected: i32 = clamped(self.predicted, 0, max_pos);
        match known_overlap_diff(self.full_cols, self.frame_cols, pos, self.min_overlap) {
            None => found,
            Some(shared) => {
                let here = MatchResult { pos, diff: shared.diff };
                let distance: i32 = if pos < expected {
                    expected - pos
                } else {
                    pos - expected
                };
                let nearer: bool = !Single::whole(9).below(here.diff) && (distance < found.distance
                    || (distance == found.distance && here.diff.below(found.good.diff)));
                let best = if here.diff.below(found.best.diff) {
                    here
                } else {
                    found.best
                };
                if nearer {
                    Found { best, good: here, distance }
                } else {
                    Found { best, good: found.good, distance: found.distance }
                }
            },
        }
    }

    fn search_inside(&self, before: Found, places: &Vec<i32>, max_pos: i32) -> (after: Found)
        requires
            self.valid(),
            max_pos == self.inside().max_pos(),
            0 <= max_pos,
            0 <= before.distance,
            0 <= before.best.pos <= max_pos,
            0 <= before.good.pos <= max_pos,
            before.best.diff.units() >= 0,
        ensures
            after@ == self.inside().searched(before@, places_of(places@)),
            0 <= after.distance,
            0 <= after.best.pos <= max_pos,
            0 <= after.good.pos <= max_pos,
            after.best.diff.units() >= 0,
    {
        let ghost all = places_of(places@);
        let ghost start = before@;
        let mut found = before;
        let mut i: usize = 0;
        proof {
            assert(all.take(0) =~= Seq::<int>::empty());
        }
        while i < places.len()
            invariant
                i <= places@.len(),
                all == places_of(places@),
                self.valid(),
                max_pos == self.inside().max_pos(),
                0 <= max_pos,
                found@ == self.inside().searched(start, all.take(i as int)),
                0 <= found.distance,
                0 <= found.best.pos <= max_pos,
                0 <= found.good.pos <= max_pos,
                found.best.diff.units() >= 0,
            decreases places@.len() - i,
        {
            proof {
                assert(all.take(i + 1).drop_last() =~= all.take(i as int));
                assert(all.take(i + 1).last() == places@[i as int]);
            }
            found = self.look_inside(found, places[i], max_pos);
            i += 1;
        }
        proof {
            assert(all.take(places@.len() as int) =~= all);
        }
        found
    }

    fn look_outside(&self, best: MatchResult, place: i32, min_pos: i32, max_pos: i32) -> (after:
        MatchResult)
        requires
            self.valid(),
            self.countable(),
            min_pos == self.outside().min_pos(),
            max_pos == self.outside().max_pos(),
            min_pos <= max_pos,
            min_pos <= best.pos <= max_pos,
            best.diff.units() >= 0,
        ensures
            after@ == self.outside().looked(best@, place as int),
            min_pos <= after.pos <= max_pos,
            after.diff.units() >= 0,
    {
        let pos: i32 = clamped(place, min_pos, max_pos);
        let (amount, _) = overhang_amount(
            pos,
            self.frame_cols.len() as i32,
            self.full_cols.len() as i32,
        );
        if amount > 0 {
            if let Some(shared) = known_overlap_diff(
                self.full_cols,
                self.frame_cols,
                pos,
                self.min_overlap,
            ) {
                if shared.diff.below(best.diff) {
                    return MatchResult { pos, diff: shared.diff };
                }
            }
        }
        best
    }

    fn search_outside(
        &self,
        before: MatchResult,
        places: &Vec<i32>,
        min_pos: i32,
        max_pos: i32,
    ) -> (after: MatchResult)
        requires
            self.valid(),
            self.countable(),
            min_pos == self.outside().min_pos(),
            max_pos == self.outside().max_pos(),
            min_pos <= max_pos,
            min_pos <= before.pos <= max_pos,
            before.diff.units() >= 0,
        ensures
            after@ == self.outside().searched(before@, places_of(places@)),
            min_pos <= after.pos <= max_pos,
            after.diff.units() >= 0,
    {
        let ghost all = places_of(places@);
        let mut best = before;
        let mut i: usize = 0;
        proof {
            assert(all.take(0) =~= Seq::<int>::empty());
        }
        while i < places.len()
            invariant
                i <= places@.len(),
                all == places_of(places@),
                self.valid(),
                self.countable(),
                min_pos == self.outside().min_pos(),
                max_pos == self.outside().max_pos(),
                min_pos <= max_pos,
                best@ == self.outside().searched(before@, all.take(i as int)),
                min_pos <= best.pos <= max_pos,
                best.diff.units() >= 0,
            decreases places@.len() - i,
        {
            proof {
                assert(all.take(i + 1).drop_last() =~= all.take(i as int));
                assert(all.take(i + 1).last() == places@[i as int]);
            }
            best = self.look_outside(best, places[i], min_pos, max_pos);
            i += 1;
        }
        proof {
            assert(all.take(places@.len() as int) =~= all);
        }
        best
    }

    fn list_swept(&self, places: &mut Vec<i32>, start: i32, end: i32, min_pos: i32, max_pos: i32)
        requires
            self.valid(),
            self.countable(),
            min_pos == self.outside().min_pos(),
            max_pos == self.outside().max_pos(),
            min_pos <= max_pos,
        ensures
            places_of(final(places)@) =~= places_of(old(places)@) + self.outside().swept(
                start as int,
                end as int,
            ),
    {
        let from: i32 = clamped(start, min_pos, max_pos);
        let to: i32 = clamped(end, min_pos, max_pos);
        if from <= to {
            list_every(places, from, to, 8);
        } else {
            list_every(places, to, from, 8);
        }
        proof {
            lemma_places_push(places@, to);
        }
        places.push(to);
    }
}

/// The place inside the whole where a frame fits best, if it fits at all: of the places that
/// are close enough the one nearest to where it was expected, else the closest.
pub fn find_known_position(
    full_cols: &[RowProfile],
    frame_cols: &[RowProfile],
    anchor: i32,
    predicted: i32,
    min_overlap: i32,
) -> (found: Option<MatchResult>)
    requires
        all_tame(levels_of(full_cols@)),
        all_tame(levels_of(frame_cols@)),
        full_cols@.len() <= i32::MAX,
        full_cols@.len() - frame_cols@.len() + 8 <= i32::MAX,
        0 <= min_overlap,
    ensures
        match found {
            Some(place) => Some(place@),
            None => None,
        } == (Inside {
            full: levels_of(full_cols@),
            frame: levels_of(frame_cols@),
            predicted: predicted as int,
            min_overlap: min_overlap as int,
        }).result(anchor as int),
        found matches Some(place) ==> 0 <= place.pos <= full_cols@.len() - frame_cols@.len(),
{
    proof {
        reveal(Inside::result);
    }
    if full_cols.len() < frame_cols.len() {
        return None;
    }
    let max_pos: i32 = (full_cols.len() - frame_cols.len()) as i32;
    let quest = Quest { full_cols, frame_cols, predicted, min_overlap };
    let nowhere = MatchResult { pos: clamped(predicted, 0, max_pos), diff: Single::infinity() };
    let mut places: Vec<i32> = Vec::new();
    places.push(predicted);
    places.push(anchor);
    places.push(0);
    places.push(max_pos);
    proof {
        assert(places_of(places@) =~= seq![predicted as int, anchor as int, 0, max_pos as int]);
    }
    list_every(&mut places, 0, max_pos, 8);
    proof {
        lemma_places_push(places@, max_pos);
    }
    places.push(max_pos);
    proof {
        assert(places_of(places@) =~= quest.inside().first_places(anchor as int));
    }
    let first = quest.search_inside(
        Found { best: nowhere, good: nowhere, distance: i32::MAX },
        &places,
        max_pos,
    );
    let mut near: Vec<i32> = Vec::new();
    list_every(
        &mut near,
        clamped(first.best.pos - 8, 0, max_pos),
        clamped(first.best.pos + 8, 0, max_pos),
        1,
    );
    proof {
        assert(places_of(near@) =~= quest.inside().near_places(first.best.pos as int));
    }
    let last = quest.search_inside(first, &near, max_pos);
    if !Single::whole(9).below(last.good.diff) {
        Some(last.good)
    } else {
        Some(last.best)
    }
}

/// The closest place where a frame sticks out of the whole, if it can share enough rows.
pub fn find_edge_position(
    full_cols: &[RowProfile],
    frame_cols: &[RowProfile],
    predicted: i32,
    min_overlap: i32,
) -> (found: Option<MatchResult>)
    requires
        all_tame(levels_of(full_cols@)),
        all_tame(levels_of(frame_cols@)),
        full_cols@.len() <= i32::MAX,
        frame_cols@.len() <= i32::MAX,
        full_cols@.len() + frame_cols@.len() - min_overlap <= i32::MAX,
        full_cols@.len() - min_overlap + 8 <= i32::MAX,
        frame_cols@.len() - min_overlap + 8 <= i32::MAX,
        full_cols@.len() - frame_cols@.len() + 1 <= i32::MAX,
        i32::MIN <= predicted - 160,
        predicted + 160 <= i32::MAX,
        0 <= min_overlap,
    ensures
        match found {
            Some(place) => Some(place@),
            None => None,
        } == (Outside {
            full: levels_of(full_cols@),
            frame: levels_of(frame_cols@),
            predicted: predicted as int,
            min_overlap: min_overlap as int,
        }).result(),
        found matches Some(place) ==> min_overlap - frame_cols@.len() <= place.pos
            <= full_cols@.len() - min_overlap,
{
    let full_height: i32 = full_cols.len() as i32;
    let frame_height: i32 = frame_cols.len() as i32;
    proof {
        reveal(Outside::result);
    }
    let min_pos: i32 = min_overlap - frame_height;
    let max_pos: i32 = full_height - min_overlap;
    if min_pos > max_pos {
        return None;
    }
    let quest = Quest { full_cols, frame_cols, predicted, min_overlap };
    let nowhere = MatchResult {
        pos: clamped(predicted, min_pos, max_pos),
        diff: Single::infinity(),
    };
    let mut places: Vec<i32> = Vec::new();
    quest.list_swept(&mut places, predicted - 160, predicted + 160, min_pos, max_pos);
    quest.list_swept(&mut places, min_pos, -1, min_pos, max_pos);
    quest.list_swept(&mut places, full_height - frame_height + 1, max_pos, min_pos, max_pos);
    proof {
        assert(places_of(places@) =~= quest.outside().first_places());
    }
    let first = quest.search_outside(nowhere, &places, min_pos, max_pos);
    if !first.diff.finite() {
        return Some(first);
    }
    let mut near: Vec<i32> = Vec::new();
    list_every(
        &mut near,
        clamped(first.pos - 8, min_pos, max_pos),
        clamped(first.pos + 8, min_pos, max_pos),
        1,
    );
    proof {
        assert(places_of(near@) =~= every(
            quest.outside().within(first.pos - 8),
            quest.outside().within(first.pos + 8),
            1,
        ));
    }
    Some(quest.search_outside(first, &near, min_pos, max_pos))
}

proof fn lemma_offsets_reach(max: int, predict: int, reach: nat, offset: int)
    requires
        -max <= offset <= max,
        predict - reach <= offset <= predict + reach,
    ensures
        offsets_around(max, predict, reach).contains(offset),
    decreases reach,
{
    let tried = offsets_around(max, predict, reach);
    if reach == 0 {
        assert(tried[0] == offset);
    } else {
        let inner = offsets_around(max, predict, (reach - 1) as nat);
        if predict - (reach - 1) <= offset <= predict + (reach - 1) {
            lemma_offsets_reach(max, predict, (reach - 1) as nat, offset);
            let i = choose|i: int| 0 <= i < inner.len() && inner[i] == offset;
            assert(tried[i] == offset);
        } else if offset == predict + reach {
            assert(tried[inner.len() as int] == offset);
        } else {
            assert(tried.last() == offset);
        }
    }
}

/// Every offset up to the greatest is tried.
pub proof fn lemma_every_offset_tried(max: int, predict: int, offset: int)
    requires
        -max <= offset <= max,
    ensures
        offsets_tried(max, predict).contains(offset),
{
    lemma_offsets_reach(max, confined(predict, -max, max), (2 * max) as nat, offset);
}

proof fn lemma_best_of(
    last: Seq<Levels>,
    frame: Seq<Levels>,
    offsets: Seq<int>,
    min_overlap: int,
    i: int,
)
    requires
        0 <= i < offsets.len(),
    ensures
        ({
            let best = best_offset(last, frame, offsets, min_overlap);
            best.diff < fraction(1, 4) || best.diff <= shifted_distance(
                last,
                frame,
                offsets[i],
                min_overlap,
            )
        }),
    decreases offsets.len(),
{
    let fewer = offsets.drop_last();
    if i < fewer.len() {
        lemma_best_of(last, frame, fewer, min_overlap, i);
        assert(fewer[i] == offsets[i]);
    }
}

/// The offset found is the closest of all that leave enough overlap, unless it is nearly exact.
pub proof fn lemma_closest_offset(
    last: Seq<Levels>,
    frame: Seq<Levels>,
    last_offset: int,
    min_overlap: int,
    offset: int,
)
    requires
        min_overlap - last.len() <= offset <= last.len() - min_overlap,
    ensures
        ({
            let found = offset_found(last, frame, last_offset, min_overlap);
            found.diff < fraction(1, 4) || found.diff <= shifted_distance(
                last,
                frame,
                offset,
                min_overlap,
            )
        }),
{
    let max = offset_reach(last.len() as int, min_overlap);
    let tried = offsets_tried(max, last_offset);
    lemma_every_offset_tried(max, last_offset, offset);
    let i = choose|i: int| 0 <= i < tried.len() && tried[i] == offset;
    lemma_best_of(last, frame, tried, min_overlap, i);
}

/// Offsets around an offset between two bounds lie between them too.
proof fn lemma_offsets_bounded(max: int, predict: int, reach: nat)
    requires
        -max <= predict <= max,
    ensures
        forall|i: int|
            0 <= i < offsets_around(max, predict, reach).len() ==> -max <= #[trigger] offsets_around(
                max,
                predict,
                reach,
            )[i] <= max,
    decreases reach,
{
    let all = offsets_around(max, predict, reach);
    if reach > 0 {
        lemma_offsets_bounded(max, predict, (reach - 1) as nat);
        let inner = offsets_around(max, predict, (reach - 1) as nat);
        assert forall|i: int| 0 <= i < all.len() implies -max <= #[trigger] all[i] <= max by {
            if i < inner.len() {
                assert(all[i] == inner[i]);
            }
        }
    } else {
        assert(all =~= seq![predict]);
    }
}

proof fn lemma_best_bounded(
    last: Seq<Levels>,
    frame: Seq<Levels>,
    offsets: Seq<int>,
    min_overlap: int,
    max: int,
)
    requires
        0 <= max,
        forall|i: int| 0 <= i < offsets.len() ==> -max <= #[trigger] offsets[i] <= max,
    ensures
        -max <= best_offset(last, frame, offsets, min_overlap).pos <= max,
    decreases offsets.len(),
{
    if offsets.len() > 0 {
        let fewer = offsets.drop_last();
        assert forall|i: int| 0 <= i < fewer.len() implies -max <= #[trigger] fewer[i] <= max by {
            assert(fewer[i] == offsets[i]);
        }
        lemma_best_bounded(last, frame, fewer, min_overlap, max);
    }
}

/// A frame is never taken to be farther from the one before than that one is tall.
pub proof fn lemma_offset_bounded(
    last: Seq<Levels>,
    frame: Seq<Levels>,
    last_offset: int,
    min_overlap: int,
)
    requires
        0 <= min_overlap,
    ensures
        -last.len() <= offset_found(last, frame, last_offset, min_overlap).pos <= last.len(),
{
    let max = offset_reach(last.len() as int, min_overlap);
    lemma_offsets_bounded(max, confined(last_offset, -max, max), (2 * max) as nat);
    lemma_best_bounded(last, frame, offsets_tried(max, last_offset), min_overlap, max);
}

impl Inside {
    proof fn lemma_searched_bounded(self, before: Finding, places: Seq<int>)
        requires
            0 <= before.best.pos <= self.max_pos(),
            0 <= before.good.pos <= self.max_pos(),
        ensures
            0 <= self.searched(before, places).best.pos <= self.max_pos(),
            0 <= self.searched(before, places).good.pos <= self.max_pos(),
        decreases places.len(),
    {
        if places.len() > 0 {
            self.lemma_searched_bounded(before, places.drop_last());
        }
    }

    /// The place found lies inside the whole.
    pub proof fn lemma_found_inside(self, anchor: int)
        ensures
            self.result(anchor) is Some <==> self.frame.len() <= self.full.len(),
            self.result(anchor) matches Some(found) ==> 0 <= found.pos && found.pos
                + self.frame.len() <= self.full.len(),
    {
        reveal(Inside::result);
        if self.max_pos() >= 0 {
            self.lemma_searched_bounded(self.blank(), self.first_places(anchor));
            let first = self.searched(self.blank(), self.first_places(anchor));
            self.lemma_searched_bounded(first, self.near_places(first.best.pos));
        }
    }
}

impl Outside {
    proof fn lemma_searched_bounded(self, best: Match, places: Seq<int>)
        requires
            self.min_pos() <= best.pos <= self.max_pos(),
        ensures
            self.min_pos() <= self.searched(best, places).pos <= self.max_pos(),
        decreases places.len(),
    {
        if places.len() > 0 {
            self.lemma_searched_bounded(best, places.drop_last());
        }
    }

    /// The place found lies where the frame can share enough rows with the whole.
    pub proof fn lemma_found_around(self)
        ensures
            self.result() is Some <==> self.min_pos() <= self.max_pos(),
            self.result() matches Some(found) ==> self.min_pos() <= found.pos <= self.max_pos(),
    {
        reveal(Outside::result);
        if self.min_pos() <= self.max_pos() {
            let blank = Match { pos: self.within(self.predicted), diff: limit() as int };
            self.lemma_searched_bounded(blank, self.first_places());
            let first = self.searched(blank, self.first_places());
            self.lemma_searched_bounded(
                first,
                every(self.within(first.pos - 8), self.within(first.pos + 8), 1),
            );
        }
    }
}

proof fn lemma_best_exact(
    last: Seq<Levels>,
    frame: Seq<Levels>,
    offsets: Seq<int>,
    min_overlap: int,
    offset: int,
)
    requires
        shifted_distance(last, frame, offset, min_overlap) == 0,
        forall|i: int|
            0 <= i < offsets.len() && #[trigger] offsets[i] != offset ==> shifted_distance(
                last,
                frame,
                offsets[i],
                min_overlap,
            ) >= fraction(1, 4),
        0 < fraction(1, 4) <= limit(),
    ensures
        ({
            let best = best_offset(last, frame, offsets, min_overlap);
            if offsets.contains(offset) {
                best == (Match { pos: offset, diff: 0 })
            } else {
                best.diff >= fraction(1, 4)
            }
        }),
    decreases offsets.len(),
{
    if offsets.len() > 0 {
        let fewer = offsets.drop_last();
        assert forall|i: int|
            0 <= i < fewer.len() && #[trigger] fewer[i] != offset implies shifted_distance(
            last,
            frame,
            fewer[i],
            min_overlap,
        ) >= fraction(1, 4) by {
            assert(fewer[i] == offsets[i]);
        }
        lemma_best_exact(last, frame, fewer, min_overlap, offset);
        assert(offsets[offsets.len() - 1] == offsets.last());
        assert(offsets.contains(offset) <==> fewer.contains(offset) || offsets.last() == offset) by {
            if fewer.contains(offset) {
                let i = choose|i: int| 0 <= i < fewer.len() && fewer[i] == offset;
                assert(offsets[i] == offset);
            }
            if offsets.contains(offset) && offsets.last() != offset {
                let i = choose|i: int| 0 <= i < offsets.len() && offsets[i] == offset;
                assert(fewer[i] == offset);
            }
        }
    }
}

/// A quarter is told apart from nothing.
pub proof fn lemma_quarter()
    ensures
        0 < fraction(1, 4) < limit(),
        fraction(9, 1) == 9 * crate::single::one(),
        0 < 9 * crate::single::one() < limit(),
{
    crate::single::lemma_part_positive(1, 4);
    crate::single::lemma_part_finite(1, 4);
    crate::single::lemma_whole_exact(9);
    crate::single::lemma_whole_positive(9);
}

/// The offset at which the rows agree is found, whatever offset was expected, if the rows tell
/// it apart from all others that leave enough overlap.
pub proof fn lemma_exact_offset_found(
    last: Seq<Levels>,
    frame: Seq<Levels>,
    last_offset: int,
    min_overlap: int,
    offset: int,
)
    requires
        min_overlap - last.len() <= offset <= last.len() - min_overlap,
        shifted_distance(last, frame, offset, min_overlap) == 0,
        forall|other: int|
            min_overlap - last.len() <= other <= last.len() - min_overlap && other != offset
                ==> #[trigger] shifted_distance(last, frame, other, min_overlap) >= fraction(1, 4),
    ensures
        offset_found(last, frame, last_offset, min_overlap).pos == offset,
        offset_found(last, frame, last_offset, min_overlap).diff == 0,
{
    let max = last.len() - min_overlap;
    let tried = offsets_tried(max, last_offset);
    lemma_quarter();
    lemma_every_offset_tried(max, last_offset, offset);
    lemma_offsets_bounded(max, confined(last_offset, -max, max), (2 * max) as nat);
    lemma_best_exact(last, frame, tried, min_overlap, offset);
}

/// How far the rows are apart that a frame shares with the whole at a place.
pub open spec fn apart_at(full: Seq<Levels>, frame: Seq<Levels>, pos: int, min_overlap: int) -> int {
    if pos < 0 {
        range_distance(
            full,
            frame,
            0,
            -pos,
            if pos + frame.len() < full.len() {
                pos + frame.len()
            } else {
                full.len() as int
            },
            min_overlap,
        )
    } else {
        range_distance(
            full,
            frame,
            pos,
            0,
            if pos + frame.len() < full.len() {
                frame.len() as int
            } else {
                full.len() - pos
            },
            min_overlap,
        )
    }
}

/// Whether a frame at a place shares at least so many rows with the whole.
pub open spec fn shares(full: Seq<Levels>, frame: Seq<Levels>, pos: int, min_overlap: int) -> bool {
    &&& full.len() >= min_overlap
    &&& frame.len() >= min_overlap
    &&& pos + frame.len() >= min_overlap
    &&& full.len() - pos >= min_overlap
}

/// What a frame shares with the whole at a place is told exactly where it shares enough.
pub proof fn lemma_known_overlap(full: Seq<Levels>, frame: Seq<Levels>, pos: int, min_overlap: int)
    ensures
        known_overlap(full, frame, pos, min_overlap) is Some <==> shares(
            full,
            frame,
            pos,
            min_overlap,
        ),
        known_overlap(full, frame, pos, min_overlap) matches Some(shared) ==> shared.diff
            == apart_at(full, frame, pos, min_overlap),
{
}

/// The numbers from `start` to `end` in steps are those that are so many steps away.
proof fn lemma_every_holds(start: int, end: int, step: int, k: int)
    requires
        0 < step,
        0 <= k,
        start + k * step <= end,
    ensures
        0 <= k < every(start, end, step).len(),
        every(start, end, step)[k] == start + k * step,
{
    let n = (end - start) / step;
    assert(0 <= k * step) by (nonlinear_arith)
        requires
            0 <= k,
            0 < step,
    ;
    assert(k <= n) by (nonlinear_arith)
        requires
            n == (end - start) / step,
            k * step <= end - start,
            0 < step,
    ;
}

impl Outside {
    /// Whether the frame sticks out of the whole at a place and shares enough rows there.
    pub open spec fn fits_at(self, pos: int) -> bool {
        &&& pos < 0 || pos + self.frame.len() > self.full.len()
        &&& shares(self.full, self.frame, pos, self.min_overlap)
    }

    proof fn lemma_looked_best(self, best: Match, places: Seq<int>, i: int)
        requires
            0 <= i < places.len(),
            self.fits_at(places[i]),
        ensures
            self.searched(best, places).diff <= apart_at(
                self.full,
                self.frame,
                places[i],
                self.min_overlap,
            ),
        decreases places.len(),
    {
        let fewer = places.drop_last();
        let pos = places[i];
        if i < fewer.len() {
            assert(fewer[i] == pos);
            self.lemma_looked_best(best, fewer, i);
        } else {
            assert(self.within(pos) == pos);
            lemma_known_overlap(self.full, self.frame, pos, self.min_overlap);
        }
    }

    proof fn lemma_only_closer(self, best: Match, places: Seq<int>)
        ensures
            self.searched(best, places).diff <= best.diff,
        decreases places.len(),
    {
        if places.len() > 0 {
            self.lemma_only_closer(best, places.drop_last());
        }
    }

    /// Whether a place is swept: every eighth above the whole, every eighth below it, and every
    /// eighth up to 160 rows around the expected place.
    pub open spec fn is_swept(self, pos: int) -> bool {
        ||| exists|k: int| 0 <= k && pos == #[trigger] self.eighth(self.min_pos(), k) && pos < 0
        ||| exists|k: int|
            0 <= k && pos == #[trigger] self.eighth(
                self.full.len() - self.frame.len() + 1,
                k,
            )
        ||| exists|k: int|
            0 <= k && pos == #[trigger] self.eighth(self.predicted - 160, k) && pos
                <= self.predicted + 160 && self.min_pos() <= self.predicted - 160
    }

    /// The `k`th place from `start` on in steps of eight.
    pub open spec fn eighth(self, start: int, k: int) -> int {
        start + 8 * k
    }

    proof fn lemma_swept_looked(self, pos: int) -> (i: int)
        requires
            self.is_swept(pos),
            self.fits_at(pos),
        ensures
            0 <= i < self.first_places().len(),
            self.first_places()[i] == pos,
    {
        let around = self.swept(self.predicted - 160, self.predicted + 160);
        let above = self.swept(self.min_pos(), -1);
        let below = self.swept(self.full.len() - self.frame.len() + 1, self.max_pos());
        assert(self.min_pos() <= pos <= self.max_pos());
        if exists|k: int| 0 <= k && pos == #[trigger] self.eighth(self.min_pos(), k) && pos < 0 {
            let k = choose|k: int|
                0 <= k && pos == #[trigger] self.eighth(self.min_pos(), k) && pos < 0;
            lemma_every_holds(self.min_pos(), self.within(-1), 8, k);
            assert(above[k] == pos);
            assert(self.first_places()[around.len() + k] == pos);
            around.len() + k
        } else if exists|k: int|
            0 <= k && pos == #[trigger] self.eighth(
                self.full.len() - self.frame.len() + 1,
                k,
            ) {
            let from = self.full.len() - self.frame.len() + 1;
            let k = choose|k: int| 0 <= k && pos == #[trigger] self.eighth(from, k);
            assert(self.within(from) == from);
            assert(self.within(self.max_pos()) == self.max_pos());
            lemma_every_holds(from, self.max_pos(), 8, k);
            assert(below[k] == pos);
            assert(self.first_places()[around.len() + above.len() + k] == pos);
            around.len() + above.len() + k
        } else {
            let from = self.predicted - 160;
            let k = choose|k: int|
                0 <= k && pos == #[trigger] self.eighth(from, k) && pos <= self.predicted + 160
                    && self.min_pos() <= self.predicted - 160;
            assert(self.within(from) == from);
            lemma_every_holds(from, self.within(self.predicted + 160), 8, k);
            assert(around[k] == pos);
            assert(self.first_places()[k] == pos);
            k
        }
    }

    /// The place found at the ends is at least as close as every place that is swept there and
    /// at which the frame sticks out and shares enough rows.
    pub proof fn lemma_closest_swept(self, pos: int)
        requires
            self.is_swept(pos),
            self.fits_at(pos),
        ensures
            self.result() matches Some(found) && found.diff <= apart_at(
                self.full,
                self.frame,
                pos,
                self.min_overlap,
            ),
    {
        reveal(Outside::result);
        let blank = Match { pos: self.within(self.predicted), diff: limit() as int };
        let first = self.searched(blank, self.first_places());
        let i = self.lemma_swept_looked(pos);
        self.lemma_looked_best(blank, self.first_places(), i);
        self.lemma_only_closer(
            first,
            every(self.within(first.pos - 8), self.within(first.pos + 8), 1),
        );
    }

    /// Where the rows of some swept place can be compared, the closest place that is swept is
    /// looked around: the place found is at least as close as every place up to eight rows from
    /// it.
    pub proof fn lemma_closest_around(self) -> (center: int)
        requires
            self.result() is Some,
        ensures
            self.min_pos() <= center <= self.max_pos(),
            forall|pos: int|
                center - 8 <= pos <= center + 8 && #[trigger] self.fits_at(pos) && 0 <= (
                self.result()->0).diff < limit() ==> (self.result()->0).diff <= apart_at(
                    self.full,
                    self.frame,
                    pos,
                    self.min_overlap,
                ),
            forall|pos: int| #[trigger]
                self.is_swept(pos) && self.fits_at(pos) && apart_at(
                    self.full,
                    self.frame,
                    pos,
                    self.min_overlap,
                ) < limit() ==> self.fits_at(center) && apart_at(
                    self.full,
                    self.frame,
                    center,
                    self.min_overlap,
                ) <= apart_at(self.full, self.frame, pos, self.min_overlap),
    {
        reveal(Outside::result);
        let blank = Match { pos: self.within(self.predicted), diff: limit() as int };
        let first = self.searched(blank, self.first_places());
        let near = every(self.within(first.pos - 8), self.within(first.pos + 8), 1);
        self.lemma_searched_bounded(blank, self.first_places());
        self.lemma_searched_there(blank, self.first_places());
        assert forall|pos: int|
            first.pos - 8 <= pos <= first.pos + 8 && #[trigger] self.fits_at(pos) && 0 <= (
            self.result()->0).diff < limit() implies (self.result()->0).diff <= apart_at(
            self.full,
            self.frame,
            pos,
            self.min_overlap,
        ) by {
            let from = self.within(first.pos - 8);
            assert(self.within(pos) == pos);
            assert((pos - from) * 1 == pos - from);
            lemma_every_holds(from, self.within(first.pos + 8), 1, pos - from);
            self.lemma_looked_best(first, near, pos - from);
        }
        assert forall|pos: int| #[trigger]
            self.is_swept(pos) && self.fits_at(pos) && apart_at(
                self.full,
                self.frame,
                pos,
                self.min_overlap,
            ) < limit() implies self.fits_at(first.pos) && apart_at(
            self.full,
            self.frame,
            first.pos,
            self.min_overlap,
        ) <= apart_at(self.full, self.frame, pos, self.min_overlap) by {
            let i = self.lemma_swept_looked(pos);
            self.lemma_looked_best(blank, self.first_places(), i);
        }
        first.pos
    }

    proof fn lemma_searched_there(self, best: Match, places: Seq<int>)
        requires
            best.diff == limit(),
            self.min_pos() <= self.max_pos(),
        ensures
            ({
                let found = self.searched(best, places);
                found.diff < limit() ==> self.fits_at(found.pos) && found.diff == apart_at(
                    self.full,
                    self.frame,
                    found.pos,
                    self.min_overlap,
                )
            }),
        decreases places.len(),
    {
        if places.len() > 0 {
            self.lemma_searched_there(best, places.drop_last());
            lemma_known_overlap(
                self.full,
                self.frame,
                self.within(places.last()),
                self.min_overlap,
            );
        }
    }

    /// The place found tells how far the rows are apart there, if they can be compared anywhere.
    pub proof fn lemma_found_there(self)
        ensures
            self.result() matches Some(found) ==> (found.diff < limit() ==> self.fits_at(found.pos)
                && found.diff == apart_at(self.full, self.frame, found.pos, self.min_overlap)),
    {
        reveal(Outside::result);
        if self.min_pos() <= self.max_pos() {
            let blank = Match { pos: self.within(self.predicted), diff: limit() as int };
            let first = self.searched(blank, self.first_places());
            self.lemma_searched_there(blank, self.first_places());
            self.lemma_stays_there(
                first,
                every(self.within(first.pos - 8), self.within(first.pos + 8), 1),
            );
        }
    }

    proof fn lemma_stays_there(self, best: Match, places: Seq<int>)
        requires
            self.fits_at(best.pos) && best.diff == apart_at(
                self.full,
                self.frame,
                best.pos,
                self.min_overlap,
            ) || best.diff >= limit(),
        ensures
            ({
                let found = self.searched(best, places);
                self.fits_at(found.pos) && found.diff == apart_at(
                    self.full,
                    self.frame,
                    found.pos,
                    self.min_overlap,
                ) || found == best
            }),
        decreases places.len(),
    {
        if places.len() > 0 {
            self.lemma_stays_there(best, places.drop_last());
            lemma_known_overlap(
                self.full,
                self.frame,
                self.within(places.last()),
                self.min_overlap,
            );
        }
    }
}

impl Inside {
    /// How far a place is from where the frame is expected.
    pub open spec fn way(self, pos: int) -> int {
        let goal = if self.predicted < 0 {
            0
        } else if self.predicted > self.max_pos() {
            self.max_pos()
        } else {
            self.predicted
        };
        if pos < goal {
            goal - pos
        } else {
            pos - goal
        }
    }

    /// How far the rows are apart at a place inside the whole.
    pub open spec fn apart(self, pos: int) -> int {
        range_distance(
            self.full,
            self.frame,
            pos,
            0,
            self.frame.len() as int,
            self.min_overlap,
        )
    }

    /// Whether the frame can be compared at all.
    pub open spec fn comparable(self) -> bool {
        &&& self.min_overlap <= self.frame.len() <= self.full.len()
        &&& 0 <= self.max_pos() < i32::MAX
    }

    /// What has been found says how far the rows are apart there, and how far it is away.
    spec fn true_of(self, found: Finding) -> bool {
        &&& found.best.diff < limit() ==> 0 <= found.best.pos <= self.max_pos() && found.best.diff
            == self.apart(found.best.pos)
        &&& found.distance < i32::MAX ==> {
            &&& 0 <= found.good.pos <= self.max_pos()
            &&& close(found.good.diff)
            &&& found.good.diff == self.apart(found.good.pos)
            &&& found.distance == self.way(found.good.pos)
        }
        &&& found.distance == i32::MAX ==> found.good.diff == limit()
        &&& found.distance <= i32::MAX
    }

    /// What has been found is no farther and no less close than a place.
    spec fn beats(self, found: Finding, pos: int) -> bool {
        &&& found.best.diff <= self.apart(pos)
        &&& close(self.apart(pos)) ==> found.distance <= self.way(pos)
    }

    proof fn lemma_looked_at(self, before: Finding, place: int)
        requires
            self.comparable(),
            self.true_of(before),
        ensures
            self.true_of(self.looked(before, place)),
            self.beats(self.looked(before, place), confined(place, 0, self.max_pos())),
            forall|pos: int| #[trigger]
                self.beats(before, pos) ==> self.beats(self.looked(before, place), pos),
    {
        let pos = confined(place, 0, self.max_pos());
        lemma_known_overlap(self.full, self.frame, pos, self.min_overlap);
    }

    proof fn lemma_searched_all(self, before: Finding, places: Seq<int>)
        requires
            self.comparable(),
            self.true_of(before),
        ensures
            self.true_of(self.searched(before, places)),
            forall|pos: int| #[trigger]
                self.beats(before, pos) ==> self.beats(self.searched(before, places), pos),
            forall|i: int|
                0 <= i < places.len() ==> self.beats(
                    self.searched(before, places),
                    confined(#[trigger] places[i], 0, self.max_pos()),
                ),
        decreases places.len(),
    {
        if places.len() > 0 {
            let fewer = places.drop_last();
            self.lemma_searched_all(before, fewer);
            let found = self.searched(before, fewer);
            self.lemma_looked_at(found, places.last());
            assert forall|i: int| 0 <= i < places.len() implies self.beats(
                self.searched(before, places),
                confined(#[trigger] places[i], 0, self.max_pos()),
            ) by {
                if i < fewer.len() {
                    assert(fewer[i] == places[i]);
                    assert(self.beats(found, confined(places[i], 0, self.max_pos())));
                }
            }
        }
    }

    /// Whether a place is looked at in any case: the expected one, that of the frame before, the
    /// first, the last, and every eighth.
    pub open spec fn is_looked_at(self, anchor: int, pos: int) -> bool {
        &&& 0 <= pos <= self.max_pos()
        &&& pos == self.predicted || pos == anchor || pos == self.max_pos() || pos % 8 == 0
    }

    proof fn lemma_first_looked(self, anchor: int, pos: int) -> (i: int)
        requires
            self.is_looked_at(anchor, pos),
        ensures
            0 <= i < self.first_places(anchor).len(),
            self.first_places(anchor)[i] == pos,
    {
        let four = seq![self.predicted, anchor, 0, self.max_pos()];
        if pos == self.predicted {
            assert(self.first_places(anchor)[0] == pos);
            0
        } else if pos == anchor {
            assert(self.first_places(anchor)[1] == pos);
            1
        } else if pos == self.max_pos() {
            assert(self.first_places(anchor)[3] == pos);
            3
        } else {
            assert(0 + (pos / 8) * 8 == pos);
            lemma_every_holds(0, self.max_pos(), 8, pos / 8);
            assert(self.first_places(anchor)[4 + pos / 8] == every(0, self.max_pos(), 8)[pos / 8]);
            4 + pos / 8
        }
    }

    /// Of the places looked at that are close enough, the one found is no farther from where the
    /// frame was expected than any; where none is, it is at least as close as all. The place
    /// found says how far the rows are apart there.
    pub proof fn lemma_nearest_known(self, anchor: int, pos: int)
        requires
            self.comparable(),
            self.is_looked_at(anchor, pos),
        ensures
            self.result(anchor) matches Some(found) && {
                &&& close(self.apart(pos)) ==> close(found.diff) && self.way(found.pos) <= self.way(
                    pos,
                )
                &&& !close(found.diff) ==> found.diff <= self.apart(pos)
                &&& found.diff < limit() ==> 0 <= found.pos <= self.max_pos() && found.diff
                    == self.apart(found.pos)
            },
    {
        reveal(Inside::result);
        lemma_quarter();
        let first = self.searched(self.blank(), self.first_places(anchor));
        let i = self.lemma_first_looked(anchor, pos);
        self.lemma_searched_all(self.blank(), self.first_places(anchor));
        self.lemma_searched_all(first, self.near_places(first.best.pos));
        assert(self.beats(first, confined(self.first_places(anchor)[i], 0, self.max_pos())));
    }

    /// The closest place that is looked at in any case is looked around: of the places up to
    /// eight rows from it that are close enough, the one found is no farther from where the
    /// frame was expected than any; where none is, it is at least as close as all.
    pub proof fn lemma_looked_around(self, anchor: int) -> (center: int)
        requires
            self.comparable(),
        ensures
            0 <= center <= self.max_pos(),
            forall|pos: int|
                self.is_looked_at(anchor, pos) && #[trigger] self.apart(pos) < limit()
                    ==> self.apart(center) <= self.apart(pos),
            forall|pos: int|
                center - 8 <= pos <= center + 8 && 0 <= pos <= self.max_pos() ==> {
                    &&& close(#[trigger] self.apart(pos)) ==> close((self.result(anchor)->0).diff)
                        && self.way((self.result(anchor)->0).pos) <= self.way(pos)
                    &&& !close((self.result(anchor)->0).diff) ==> (self.result(anchor)->0).diff
                        <= self.apart(pos)
                },
    {
        reveal(Inside::result);
        lemma_quarter();
        let first = self.searched(self.blank(), self.first_places(anchor));
        let near = self.near_places(first.best.pos);
        self.lemma_searched_bounded(self.blank(), self.first_places(anchor));
        self.lemma_searched_all(self.blank(), self.first_places(anchor));
        self.lemma_searched_all(first, near);
        let center = first.best.pos;
        assert forall|pos: int|
            self.is_looked_at(anchor, pos) && #[trigger] self.apart(pos) < limit() implies self.apart(
            center,
        ) <= self.apart(pos) by {
            let i = self.lemma_first_looked(anchor, pos);
            assert(self.beats(first, confined(self.first_places(anchor)[i], 0, self.max_pos())));
        }
        assert forall|pos: int|
            center - 8 <= pos <= center + 8 && 0 <= pos <= self.max_pos() implies {
            &&& close(#[trigger] self.apart(pos)) ==> close((self.result(anchor)->0).diff)
                && self.way((self.result(anchor)->0).pos) <= self.way(pos)
            &&& !close((self.result(anchor)->0).diff) ==> (self.result(anchor)->0).diff
                <= self.apart(pos)
        } by {
            let from = confined(center - 8, 0, self.max_pos());
            let to = confined(center + 8, 0, self.max_pos());
            assert((pos - from) * 1 == pos - from);
            lemma_every_holds(from, to, 1, pos - from);
            assert(near[pos - from] == pos);
            assert(self.beats(
                self.searched(first, near),
                confined(near[pos - from], 0, self.max_pos()),
            ));
        }
        center
    }
}

/// Rows count as the same if they are at most nine apart on average.
pub proof fn lemma_close(diff: int)
    ensures
        close(diff) <==> diff <= 9 * crate::single::one(),
{
    lemma_quarter();
}

impl Outside {
    /// A place that is no closer than the closest so far changes nothing, and a closer one is
    /// taken if the frame sticks out there.
    pub proof fn lemma_closer_alone(self, best: Match, place: int)
        requires
            self.min_pos() <= place <= self.max_pos(),
        ensures
            ({
                let shared = known_overlap(self.full, self.frame, place, self.min_overlap);
                let out = place < 0 || place + self.frame.len() > self.full.len();
                &&& shared is None || (shared->0).diff >= best.diff || !out ==> self.looked(
                    best,
                    place,
                ) == best
                &&& shared is Some && (shared->0).diff < best.diff && out ==> self.looked(
                    best,
                    place,
                ) == (Match { pos: place, diff: (shared->0).diff })
            }),
    {
    }
}

impl Inside {
    /// Of the places that are close, the one nearest to where the frame was expected is kept, and
    /// of those equally near the first of the closest; the closest of all is the first as close.
    pub proof fn lemma_nearer_alone(self, before: Finding, place: int)
        requires
            0 <= place <= self.max_pos(),
        ensures
            ({
                let shared = known_overlap(self.full, self.frame, place, self.min_overlap);
                let after = self.looked(before, place);
                let away = if place < self.expected() {
                    self.expected() - place
                } else {
                    place - self.expected()
                };
                &&& shared is None ==> after == before
                &&& shared matches Some(m) ==> {
                    &&& m.diff < before.best.diff ==> after.best == (Match {
                        pos: place,
                        diff: m.diff,
                    })
                    &&& m.diff >= before.best.diff ==> after.best == before.best
                    &&& !close(m.diff) || away > before.distance || (away == before.distance
                        && m.diff >= before.good.diff) ==> after.good == before.good
                    &&& close(m.diff) && away < before.distance ==> after.good == (Match {
                        pos: place,
                        diff: m.diff,
                    }) && after.distance == away
                }
            }),
    {
    }
}

} // verus!
