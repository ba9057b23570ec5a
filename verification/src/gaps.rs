//! Empty stretches of a track, and closing one up.

use vstd::prelude::*;

use crate::collections::IndexSet;
use crate::model::{Item, Project, Time, Track, TrackKey, TrackKind, items_sorted};
use crate::ripple::{
    RippleInterval, backward_respects_anchors, capped_shifts, intervals_wf, overlap_before,
    ripple_intervals_from_ranges, ripple_track_items, shift_before, unselected_items,
};
use crate::ripple_edit::{track_shift_changes, track_shifted};

verus! {

/// An empty stretch `[start, end)` of a track. This models the gap record of
/// the timeline core, which is not among this library's dependencies; the
/// search for a gap below follows the timeline's own walk over a track.
#[derive(Clone, Copy, Debug, PartialEq, Eq, Structural)]
pub struct TrackGap {
    pub track: TrackKey,
    pub start: Time,
    pub end: Time,
}

/// The gap that holds `time`, looking from item `k` on with the empty time
/// starting at `gap_start`: found at the first item that starts after
/// `time`, where no earlier item reaches past `time`.
pub open spec fn gap_scan(items: Seq<Item>, time: Time, gap_start: Time, k: int) -> Option<(Time, Time)>
    decreases items.len() - k,
{
    if k < 0 || k >= items.len() {
        None
    } else {
        let item = items[k];
        if item.start > time {
            if gap_start < item.start && time >= gap_start {
                Some((gap_start, item.start))
            } else {
                None
            }
        } else if item.end > time {
            None
        } else {
            gap_scan(items, time, if item.end > gap_start { item.end } else { gap_start }, k + 1)
        }
    }
}

/// The empty stretch of a list of items that holds `time`, if any.
pub open spec fn gap_in_items(items: Seq<Item>, time: Time) -> Option<(Time, Time)> {
    gap_scan(items, time, 0, 0)
}

/// The track that a key names, if it exists.
pub open spec fn track_of_key(project: Project, track: TrackKey) -> Option<Track> {
    let tracks = project.tracks_of(track.kind);
    if track.track_index < tracks.len() {
        Some(tracks[track.track_index as int])
    } else {
        None
    }
}

/// The gap of a track that holds `time`, as the track shows it.
pub open spec fn gap_at(project: Project, track: TrackKey, time: Time) -> Option<TrackGap> {
    match track_of_key(project, track) {
        Some(t) => match gap_in_items(t.items@, time) {
            Some((start, end)) => Some(TrackGap { track: track, start: start, end: end }),
            None => None,
        },
        None => None,
    }
}

fn gap_in(items: &Vec<Item>, time: Time) -> (r: Option<(Time, Time)>)
    ensures
        r == gap_in_items(items@, time),
{
    let mut gap_start: Time = 0;
    let mut k: usize = 0;
    while k < items.len()
        invariant
            k <= items@.len(),
            gap_in_items(items@, time) == gap_scan(items@, time, gap_start, k as int),
        decreases items@.len() - k,
    {
        let item = items[k];
        if item.start > time {
            if gap_start < item.start && time >= gap_start {
                return Some((gap_start, item.start));
            }
            return None;
        }
        if item.end > time {
            return None;
        }
        if item.end > gap_start {
            gap_start = item.end;
        }
        k = k + 1;
    }
    None
}

/// Returns the empty stretch of a track that holds `time`, if any: it runs
/// from the end of the items before `time` (or zero) to the start of the
/// first item after it.
pub fn track_gap_at(project: &Project, track: TrackKey, time: Time) -> (r: Option<TrackGap>)
    ensures
        r == gap_at(*project, track, time),
{
    let tracks = project.tracks(track.kind);
    if track.track_index >= tracks.len() {
        return None;
    }
    match gap_in(&tracks[track.track_index].items, time) {
        Some((start, end)) => Some(TrackGap { track: track, start: start, end: end }),
        None => None,
    }
}

/// What the scan knows when it finds a gap from item `k` on: the gap holds
/// `time`, no item before `k` reaches past `gap_start`, and on ordered items
/// no item from the gap's end on starts before it.
proof fn lemma_gap_scan(items: Seq<Item>, time: Time, gap_start: Time, k: int)
    requires
        0 <= k,
        items_sorted(items),
        forall|m: int| 0 <= m < k && m < items.len() ==> #[trigger] items[m].end <= gap_start,
        forall|m: int| 0 <= m < k && m < items.len() ==> #[trigger] items[m].start <= time,
        gap_scan(items, time, gap_start, k) is Some,
    ensures
        ({
            let (start, end) = gap_scan(items, time, gap_start, k).unwrap();
            &&& start <= time < end
            &&& exists|j: int|
                0 <= j < items.len() && items[j].start == end && (forall|m: int|
                    0 <= m < j ==> #[trigger] items[m].end <= start && items[m].start <= time) && (forall|m: int|
                    j <= m < items.len() ==> #[trigger] items[m].start >= end)
        }),
    decreases items.len() - k,
{
    let item = items[k];
    if item.start > time {
        assert forall|m: int| k <= m < items.len() implies #[trigger] items[m].start >= item.start by {
            if m > k {
                assert(items[k].start <= items[m].start);
            }
        }
        assert(forall|m: int| 0 <= m < k ==> #[trigger] items[m].end <= gap_start && items[m].start <= time);
    } else {
        let next = if item.end > gap_start { item.end } else { gap_start };
        lemma_gap_scan(items, time, next, k + 1);
    }
}

/// A gap that a track shows holds the time asked for, and no item of the
/// track (with its items in order) overlaps it.
pub proof fn law_gap_is_empty(project: Project, track: TrackKey, time: Time)
    requires
        gap_at(project, track, time) is Some,
        items_sorted(track_of_key(project, track).unwrap().items@),
    ensures
        ({
            let gap = gap_at(project, track, time).unwrap();
            let items = track_of_key(project, track).unwrap().items@;
            &&& gap.start <= time < gap.end
            &&& forall|m: int| 0 <= m < items.len() ==> #[trigger] items[m].end <= gap.start || items[m].start >= gap.end
        }),
{
    let items = track_of_key(project, track).unwrap().items@;
    lemma_gap_scan(items, time, 0, 0);
    let gap = gap_at(project, track, time).unwrap();
    let j = choose|j: int|
        0 <= j < items.len() && items[j].start == gap.end && (forall|m: int|
            0 <= m < j ==> #[trigger] items[m].end <= gap.start && items[m].start <= time) && (forall|m: int|
            j <= m < items.len() ==> #[trigger] items[m].start >= gap.end);
    assert forall|m: int| 0 <= m < items.len() implies #[trigger] items[m].end <= gap.start || items[m].start >= gap.end by {
        if m < j {
            assert(items[m].end <= gap.start);
        } else {
            assert(items[m].start >= gap.end);
        }
    }
}

/// A backward walk that never needs to raise a shift respects the anchors.
proof fn lemma_walk_without_raise(remaining: Seq<Item>, intervals: Seq<RippleInterval>, shifts: Seq<Time>, index: int)
    requires
        shifts.len() == remaining.len(),
        forall|i: int|
            1 <= i <= index && i < shifts.len() ==> #[trigger] shifts[i].saturating_sub(
                remaining[i].start.saturating_sub(remaining[i - 1].end),
            ) <= shifts[i - 1],
    ensures
        backward_respects_anchors(remaining, intervals, shifts, index),
    decreases index,
{
    if index >= 1 && index < shifts.len() {
        lemma_walk_without_raise(remaining, intervals, shifts, index - 1);
    }
}

/// Closing a gap of a track whose items are in order never pushes an item
/// that stays in place.
proof fn lemma_gap_close_keeps_anchors(items: Seq<Item>, gap: TrackGap, time: Time, intervals: Seq<RippleInterval>)
    requires
        items_sorted(items),
        time == gap.start,
        gap_in_items(items, time) == Some((gap.start, gap.end)),
        intervals == seq![RippleInterval { start: gap.start, end: gap.end }],
    ensures
        ({
            let remaining = unselected_items(items, Set::<usize>::empty(), items.len() as int);
            backward_respects_anchors(
                remaining,
                intervals,
                capped_shifts(remaining, intervals, (gap.end - gap.start) as Time),
                remaining.len() - 1,
            )
        }),
{
    lemma_gap_scan(items, time, 0, 0);
    let j = choose|j: int|
        0 <= j < items.len() && items[j].start == gap.end && (forall|m: int|
            0 <= m < j ==> #[trigger] items[m].end <= gap.start && items[m].start <= time) && (forall|m: int|
            j <= m < items.len() ==> #[trigger] items[m].start >= gap.end);
    lemma_unselected_all(items, items.len() as int);
    assert(items.subrange(0, items.len() as int) == items);
    let remaining = items;
    let length = (gap.end - gap.start) as Time;
    let shifts = capped_shifts(remaining, intervals, length);
    assert forall|m: int| 0 <= m < items.len() implies #[trigger] shifts[m] == (if m < j { 0 } else { length }) by {
        assert(intervals.len() == 1);
        assert(shift_before(intervals, items[m].start, 0) == 0);
        assert(shift_before(intervals, items[m].start, 1) == overlap_before(intervals[0], items[m].start));
        if m < j {
            assert(items[m].end <= gap.start);
            assert(items[m].start <= time);
        } else {
            assert(items[m].start >= gap.end);
        }
    }
    assert forall|i: int| 1 <= i <= items.len() - 1 implies #[trigger] shifts[i].saturating_sub(
        remaining[i].start.saturating_sub(remaining[i - 1].end),
    ) <= shifts[i - 1] by {
        assert(shifts[i] == (if i < j { 0 } else { length }));
        assert(shifts[i - 1] == (if i - 1 < j { 0 } else { length }));
        if i == j {
            assert(items[i - 1].end <= gap.start);
        }
    }
    lemma_walk_without_raise(remaining, intervals, shifts, remaining.len() - 1);
}

proof fn lemma_unselected_all(items: Seq<Item>, k: int)
    requires
        0 <= k <= items.len(),
    ensures
        unselected_items(items, Set::<usize>::empty(), k) == items.subrange(0, k),
    decreases k,
{
    if k > 0 {
        lemma_unselected_all(items, k - 1);
        assert(items.subrange(0, k) == items.subrange(0, k - 1).push(items[k - 1]));
    }
}

/// Whether the track that a gap names has its items in order.
pub open spec fn gap_track_sorted(project: Project, gap: TrackGap) -> bool {
    match track_of_key(project, gap.track) {
        Some(t) => items_sorted(t.items@),
        None => true,
    }
}

/// Closes a gap: where the track still shows exactly this gap at its start,
/// every item after it moves earlier by its length. Tells which kind of
/// track changed; `None` when the gap is not there or nothing moved.
pub fn delete_track_gap(project: &mut Project, gap: TrackGap) -> (r: Option<(bool, bool, bool)>)
    requires
        gap_at(*old(project), gap.track, gap.start) == Some(gap) ==> gap_track_sorted(*old(project), gap),
    ensures
        gap_at(*old(project), gap.track, gap.start) != Some(gap) ==> r is None && *final(project) == *old(project),
        gap_at(*old(project), gap.track, gap.start) == Some(gap) ==> {
            let intervals = seq![RippleInterval { start: gap.start, end: gap.end }];
            let length = (gap.end - gap.start) as Time;
            let before = track_of_key(*old(project), gap.track).unwrap();
            let kind = gap.track.kind;
            let t = gap.track.track_index as int;
            &&& final(project).canvas_size == old(project).canvas_size
            &&& final(project).fps == old(project).fps
            &&& final(project).folded_sequences@ == old(project).folded_sequences@
            &&& forall|k: TrackKind| k != kind ==> #[trigger] final(project).tracks_of(k) == old(project).tracks_of(k)
            &&& final(project).tracks_of(kind).len() == old(project).tracks_of(kind).len()
            &&& forall|u: int|
                0 <= u < old(project).tracks_of(kind).len() && u != t ==> #[trigger] final(project).tracks_of(kind)[u]
                    == old(project).tracks_of(kind)[u]
            &&& final(project).tracks_of(kind)[t].id == before.id
            &&& final(project).tracks_of(kind)[t].enabled == before.enabled
            &&& final(project).tracks_of(kind)[t].unity_gain == before.unity_gain
            &&& final(project).tracks_of(kind)[t].items@ == track_shifted(before.items@, intervals, length)
            &&& r == if track_shift_changes(before.items@, intervals, length) {
                Some((kind == TrackKind::Caption, kind == TrackKind::Video, kind == TrackKind::Audio))
            } else {
                None
            }
        },
{
    let found = track_gap_at(project, gap.track, gap.start);
    if found != Some(gap) {
        return None;
    }
    let ghost before = *project;
    let mut ranges: Vec<(Time, Time)> = Vec::new();
    ranges.push((gap.start, gap.end));
    let intervals = ripple_intervals_from_ranges(&ranges);
    let ghost want = seq![RippleInterval { start: gap.start, end: gap.end }];
    proof {
        lemma_gap_scan(track_of_key(before, gap.track).unwrap().items@, gap.start, 0, 0);
        assert(intervals_wf(want));
        assert forall|t: int| crate::ripple::intervals_cover(want, t) <==> crate::ripple::intervals_cover(intervals@, t) by {
            if crate::ripple::intervals_cover(want, t) {
                assert(crate::ripple::range_holds(ranges@[0].0, ranges@[0].1, t));
                assert(crate::ripple::ranges_cover(ranges@, t));
            }
            if crate::ripple::intervals_cover(intervals@, t) {
                assert(crate::ripple::ranges_cover(ranges@, t));
                assert(crate::ripple::range_holds(want[0].start, want[0].end, t));
            }
        }
        crate::ripple::law_intervals_determined_by_coverage(want, intervals@);
    }
    let length = gap.end - gap.start;
    let none = IndexSet::empty();
    let kind = gap.track.kind;
    let t = gap.track.track_index;
    proof {
        assert(before.tracks_of(TrackKind::Caption) == before.caption_tracks@);
        assert(before.tracks_of(TrackKind::Video) == before.video_tracks@);
        assert(before.tracks_of(TrackKind::Audio) == before.audio_tracks@);
        lemma_gap_close_keeps_anchors(before.tracks_of(kind)[t as int].items@, gap, gap.start, intervals@);
    }
    let changed = match kind {
        TrackKind::Caption => {
            let track = &mut project.caption_tracks[t];
            ripple_track_items(&mut track.items, &none, &intervals, length)
        },
        TrackKind::Video => {
            let track = &mut project.video_tracks[t];
            ripple_track_items(&mut track.items, &none, &intervals, length)
        },
        TrackKind::Audio => {
            let track = &mut project.audio_tracks[t];
            ripple_track_items(&mut track.items, &none, &intervals, length)
        },
    };
    if changed {
        Some((kind == TrackKind::Caption, kind == TrackKind::Video, kind == TrackKind::Audio))
    } else {
        None
    }
}

} // verus!
