//! Preparing audio for transcription: cut points, chunks of continuous
//! speech, and snapping transcript segments to nearby cuts.

use vstd::prelude::*;

use crate::model::{Item, ItemKey, Project, Time, Track, TrackKey, TrackKind};
use crate::ripple::{range_holds, ranges_cover};
use crate::sorting::{first_start_after, lemma_first_start_props, lemma_sort_by_start, pairs_sorted_by_start, sort_by_start, sort_pairs_by_start};

verus! {

/// Whether `t` is the start or the end of one of the intervals.
pub open spec fn is_endpoint(intervals: Seq<(Time, Time)>, t: Time) -> bool {
    exists|i: int| 0 <= i < intervals.len() && (#[trigger] intervals[i].0 == t || intervals[i].1 == t)
}

/// Times in strictly increasing order.
pub open spec fn strictly_increasing(s: Seq<Time>) -> bool {
    forall|i: int, j: int| 0 <= i < j < s.len() ==> #[trigger] s[i] < #[trigger] s[j]
}

/// Adds `t` to strictly increasing times, unless they hold it already.
fn insert_unique(times: &mut Vec<Time>, t: Time)
    requires
        strictly_increasing(old(times)@),
    ensures
        strictly_increasing(final(times)@),
        forall|x: Time| final(times)@.contains(x) <==> (old(times)@.contains(x) || x == t),
{
    let mut p: usize = 0;
    while p < times.len() && times[p] < t
        invariant
            p <= times@.len(),
            times@ == old(times)@,
            forall|k: int| 0 <= k < p ==> #[trigger] times@[k] < t,
        decreases times@.len() - p,
    {
        p = p + 1;
    }
    if p < times.len() && times[p] == t {
        proof {
            assert(times@[p as int] == t);
            assert(times@.contains(t));
        }
        return;
    }
    let ghost prev = times@;
    times.insert(p, t);
    proof {
        assert(times@ == prev.insert(p as int, t));
        assert(prev == old(times)@);
        assert forall|a: int, b: int| 0 <= a < b < times@.len() implies #[trigger] times@[a] < #[trigger] times@[b] by {
            if b < p {
            } else if b == p {
            } else if a < p {
                assert(prev[p as int] > t);
                assert(prev[p as int] <= prev[b - 1]);
            } else if a == p {
                assert(prev[p as int] > t);
                assert(prev[p as int] <= prev[b - 1]);
            } else {
            }
        }
        assert forall|x: Time| times@.contains(x) <==> (prev.contains(x) || x == t) by {
            if times@.contains(x) {
                let k = choose|k: int| 0 <= k < times@.len() && times@[k] == x;
                if k < p {
                    assert(prev[k] == x);
                } else if k > p {
                    assert(prev[k - 1] == x);
                }
            }
            if prev.contains(x) {
                let k = choose|k: int| 0 <= k < prev.len() && prev[k] == x;
                if k < p {
                    assert(times@[k] == x);
                } else {
                    assert(times@[k + 1] == x);
                }
            }
            if x == t {
                assert(times@[p as int] == x);
            }
        }
        assert forall|x: Time| times@.contains(x) <==> (old(times)@.contains(x) || x == t) by {
            assert(times@.contains(x) <==> (prev.contains(x) || x == t));
        }
    }
}

/// Every start and end of the intervals, once each, in increasing order.
pub fn cut_points(intervals: Vec<(Time, Time)>) -> (r: Vec<Time>)
    ensures
        strictly_increasing(r@),
        forall|t: Time| r@.contains(t) <==> is_endpoint(intervals@, t),
{
    let mut cuts: Vec<Time> = Vec::new();
    let mut i: usize = 0;
    while i < intervals.len()
        invariant
            i <= intervals@.len(),
            strictly_increasing(cuts@),
            forall|t: Time| cuts@.contains(t) <==> is_endpoint(intervals@.subrange(0, i as int), t),
        decreases intervals@.len() - i,
    {
        let (start, end) = intervals[i];
        insert_unique(&mut cuts, start);
        insert_unique(&mut cuts, end);
        proof {
            let pre = intervals@.subrange(0, i as int);
            let post = intervals@.subrange(0, i + 1);
            assert forall|t: Time| is_endpoint(post, t) <==> (is_endpoint(pre, t) || t == start || t == end) by {
                if is_endpoint(post, t) {
                    let k = choose|k: int| 0 <= k < post.len() && (#[trigger] post[k].0 == t || post[k].1 == t);
                    if k < i {
                        assert(pre[k] == post[k]);
                    }
                }
                if is_endpoint(pre, t) {
                    let k = choose|k: int| 0 <= k < pre.len() && (#[trigger] pre[k].0 == t || pre[k].1 == t);
                    assert(post[k] == pre[k]);
                }
                if t == start || t == end {
                    assert(post[i as int] == (start, end));
                }
            }
        }
        i = i + 1;
    }
    proof {
        assert(intervals@.subrange(0, intervals@.len() as int) == intervals@);
    }
    cuts
}

/// The intervals that are not empty, in their order.
pub open spec fn non_empty(s: Seq<(Time, Time)>) -> Seq<(Time, Time)>
    decreases s.len(),
{
    if s.len() == 0 {
        s
    } else if s.last().1 > s.last().0 {
        non_empty(s.drop_last()).push(s.last())
    } else {
        non_empty(s.drop_last())
    }
}

/// Merges intervals in order: an interval that starts before the end of the
/// last run (or, when `touching`, at its end) extends that run; any other
/// starts a new run.
pub open spec fn merge_runs(s: Seq<(Time, Time)>, touching: bool) -> Seq<(Time, Time)>
    decreases s.len(),
{
    if s.len() == 0 {
        s
    } else {
        let m = merge_runs(s.drop_last(), touching);
        let x = s.last();
        if m.len() > 0 && (x.0 < m.last().1 || (touching && x.0 == m.last().1)) {
            let last = m.last();
            m.update(m.len() - 1, (last.0, if last.1 >= x.1 { last.1 } else { x.1 }))
        } else {
            m.push(x)
        }
    }
}

fn merge_runs_exec(s: &Vec<(Time, Time)>, touching: bool) -> (r: Vec<(Time, Time)>)
    ensures
        r@ == merge_runs(s@, touching),
{
    let mut merged: Vec<(Time, Time)> = Vec::new();
    let mut i: usize = 0;
    while i < s.len()
        invariant
            i <= s@.len(),
            merged@ == merge_runs(s@.subrange(0, i as int), touching),
        decreases s@.len() - i,
    {
        let x = s[i];
        proof {
            assert(s@.subrange(0, i + 1).drop_last() == s@.subrange(0, i as int));
            assert(s@.subrange(0, i + 1).last() == x);
        }
        let n = merged.len();
        if n > 0 && (x.0 < merged[n - 1].1 || (touching && x.0 == merged[n - 1].1)) {
            let last = merged[n - 1];
            let end = if last.1 >= x.1 { last.1 } else { x.1 };
            merged.set(n - 1, (last.0, end));
        } else {
            merged.push(x);
        }
        i = i + 1;
    }
    proof {
        assert(s@.subrange(0, s@.len() as int) == s@);
    }
    merged
}

/// Chunks of continuous audio: the non-empty intervals ordered by start, with
/// overlapping ones merged (touching ones stay apart).
pub fn chunk_intervals(intervals: Vec<(Time, Time)>) -> (r: Vec<(Time, Time)>)
    ensures
        r@ == merge_runs(sort_by_start(non_empty(intervals@)), false),
{
    let mut kept: Vec<(Time, Time)> = Vec::new();
    let mut i: usize = 0;
    while i < intervals.len()
        invariant
            i <= intervals@.len(),
            kept@ == non_empty(intervals@.subrange(0, i as int)),
        decreases intervals@.len() - i,
    {
        let x = intervals[i];
        proof {
            assert(intervals@.subrange(0, i + 1).drop_last() == intervals@.subrange(0, i as int));
            assert(intervals@.subrange(0, i + 1).last() == x);
        }
        if x.1 > x.0 {
            kept.push(x);
        }
        i = i + 1;
    }
    proof {
        assert(intervals@.subrange(0, intervals@.len() as int) == intervals@);
    }
    let sorted = sort_pairs_by_start(&kept);
    merge_runs_exec(&sorted, false)
}

/// Joins chunks that overlap or touch the previous run.
pub fn continuous_intervals(chunks: Vec<(Time, Time)>) -> (r: Vec<(Time, Time)>)
    ensures
        r@ == merge_runs(chunks@, true),
{
    merge_runs_exec(&chunks, true)
}

/// How far a cut lies from a time.
pub open spec fn distance(a: Time, b: Time) -> Time {
    if a >= b { (a - b) as Time } else { (b - a) as Time }
}

/// The closest cut among the first `k` within `tolerance` of `time`, with
/// its distance; among equally close cuts the earliest wins.
pub open spec fn closest_cut(time: Time, cuts: Seq<Time>, tolerance: Time, k: int) -> Option<(Time, Time)>
    decreases k,
{
    if k <= 0 {
        None
    } else {
        let best = closest_cut(time, cuts, tolerance, k - 1);
        let cut = cuts[k - 1];
        let d = distance(cut, time);
        if d <= tolerance && (match best { Some((_, b)) => d < b, None => true }) {
            Some((cut, d))
        } else {
            best
        }
    }
}

/// The time a snap moves `time` to: the closest cut within the tolerance,
/// or `time` itself.
pub open spec fn snapped_time(time: Time, cuts: Seq<Time>, tolerance: Time) -> Time {
    match closest_cut(time, cuts, tolerance, cuts.len() as int) {
        Some((cut, _)) => cut,
        None => time,
    }
}

/// Moves a time to the closest cut within the tolerance.
pub fn snap_time_to_cut(time: Time, cut_points: &Vec<Time>, tolerance: Time) -> (r: Time)
    ensures
        r == snapped_time(time, cut_points@, tolerance),
{
    let mut closest: Option<(Time, Time)> = None;
    let mut i: usize = 0;
    while i < cut_points.len()
        invariant
            i <= cut_points@.len(),
            closest == closest_cut(time, cut_points@, tolerance, i as int),
        decreases cut_points@.len() - i,
    {
        let cut = cut_points[i];
        let d = if cut >= time { cut - time } else { time - cut };
        let better = match closest {
            Some((_, best)) => d < best,
            None => true,
        };
        if d <= tolerance && better {
            closest = Some((cut, d));
        }
        i = i + 1;
    }
    match closest {
        Some((cut, _)) => cut,
        None => time,
    }
}

/// The closest cut is within the tolerance, no cut is closer, and an earlier
/// cut is only as close when none within the tolerance is closer.
pub proof fn law_snap_is_closest(time: Time, cuts: Seq<Time>, tolerance: Time, k: int)
    requires
        0 <= k <= cuts.len(),
    ensures
        closest_cut(time, cuts, tolerance, k) is None <==> forall|m: int| 0 <= m < k ==> distance(
            #[trigger] cuts[m],
            time,
        ) > tolerance,
        closest_cut(time, cuts, tolerance, k) matches Some((cut, d)) ==> {
            &&& d == distance(cut, time)
            &&& d <= tolerance
            &&& exists|j: int| 0 <= j < k && cuts[j] == cut
            &&& forall|m: int| 0 <= m < k && distance(#[trigger] cuts[m], time) <= tolerance ==> d <= distance(
                cuts[m],
                time,
            )
        },
    decreases k,
{
    if k > 0 {
        law_snap_is_closest(time, cuts, tolerance, k - 1);
        let best = closest_cut(time, cuts, tolerance, k - 1);
        let cut = cuts[k - 1];
        let d = distance(cut, time);
        if d <= tolerance && (match best { Some((_, b)) => d < b, None => true }) {
            assert(cuts[k - 1] == cut);
        } else {
            if let Some((c, bd)) = best {
                let j = choose|j: int| 0 <= j < k - 1 && cuts[j] == c;
                assert(0 <= j < k && cuts[j] == c);
            }
        }
    }
}

/// A transcribed stretch of speech.
#[derive(Clone, Debug)]
pub struct TranscribedSegment {
    pub start: Time,
    pub end: Time,
    pub text: String,
}

/// Moves both ends of each segment to the closest cut within the tolerance;
/// nothing moves without cuts or with a zero tolerance.
pub fn snap_segments_to_cuts(segments: &mut Vec<TranscribedSegment>, cut_points: &Vec<Time>, tolerance: Time)
    ensures
        final(segments)@.len() == old(segments)@.len(),
        forall|i: int|
            0 <= i < old(segments)@.len() ==> {
                &&& (#[trigger] final(segments)@[i]).text@ == old(segments)@[i].text@
                &&& final(segments)@[i].start == if cut_points@.len() == 0 || tolerance == 0 {
                    old(segments)@[i].start
                } else {
                    snapped_time(old(segments)@[i].start, cut_points@, tolerance)
                }
                &&& final(segments)@[i].end == if cut_points@.len() == 0 || tolerance == 0 {
                    old(segments)@[i].end
                } else {
                    snapped_time(old(segments)@[i].end, cut_points@, tolerance)
                }
            },
{
    if cut_points.len() == 0 || tolerance == 0 {
        return;
    }
    let mut i: usize = 0;
    while i < segments.len()
        invariant
            i <= segments@.len(),
            segments@.len() == old(segments)@.len(),
            cut_points@.len() > 0,
            tolerance > 0,
            forall|k: int|
                i <= k < segments@.len() ==> #[trigger] segments@[k] == old(segments)@[k],
            forall|k: int|
                0 <= k < i ==> {
                    &&& (#[trigger] segments@[k]).text@ == old(segments)@[k].text@
                    &&& segments@[k].start == snapped_time(old(segments)@[k].start, cut_points@, tolerance)
                    &&& segments@[k].end == snapped_time(old(segments)@[k].end, cut_points@, tolerance)
                },
        decreases segments@.len() - i,
    {
        let start = snap_time_to_cut(segments[i].start, cut_points, tolerance);
        let end = snap_time_to_cut(segments[i].end, cut_points, tolerance);
        let segment = &mut segments[i];
        segment.start = start;
        segment.end = end;
        i = i + 1;
    }
}

/// `a - b`, or zero where `b` is larger.
pub open spec fn sat_sub(a: Time, b: Time) -> Time {
    if a >= b { (a - b) as Time } else { 0 }
}

/// Whether the chunk at `index` joins the one before it: they touch and
/// together stay within the threshold.
pub open spec fn joins_previous(chunks: Seq<(Time, Time)>, index: int, threshold: Time) -> bool {
    index > 0 && chunks[index - 1].1 == chunks[index].0 && sat_sub(chunks[index].1, chunks[index - 1].0) <= threshold
}

/// Whether the chunk at `index` joins the one after it: they touch and
/// together stay within the threshold.
pub open spec fn joins_next(chunks: Seq<(Time, Time)>, index: int, threshold: Time) -> bool {
    index + 1 < chunks.len() && chunks[index].1 == chunks[index + 1].0 && sat_sub(chunks[index + 1].1, chunks[index].0)
        <= threshold
}

/// The chunk at `index` merged into the one before it.
pub open spec fn merged_into_previous(chunks: Seq<(Time, Time)>, index: int) -> Seq<(Time, Time)> {
    chunks.update(index - 1, (chunks[index - 1].0, chunks[index].1)).remove(index)
}

/// The chunk at `index` merged into the one after it.
pub open spec fn merged_into_next(chunks: Seq<(Time, Time)>, index: int) -> Seq<(Time, Time)> {
    chunks.update(index + 1, (chunks[index].0, chunks[index + 1].1)).remove(index)
}

/// Walks the chunks from `index` on, merging each chunk no longer than the
/// threshold into a touching neighbour when the merged chunk stays within
/// the threshold; where both neighbours qualify, the shorter merge wins, the
/// previous one on a tie.
pub open spec fn absorb_from(chunks: Seq<(Time, Time)>, index: int, threshold: Time) -> Seq<(Time, Time)>
    decreases 2 * chunks.len() - index,
{
    if !(chunks.len() > 1 && 0 <= index < chunks.len()) {
        chunks
    } else if sat_sub(chunks[index].1, chunks[index].0) > threshold {
        absorb_from(chunks, index + 1, threshold)
    } else {
        let previous = joins_previous(chunks, index, threshold);
        let next = joins_next(chunks, index, threshold);
        if previous && (!next || sat_sub(chunks[index].1, chunks[index - 1].0) <= sat_sub(
            chunks[index + 1].1,
            chunks[index].0,
        )) {
            absorb_from(merged_into_previous(chunks, index), index - 1, threshold)
        } else if next {
            absorb_from(merged_into_next(chunks, index), index, threshold)
        } else {
            absorb_from(chunks, index + 1, threshold)
        }
    }
}

/// Merges chunks no longer than the threshold into touching neighbours.
pub fn absorb_short_chunks(chunks: Vec<(Time, Time)>, threshold: Time) -> (r: Vec<(Time, Time)>)
    ensures
        r@ == if threshold == 0 { chunks@ } else { absorb_from(chunks@, 0, threshold) },
{
    if threshold == 0 {
        return chunks;
    }
    let mut chunks = chunks;
    let ghost target = absorb_from(chunks@, 0, threshold);
    let mut index: usize = 0;
    while chunks.len() > 1 && index < chunks.len()
        invariant
            index <= chunks@.len(),
            absorb_from(chunks@, index as int, threshold) == target,
        decreases 2 * chunks@.len() - index,
    {
        let current = chunks[index];
        let duration = current.1.saturating_sub(current.0);
        if duration > threshold {
            index = index + 1;
            continue;
        }
        let previous = index > 0 && chunks[index - 1].1 == current.0 && current.1.saturating_sub(chunks[index - 1].0)
            <= threshold;
        let next = index + 1 < chunks.len() && current.1 == chunks[index + 1].0 && chunks[index + 1].1.saturating_sub(
            current.0,
        ) <= threshold;
        proof {
            assert(previous == joins_previous(chunks@, index as int, threshold));
            assert(next == joins_next(chunks@, index as int, threshold));
        }
        let take_previous = if previous && next {
            let previous_duration = current.1.saturating_sub(chunks[index - 1].0);
            let next_duration = chunks[index + 1].1.saturating_sub(current.0);
            previous_duration <= next_duration
        } else {
            previous
        };
        if take_previous {
            let before = chunks[index - 1];
            chunks.set(index - 1, (before.0, current.1));
            chunks.remove(index);
            index = index - 1;
        } else if next {
            let after = chunks[index + 1];
            chunks.set(index + 1, (current.0, after.1));
            chunks.remove(index);
        } else {
            index = index + 1;
        }
    }
    chunks
}

/// Whether the audio item at `(track_index, item_index)` is part of what is
/// transcribed: the whole track where audio tracks are selected, else the
/// selected items.
pub open spec fn audio_item_selected(
    selected_items: Seq<ItemKey>,
    selected_tracks: Seq<TrackKey>,
    track_index: int,
    item_index: int,
) -> bool {
    if exists|m: int| 0 <= m < selected_tracks.len() && (#[trigger] selected_tracks[m]).kind == TrackKind::Audio {
        exists|m: int|
            0 <= m < selected_tracks.len() && (#[trigger] selected_tracks[m]).kind == TrackKind::Audio
                && selected_tracks[m].track_index == track_index
    } else {
        exists|m: int|
            0 <= m < selected_items.len() && (#[trigger] selected_items[m]).kind == TrackKind::Audio
                && selected_items[m].track_index == track_index && selected_items[m].item_index == item_index
    }
}

/// The first `k` items of audio track `track_index` that are transcribed.
pub open spec fn kept_audio_items(
    items: Seq<Item>,
    selected_items: Seq<ItemKey>,
    selected_tracks: Seq<TrackKey>,
    track_index: int,
    k: int,
) -> Seq<Item>
    decreases k,
{
    if k <= 0 {
        Seq::empty()
    } else {
        let prev = kept_audio_items(items, selected_items, selected_tracks, track_index, k - 1);
        if audio_item_selected(selected_items, selected_tracks, track_index, k - 1) {
            prev.push(items[k - 1])
        } else {
            prev
        }
    }
}

/// The time ranges of the items.
pub open spec fn item_ranges(items: Seq<Item>) -> Seq<(Time, Time)> {
    items.map_values(|item: Item| (item.start, item.end))
}

/// The ranges of the transcribed items of the first `t` audio tracks.
pub open spec fn selected_audio_ranges(
    tracks: Seq<Track>,
    selected_items: Seq<ItemKey>,
    selected_tracks: Seq<TrackKey>,
    t: int,
) -> Seq<(Time, Time)>
    decreases t,
{
    if t <= 0 {
        Seq::empty()
    } else {
        selected_audio_ranges(tracks, selected_items, selected_tracks, t - 1) + item_ranges(
            kept_audio_items(tracks[t - 1].items@, selected_items, selected_tracks, t - 1, tracks[t - 1].items@.len() as int),
        )
    }
}

/// The ranges of all items of the first `t` tracks.
pub open spec fn all_ranges(tracks: Seq<Track>, t: int) -> Seq<(Time, Time)>
    decreases t,
{
    if t <= 0 {
        Seq::empty()
    } else {
        all_ranges(tracks, t - 1) + item_ranges(tracks[t - 1].items@)
    }
}

/// The earliest start and latest end of the ranges, if there are any.
pub open spec fn span_of(ranges: Seq<(Time, Time)>) -> Option<(Time, Time)>
    decreases ranges.len(),
{
    if ranges.len() == 0 {
        None
    } else {
        let (start, end) = ranges.last();
        match span_of(ranges.drop_last()) {
            Some((s, e)) => Some((if start < s { start } else { s }, if end > e { end } else { e })),
            None => Some((start, end)),
        }
    }
}

/// The audio that a transcription works on: a project with only the
/// transcribed audio items, their span, their chunks and the cut points of
/// the audio and of the video.
#[derive(Clone, Debug)]
pub struct SelectedAudioProject {
    pub project: Project,
    pub start: Time,
    pub end: Time,
    pub chunks: Vec<(Time, Time)>,
    pub audio_cut_points: Vec<Time>,
    pub video_cut_points: Vec<Time>,
}

proof fn lemma_span_push(ranges: Seq<(Time, Time)>, x: (Time, Time))
    ensures
        span_of(ranges.push(x)) == (match span_of(ranges) {
            Some((s, e)) => Some((if x.0 < s { x.0 } else { s }, if x.1 > e { x.1 } else { e })),
            None => Some(x),
        }),
{
    assert(ranges.push(x).drop_last() == ranges);
}

fn copy_ranges(v: &Vec<(Time, Time)>) -> (r: Vec<(Time, Time)>)
    ensures
        r@ == v@,
{
    let mut r: Vec<(Time, Time)> = Vec::new();
    let mut i: usize = 0;
    while i < v.len()
        invariant
            i <= v@.len(),
            r@ == v@.subrange(0, i as int),
        decreases v@.len() - i,
    {
        r.push(v[i]);
        proof {
            assert(v@.subrange(0, i + 1) == v@.subrange(0, i as int).push(v@[i as int]));
        }
        i = i + 1;
    }
    proof {
        assert(v@.subrange(0, v@.len() as int) == v@);
    }
    r
}

/// Gathers the audio to transcribe: the selected audio items (or whole
/// selected audio tracks), with their span, chunks and cut points; none when
/// nothing is selected.
pub fn selected_audio_project(project: &Project, selected_items: &Vec<ItemKey>, selected_tracks: &Vec<TrackKey>) -> (r: Option<SelectedAudioProject>)
    ensures
        ({
            let ranges = selected_audio_ranges(project.audio_tracks@, selected_items@, selected_tracks@, project.audio_tracks@.len() as int);
            let video = all_ranges(project.video_tracks@, project.video_tracks@.len() as int);
            &&& r is None <==> ranges.len() == 0
            &&& r matches Some(selected) ==> {
                &&& span_of(ranges) == Some((selected.start, selected.end))
                &&& selected.chunks@ == merge_runs(sort_by_start(non_empty(ranges)), false)
                &&& strictly_increasing(selected.audio_cut_points@)
                &&& forall|t: Time| #[trigger] selected.audio_cut_points@.contains(t) <==> is_endpoint(ranges, t)
                &&& strictly_increasing(selected.video_cut_points@)
                &&& forall|t: Time| #[trigger] selected.video_cut_points@.contains(t) <==> is_endpoint(video, t)
                &&& selected.project.canvas_size == project.canvas_size
                &&& selected.project.fps == project.fps
                &&& selected.project.folded_sequences@.len() == 0
                &&& selected.project.caption_tracks@.len() == 0
                &&& selected.project.video_tracks@.len() == 0
                &&& selected.project.audio_tracks@.len() == project.audio_tracks@.len()
                &&& forall|t: int|
                    0 <= t < project.audio_tracks@.len() ==> {
                        &&& (#[trigger] selected.project.audio_tracks@[t]).id == project.audio_tracks@[t].id
                        &&& selected.project.audio_tracks@[t].enabled == project.audio_tracks@[t].enabled
                        &&& selected.project.audio_tracks@[t].unity_gain == project.audio_tracks@[t].unity_gain
                        &&& selected.project.audio_tracks@[t].items@ == kept_audio_items(
                            project.audio_tracks@[t].items@,
                            selected_items@,
                            selected_tracks@,
                            t,
                            project.audio_tracks@[t].items@.len() as int,
                        )
                    }
            }
        }),
{
    // Every video range, for the video cut points.
    let mut video_ranges: Vec<(Time, Time)> = Vec::new();
    let mut v: usize = 0;
    while v < project.video_tracks.len()
        invariant
            v <= project.video_tracks@.len(),
            video_ranges@ == all_ranges(project.video_tracks@, v as int),
        decreases project.video_tracks@.len() - v,
    {
        let items = &project.video_tracks[v].items;
        let ghost base = video_ranges@;
        let mut i: usize = 0;
        while i < items.len()
            invariant
                v < project.video_tracks@.len(),
                items@ == project.video_tracks@[v as int].items@,
                i <= items@.len(),
                video_ranges@ == base + item_ranges(items@.subrange(0, i as int)),
            decreases items@.len() - i,
        {
            video_ranges.push((items[i].start, items[i].end));
            proof {
                assert(item_ranges(items@.subrange(0, i + 1)) == item_ranges(items@.subrange(0, i as int)).push((items@[i as int].start, items@[i as int].end)));
            }
            i = i + 1;
        }
        proof {
            assert(items@.subrange(0, items@.len() as int) == items@);
        }
        v = v + 1;
    }
    let video_cut_points = cut_points(video_ranges);

    // Whether whole audio tracks are selected.
    let mut tracks_selected = false;
    let mut m: usize = 0;
    while m < selected_tracks.len()
        invariant
            m <= selected_tracks@.len(),
            tracks_selected == exists|q: int| 0 <= q < m && (#[trigger] selected_tracks@[q]).kind == TrackKind::Audio,
        decreases selected_tracks@.len() - m,
    {
        if selected_tracks[m].kind == TrackKind::Audio {
            tracks_selected = true;
        }
        m = m + 1;
    }

    let mut span: Option<(Time, Time)> = None;
    let mut ranges: Vec<(Time, Time)> = Vec::new();
    let mut audio_tracks: Vec<Track> = Vec::new();
    let mut t: usize = 0;
    while t < project.audio_tracks.len()
        invariant
            t <= project.audio_tracks@.len(),
            tracks_selected == exists|q: int| 0 <= q < selected_tracks@.len() && (#[trigger] selected_tracks@[q]).kind == TrackKind::Audio,
            ranges@ == selected_audio_ranges(project.audio_tracks@, selected_items@, selected_tracks@, t as int),
            span == span_of(ranges@),
            audio_tracks@.len() == t,
            forall|q: int|
                0 <= q < t ==> {
                    &&& (#[trigger] audio_tracks@[q]).id == project.audio_tracks@[q].id
                    &&& audio_tracks@[q].enabled == project.audio_tracks@[q].enabled
                    &&& audio_tracks@[q].unity_gain == project.audio_tracks@[q].unity_gain
                    &&& audio_tracks@[q].items@ == kept_audio_items(
                        project.audio_tracks@[q].items@,
                        selected_items@,
                        selected_tracks@,
                        q,
                        project.audio_tracks@[q].items@.len() as int,
                    )
                },
        decreases project.audio_tracks@.len() - t,
    {
        let track = &project.audio_tracks[t];
        let ghost base = ranges@;
        let mut kept: Vec<Item> = Vec::new();
        let mut i: usize = 0;
        while i < track.items.len()
            invariant
                t < project.audio_tracks@.len(),
                *track == project.audio_tracks@[t as int],
                i <= track.items@.len(),
                tracks_selected == exists|q: int| 0 <= q < selected_tracks@.len() && (#[trigger] selected_tracks@[q]).kind == TrackKind::Audio,
                kept@ == kept_audio_items(track.items@, selected_items@, selected_tracks@, t as int, i as int),
                ranges@ == base + item_ranges(kept@),
                span == span_of(ranges@),
            decreases track.items@.len() - i,
        {
            let mut selected = false;
            if tracks_selected {
                let mut q: usize = 0;
                while q < selected_tracks.len()
                    invariant
                        q <= selected_tracks@.len(),
                        selected == exists|w: int|
                            0 <= w < q && (#[trigger] selected_tracks@[w]).kind == TrackKind::Audio && selected_tracks@[w].track_index == t,
                    decreases selected_tracks@.len() - q,
                {
                    if selected_tracks[q].kind == TrackKind::Audio && selected_tracks[q].track_index == t {
                        selected = true;
                    }
                    q = q + 1;
                }
            } else {
                let mut q: usize = 0;
                while q < selected_items.len()
                    invariant
                        q <= selected_items@.len(),
                        selected == exists|w: int|
                            0 <= w < q && (#[trigger] selected_items@[w]).kind == TrackKind::Audio && selected_items@[w].track_index == t
                                && selected_items@[w].item_index == i,
                    decreases selected_items@.len() - q,
                {
                    if selected_items[q].kind == TrackKind::Audio && selected_items[q].track_index == t && selected_items[q].item_index == i {
                        selected = true;
                    }
                    q = q + 1;
                }
            }
            proof {
                assert(selected == audio_item_selected(selected_items@, selected_tracks@, t as int, i as int));
            }
            if selected {
                let item = track.items[i];
                span = match span {
                    Some((s, e)) => Some((if item.start < s { item.start } else { s }, if item.end > e { item.end } else { e })),
                    None => Some((item.start, item.end)),
                };
                let ghost before = ranges@;
                ranges.push((item.start, item.end));
                kept.push(item);
                proof {
                    lemma_span_push(before, (item.start, item.end));
                    assert(item_ranges(kept@) == item_ranges(kept@.drop_last()).push((item.start, item.end)));
                    assert(kept@.drop_last() =~= kept_audio_items(track.items@, selected_items@, selected_tracks@, t as int, i as int));
                }
            }
            i = i + 1;
        }
        audio_tracks.push(Track { id: track.id, enabled: track.enabled, unity_gain: track.unity_gain, items: kept });
        proof {
            assert(selected_audio_ranges(project.audio_tracks@, selected_items@, selected_tracks@, t + 1) == base + item_ranges(
                kept_audio_items(track.items@, selected_items@, selected_tracks@, t as int, track.items@.len() as int),
            ));
        }
        t = t + 1;
    }
    let (start, end) = match span {
        Some(s) => s,
        None => {
            proof {
                if ranges@.len() > 0 {
                    assert(span_of(ranges@) is Some);
                }
            }
            return None;
        },
    };
    let chunk_source = copy_ranges(&ranges);
    let chunks = chunk_intervals(chunk_source);
    let audio_cut_points = cut_points(ranges);
    Some(SelectedAudioProject {
        project: Project {
            canvas_size: project.canvas_size,
            fps: project.fps,
            caption_tracks: Vec::new(),
            video_tracks: Vec::new(),
            audio_tracks: audio_tracks,
            folded_sequences: Vec::new(),
        },
        start: start,
        end: end,
        chunks: chunks,
        audio_cut_points: audio_cut_points,
        video_cut_points: video_cut_points,
    })
}

// ----- what the chunks cover -----

proof fn lemma_cover_push(s: Seq<(Time, Time)>, x: (Time, Time), t: int)
    ensures
        ranges_cover(s.push(x), t) <==> (ranges_cover(s, t) || range_holds(x.0, x.1, t)),
{
    let out = s.push(x);
    if ranges_cover(out, t) {
        let i = choose|i: int| 0 <= i < out.len() && #[trigger] range_holds(out[i].0, out[i].1, t);
        if i < s.len() {
            assert(out[i] == s[i]);
        }
    }
    if ranges_cover(s, t) {
        let i = choose|i: int| 0 <= i < s.len() && #[trigger] range_holds(s[i].0, s[i].1, t);
        assert(out[i] == s[i]);
    }
    if range_holds(x.0, x.1, t) {
        assert(out[s.len() as int] == x);
    }
}

proof fn lemma_cover_insert(s: Seq<(Time, Time)>, p: int, x: (Time, Time), t: int)
    requires
        0 <= p <= s.len(),
    ensures
        ranges_cover(s.insert(p, x), t) <==> (ranges_cover(s, t) || range_holds(x.0, x.1, t)),
{
    let out = s.insert(p, x);
    if ranges_cover(out, t) {
        let i = choose|i: int| 0 <= i < out.len() && #[trigger] range_holds(out[i].0, out[i].1, t);
        if i < p {
            assert(out[i] == s[i]);
        } else if i > p {
            assert(out[i] == s[i - 1]);
        }
    }
    if ranges_cover(s, t) {
        let i = choose|i: int| 0 <= i < s.len() && #[trigger] range_holds(s[i].0, s[i].1, t);
        if i < p {
            assert(out[i] == s[i]);
        } else {
            assert(out[i + 1] == s[i]);
        }
    }
    if range_holds(x.0, x.1, t) {
        assert(out[p] == x);
    }
}

proof fn lemma_non_empty_cover(s: Seq<(Time, Time)>, t: int)
    ensures
        ranges_cover(non_empty(s), t) <==> ranges_cover(s, t),
    decreases s.len(),
{
    if s.len() > 0 {
        lemma_non_empty_cover(s.drop_last(), t);
        lemma_cover_push(s.drop_last(), s.last(), t);
        assert(s == s.drop_last().push(s.last()));
        if s.last().1 > s.last().0 {
            lemma_cover_push(non_empty(s.drop_last()), s.last(), t);
        }
    } else {
        assert(non_empty(s) == s);
    }
}

proof fn lemma_sort_cover(s: Seq<(Time, Time)>, t: int)
    ensures
        ranges_cover(sort_by_start(s), t) <==> ranges_cover(s, t),
    decreases s.len(),
{
    if s.len() > 0 {
        lemma_sort_cover(s.drop_last(), t);
        let rest = sort_by_start(s.drop_last());
        lemma_first_start_props(rest, s.last().0);
        lemma_cover_insert(rest, first_start_after(rest, s.last().0), s.last(), t);
        lemma_cover_push(s.drop_last(), s.last(), t);
        assert(s == s.drop_last().push(s.last()));
    }
}

/// Merging intervals ordered by start covers the same times, each run
/// starting where one of the intervals starts.
proof fn lemma_merge_cover(s: Seq<(Time, Time)>, touching: bool, t: int)
    requires
        pairs_sorted_by_start(s),
    ensures
        ranges_cover(merge_runs(s, touching), t) <==> ranges_cover(s, t),
        forall|k: int| 0 <= k < merge_runs(s, touching).len() ==> exists|j: int|
            0 <= j < s.len() && #[trigger] merge_runs(s, touching)[k].0 == s[j].0,
    decreases s.len(),
{
    if s.len() > 0 {
        let rest = s.drop_last();
        assert(pairs_sorted_by_start(rest)) by {
            assert forall|i: int, j: int| 0 <= i < j < rest.len() implies #[trigger] rest[i].0 <= #[trigger] rest[j].0 by {
                assert(rest[i] == s[i] && rest[j] == s[j]);
            }
        }
        lemma_merge_cover(rest, touching, t);
        let m = merge_runs(rest, touching);
        let x = s.last();
        let out = merge_runs(s, touching);
        assert(s == rest.push(x));
        lemma_cover_push(rest, x, t);
        assert forall|k: int| 0 <= k < m.len() implies exists|j: int| 0 <= j < s.len() && #[trigger] m[k].0 == s[j].0 by {
            let j = choose|j: int| 0 <= j < rest.len() && #[trigger] m[k].0 == rest[j].0;
            assert(rest[j] == s[j]);
        }
        if m.len() > 0 && (x.0 < m.last().1 || (touching && x.0 == m.last().1)) {
            let last = m.last();
            let j = choose|j: int| 0 <= j < rest.len() && #[trigger] m[m.len() - 1].0 == rest[j].0;
            assert(rest[j] == s[j]);
            assert(s[j].0 <= s[s.len() - 1].0);
            let merged = (last.0, if last.1 >= x.1 { last.1 } else { x.1 });
            let front = m.drop_last();
            assert(m == front.push(last));
            assert(out == front.push(merged));
            lemma_cover_push(front, last, t);
            lemma_cover_push(front, merged, t);
            assert forall|k: int| 0 <= k < out.len() implies exists|j: int| 0 <= j < s.len() && #[trigger] out[k].0 == s[j].0 by {
                if k < out.len() - 1 {
                    assert(out[k] == m[k]);
                } else {
                    assert(out[k].0 == m[m.len() - 1].0);
                }
            }
        } else {
            assert(out == m.push(x));
            lemma_cover_push(m, x, t);
            assert forall|k: int| 0 <= k < out.len() implies exists|j: int| 0 <= j < s.len() && #[trigger] out[k].0 == s[j].0 by {
                if k < out.len() - 1 {
                    assert(out[k] == m[k]);
                } else {
                    assert(out[k].0 == s[s.len() - 1].0);
                }
            }
        }
    }
}

/// The chunks of the audio to transcribe cover exactly the times that the
/// selected audio covers.
pub proof fn law_chunks_cover_the_audio(intervals: Seq<(Time, Time)>, t: int)
    ensures
        ranges_cover(merge_runs(sort_by_start(non_empty(intervals)), false), t) <==> ranges_cover(intervals, t),
{
    let kept = non_empty(intervals);
    lemma_non_empty_cover(intervals, t);
    lemma_sort_cover(kept, t);
    lemma_sort_by_start(kept);
    lemma_merge_cover(sort_by_start(kept), false, t);
}

/// Joining touching chunks covers the same times as the chunks, where the
/// chunks are ordered by start.
pub proof fn law_continuous_runs_cover_the_chunks(chunks: Seq<(Time, Time)>, t: int)
    requires
        pairs_sorted_by_start(chunks),
    ensures
        ranges_cover(merge_runs(chunks, true), t) <==> ranges_cover(chunks, t),
{
    lemma_merge_cover(chunks, true, t);
}

/// Runs that each start no later than they end, each ending before the next
/// starts.
pub open spec fn runs_separated(r: Seq<(Time, Time)>) -> bool {
    &&& forall|k: int| 0 <= k < r.len() ==> #[trigger] r[k].0 <= r[k].1
    &&& forall|k: int| 0 < k < r.len() ==> #[trigger] r[k - 1].1 < r[k].0
}

/// Joining touching intervals that each start no later than they end gives
/// separated runs, never more of them than there were intervals.
proof fn lemma_merge_touching_separated(s: Seq<(Time, Time)>)
    requires
        forall|k: int| 0 <= k < s.len() ==> #[trigger] s[k].0 <= s[k].1,
    ensures
        runs_separated(merge_runs(s, true)),
        merge_runs(s, true).len() <= s.len(),
    decreases s.len(),
{
    if s.len() > 0 {
        let rest = s.drop_last();
        assert forall|k: int| 0 <= k < rest.len() implies #[trigger] rest[k].0 <= rest[k].1 by {
            assert(rest[k] == s[k]);
        }
        lemma_merge_touching_separated(rest);
        let m = merge_runs(rest, true);
        let x = s.last();
        let out = merge_runs(s, true);
        assert(x.0 <= x.1);
        if m.len() > 0 && (x.0 < m.last().1 || x.0 == m.last().1) {
            assert forall|k: int| 0 < k < out.len() implies #[trigger] out[k - 1].1 < out[k].0 by {
                if k < out.len() - 1 {
                    assert(out[k] == m[k] && out[k - 1] == m[k - 1]);
                } else {
                    assert(out[k - 1] == m[k - 1]);
                    assert(out[k].0 == m[k].0);
                }
            }
            assert forall|k: int| 0 <= k < out.len() implies #[trigger] out[k].0 <= out[k].1 by {
                if k < out.len() - 1 {
                    assert(out[k] == m[k]);
                }
            }
        } else {
            assert(out == m.push(x));
            assert forall|k: int| 0 < k < out.len() implies #[trigger] out[k - 1].1 < out[k].0 by {
                if k < out.len() - 1 {
                    assert(out[k] == m[k] && out[k - 1] == m[k - 1]);
                } else {
                    assert(out[k - 1] == m.last());
                }
            }
            assert forall|k: int| 0 <= k < out.len() implies #[trigger] out[k].0 <= out[k].1 by {
                if k < out.len() - 1 {
                    assert(out[k] == m[k]);
                }
            }
        }
    }
}

/// Separated runs are left as they are by joining touching intervals.
proof fn lemma_merge_touching_fixed(r: Seq<(Time, Time)>)
    requires
        runs_separated(r),
    ensures
        merge_runs(r, true) == r,
    decreases r.len(),
{
    if r.len() > 0 {
        let rest = r.drop_last();
        assert(runs_separated(rest)) by {
            assert forall|k: int| 0 <= k < rest.len() implies #[trigger] rest[k].0 <= rest[k].1 by {
                assert(rest[k] == r[k]);
            }
            assert forall|k: int| 0 < k < rest.len() implies #[trigger] rest[k - 1].1 < rest[k].0 by {
                assert(rest[k] == r[k] && rest[k - 1] == r[k - 1]);
            }
        }
        lemma_merge_touching_fixed(rest);
        if rest.len() > 0 {
            assert(r[r.len() - 2].1 < r[r.len() - 1].0);
            assert(rest.last() == r[r.len() - 2]);
        }
        assert(r == rest.push(r.last()));
    }
}

/// Joining touching chunks (ordered by start, each starting no later than it
/// ends) gives runs that each end before the next starts, cover the same
/// times as the chunks, are no more than the chunks, and that joining again
/// leaves as they are.
pub proof fn law_continuous_runs_are_separated(chunks: Seq<(Time, Time)>)
    requires
        pairs_sorted_by_start(chunks),
        forall|k: int| 0 <= k < chunks.len() ==> #[trigger] chunks[k].0 <= chunks[k].1,
    ensures
        runs_separated(merge_runs(chunks, true)),
        forall|t: int| ranges_cover(merge_runs(chunks, true), t) <==> ranges_cover(chunks, t),
        merge_runs(chunks, true).len() <= chunks.len(),
        merge_runs(merge_runs(chunks, true), true) == merge_runs(chunks, true),
{
    lemma_merge_touching_separated(chunks);
    lemma_merge_touching_fixed(merge_runs(chunks, true));
    assert forall|t: int| ranges_cover(merge_runs(chunks, true), t) <==> ranges_cover(chunks, t) by {
        lemma_merge_cover(chunks, true, t);
    }
}

/// Chunks that each start no later than they end.
pub open spec fn chunks_ordered_within(chunks: Seq<(Time, Time)>) -> bool {
    forall|k: int| 0 <= k < chunks.len() ==> #[trigger] chunks[k].0 <= chunks[k].1
}

/// Whether the chunk at `index` is left as it is by absorbing: it is longer
/// than the threshold, or neither neighbour can take it in.
pub open spec fn chunk_settled(chunks: Seq<(Time, Time)>, index: int, threshold: Time) -> bool {
    sat_sub(chunks[index].1, chunks[index].0) > threshold || (!joins_previous(chunks, index, threshold) && !joins_next(
        chunks,
        index,
        threshold,
    ))
}

/// Merging a chunk into the touching chunk before it covers the same times.
proof fn lemma_merge_previous_cover(chunks: Seq<(Time, Time)>, index: int, t: int)
    requires
        chunks_ordered_within(chunks),
        0 < index < chunks.len(),
        chunks[index - 1].1 == chunks[index].0,
    ensures
        ranges_cover(merged_into_previous(chunks, index), t) <==> ranges_cover(chunks, t),
        chunks_ordered_within(merged_into_previous(chunks, index)),
{
    let out = merged_into_previous(chunks, index);
    assert(chunks[index - 1].0 <= chunks[index - 1].1);
    assert(chunks[index].0 <= chunks[index].1);
    assert forall|k: int| 0 <= k < out.len() implies #[trigger] out[k].0 <= out[k].1 by {
        if k < index - 1 {
            assert(out[k] == chunks[k]);
        } else if k >= index {
            assert(out[k] == chunks[k + 1]);
        }
    }
    if ranges_cover(chunks, t) {
        let k = choose|k: int| 0 <= k < chunks.len() && #[trigger] range_holds(chunks[k].0, chunks[k].1, t);
        if k < index - 1 {
            assert(out[k] == chunks[k]);
            assert(range_holds(out[k].0, out[k].1, t));
        } else if k > index {
            assert(out[k - 1] == chunks[k]);
            assert(range_holds(out[k - 1].0, out[k - 1].1, t));
        } else {
            assert(range_holds(out[index - 1].0, out[index - 1].1, t));
        }
    }
    if ranges_cover(out, t) {
        let k = choose|k: int| 0 <= k < out.len() && #[trigger] range_holds(out[k].0, out[k].1, t);
        if k < index - 1 {
            assert(out[k] == chunks[k]);
            assert(range_holds(chunks[k].0, chunks[k].1, t));
        } else if k >= index {
            assert(out[k] == chunks[k + 1]);
            assert(range_holds(chunks[k + 1].0, chunks[k + 1].1, t));
        } else if t < chunks[index - 1].1 {
            assert(range_holds(chunks[index - 1].0, chunks[index - 1].1, t));
        } else {
            assert(range_holds(chunks[index].0, chunks[index].1, t));
        }
    }
}

/// Merging a chunk into the touching chunk after it covers the same times.
proof fn lemma_merge_next_cover(chunks: Seq<(Time, Time)>, index: int, t: int)
    requires
        chunks_ordered_within(chunks),
        0 <= index < chunks.len() - 1,
        chunks[index].1 == chunks[index + 1].0,
    ensures
        ranges_cover(merged_into_next(chunks, index), t) <==> ranges_cover(chunks, t),
        chunks_ordered_within(merged_into_next(chunks, index)),
{
    let out = merged_into_next(chunks, index);
    assert(chunks[index].0 <= chunks[index].1);
    assert(chunks[index + 1].0 <= chunks[index + 1].1);
    assert forall|k: int| 0 <= k < out.len() implies #[trigger] out[k].0 <= out[k].1 by {
        if k < index {
            assert(out[k] == chunks[k]);
        } else if k > index {
            assert(out[k] == chunks[k + 1]);
        }
    }
    if ranges_cover(chunks, t) {
        let k = choose|k: int| 0 <= k < chunks.len() && #[trigger] range_holds(chunks[k].0, chunks[k].1, t);
        if k < index {
            assert(out[k] == chunks[k]);
            assert(range_holds(out[k].0, out[k].1, t));
        } else if k > index + 1 {
            assert(out[k - 1] == chunks[k]);
            assert(range_holds(out[k - 1].0, out[k - 1].1, t));
        } else {
            assert(range_holds(out[index].0, out[index].1, t));
        }
    }
    if ranges_cover(out, t) {
        let k = choose|k: int| 0 <= k < out.len() && #[trigger] range_holds(out[k].0, out[k].1, t);
        if k < index {
            assert(out[k] == chunks[k]);
            assert(range_holds(chunks[k].0, chunks[k].1, t));
        } else if k > index {
            assert(out[k] == chunks[k + 1]);
            assert(range_holds(chunks[k + 1].0, chunks[k + 1].1, t));
        } else if t < chunks[index].1 {
            assert(range_holds(chunks[index].0, chunks[index].1, t));
        } else {
            assert(range_holds(chunks[index + 1].0, chunks[index + 1].1, t));
        }
    }
}

/// Absorbing from `index` on, where every chunk before `index` is settled,
/// keeps the times covered and leaves every chunk settled.
proof fn lemma_absorb_from(chunks: Seq<(Time, Time)>, index: int, threshold: Time)
    requires
        chunks_ordered_within(chunks),
        0 <= index,
        forall|j: int| 0 <= j < index && j < chunks.len() ==> chunk_settled(chunks, j, threshold),
    ensures
        chunks_ordered_within(absorb_from(chunks, index, threshold)),
        forall|t: int| ranges_cover(absorb_from(chunks, index, threshold), t) <==> ranges_cover(chunks, t),
        absorb_from(chunks, index, threshold).len() <= 1 || forall|j: int|
            0 <= j < absorb_from(chunks, index, threshold).len() ==> chunk_settled(
                absorb_from(chunks, index, threshold),
                j,
                threshold,
            ),
    decreases 2 * chunks.len() - index,
{
    if !(chunks.len() > 1 && 0 <= index < chunks.len()) {
    } else if sat_sub(chunks[index].1, chunks[index].0) > threshold {
        lemma_absorb_from(chunks, index + 1, threshold);
    } else {
        let previous = joins_previous(chunks, index, threshold);
        let next = joins_next(chunks, index, threshold);
        if previous && (!next || sat_sub(chunks[index].1, chunks[index - 1].0) <= sat_sub(
            chunks[index + 1].1,
            chunks[index].0,
        )) {
            let out = merged_into_previous(chunks, index);
            assert forall|t: int| ranges_cover(out, t) <==> ranges_cover(chunks, t) by {
                lemma_merge_previous_cover(chunks, index, t);
            }
            lemma_merge_previous_cover(chunks, index, 0);
            assert forall|j: int| 0 <= j < index - 1 && j < out.len() implies chunk_settled(out, j, threshold) by {
                assert(chunk_settled(chunks, j, threshold));
                assert(out[j] == chunks[j]);
                if j > 0 {
                    assert(out[j - 1] == chunks[j - 1]);
                }
                assert(chunks[index].0 <= chunks[index].1);
                if j + 1 == index - 1 {
                    assert(out[j + 1] == (chunks[index - 1].0, chunks[index].1));
                } else {
                    assert(out[j + 1] == chunks[j + 1]);
                }
            }
            lemma_absorb_from(out, index - 1, threshold);
        } else if next {
            let out = merged_into_next(chunks, index);
            assert forall|t: int| ranges_cover(out, t) <==> ranges_cover(chunks, t) by {
                lemma_merge_next_cover(chunks, index, t);
            }
            lemma_merge_next_cover(chunks, index, 0);
            assert forall|j: int| 0 <= j < index && j < out.len() implies chunk_settled(out, j, threshold) by {
                assert(chunk_settled(chunks, j, threshold));
                assert(out[j] == chunks[j]);
                if j > 0 {
                    assert(out[j - 1] == chunks[j - 1]);
                }
                assert(chunks[index + 1].0 <= chunks[index + 1].1);
                if j + 1 == index {
                    assert(out[j + 1] == (chunks[index].0, chunks[index + 1].1));
                } else {
                    assert(out[j + 1] == chunks[j + 1]);
                }
            }
            lemma_absorb_from(out, index, threshold);
        } else {
            lemma_absorb_from(chunks, index + 1, threshold);
        }
    }
}

/// Absorbing short chunks (each starting no later than it ends) covers the
/// same times as before, and leaves no chunk that is within the threshold
/// and that a touching neighbour could still take in while staying within
/// the threshold.
pub proof fn law_absorbing_settles_the_chunks(chunks: Seq<(Time, Time)>, threshold: Time)
    requires
        chunks_ordered_within(chunks),
    ensures
        forall|t: int| ranges_cover(absorb_from(chunks, 0, threshold), t) <==> ranges_cover(chunks, t),
        chunks_ordered_within(absorb_from(chunks, 0, threshold)),
        absorb_from(chunks, 0, threshold).len() <= 1 || forall|j: int|
            0 <= j < absorb_from(chunks, 0, threshold).len() ==> chunk_settled(
                absorb_from(chunks, 0, threshold),
                j,
                threshold,
            ),
{
    lemma_absorb_from(chunks, 0, threshold);
}

} // verus!
