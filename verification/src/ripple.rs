//! Ripple edits: removing time ranges from the timeline and pulling the
//! following items earlier.

use vstd::prelude::*;

use crate::collections::{IndexSet, index_set_contents};
use crate::model::{Item, Time};
use crate::sorting::{insert_item_sorted, insert_sorted, lemma_insert_item_sorted, sort_lex, sort_pairs_lex};
use crate::model::items_sorted;

verus! {

/// A half-open time range `[start, end)` that a ripple edit removes.
#[derive(Clone, Copy, Debug, PartialEq, Eq, Structural)]
pub struct RippleInterval {
    pub start: Time,
    pub end: Time,
}

/// Whether the half-open range `[start, end)` holds `t`.
pub open spec fn range_holds(start: Time, end: Time, t: int) -> bool {
    start <= t < end
}

/// Whether one of the ranges holds `t`.
pub open spec fn ranges_cover(ranges: Seq<(Time, Time)>, t: int) -> bool {
    exists|i: int| 0 <= i < ranges.len() && #[trigger] range_holds(ranges[i].0, ranges[i].1, t)
}

/// Whether one of the intervals holds `t`.
pub open spec fn intervals_cover(intervals: Seq<RippleInterval>, t: int) -> bool {
    exists|i: int|
        0 <= i < intervals.len() && #[trigger] range_holds(intervals[i].start, intervals[i].end, t)
}

/// Intervals as a ripple edit uses them: each one non-empty, in increasing
/// order, and separated from the next by a gap (touching ranges are merged).
pub open spec fn intervals_wf(intervals: Seq<RippleInterval>) -> bool {
    &&& forall|i: int| 0 <= i < intervals.len() ==> #[trigger] intervals[i].start < intervals[i].end
    &&& forall|i: int, j: int|
        0 <= i < j < intervals.len() ==> #[trigger] intervals[i].end < #[trigger] intervals[j].start
}

/// Intervals ordered by their start.
pub open spec fn starts_sorted(intervals: Seq<RippleInterval>) -> bool {
    forall|i: int, j: int|
        0 <= i < j < intervals.len() ==> #[trigger] intervals[i].start <= #[trigger] intervals[j].start
}

/// Merges ranges into the ordered, separated intervals that cover exactly the
/// times that the non-empty ranges cover.
pub fn ripple_intervals_from_ranges(ranges: &Vec<(Time, Time)>) -> (r: Vec<RippleInterval>)
    ensures
        intervals_wf(r@),
        forall|t: int| intervals_cover(r@, t) <==> ranges_cover(ranges@, t),
{
    // Keep the non-empty ranges, ordered by their start.
    let mut sorted: Vec<RippleInterval> = Vec::new();
    let mut i: usize = 0;
    while i < ranges.len()
        invariant
            i <= ranges.len(),
            starts_sorted(sorted@),
            forall|k: int| 0 <= k < sorted@.len() ==> #[trigger] sorted@[k].start < sorted@[k].end,
            forall|t: int| intervals_cover(sorted@, t) <==> ranges_cover(ranges@.subrange(0, i as int), t),
        decreases ranges.len() - i,
    {
        let (start, end) = ranges[i];
        let ghost prev = sorted@;
        if end > start {
            let mut p: usize = 0;
            while p < sorted.len() && sorted[p].start <= start
                invariant
                    p <= sorted.len(),
                    sorted@ == prev,
                    forall|k: int| 0 <= k < p ==> #[trigger] sorted@[k].start <= start,
                decreases sorted.len() - p,
            {
                p = p + 1;
            }
            let item = RippleInterval { start, end };
            sorted.insert(p, item);
            proof {
                assert(sorted@ == prev.insert(p as int, item));
                assert forall|a: int, b: int| 0 <= a < b < sorted@.len() implies #[trigger] sorted@[a].start
                    <= #[trigger] sorted@[b].start by {
                    if b < p {
                    } else if b == p {
                    } else if a < p {
                        if p < prev.len() {
                            assert(prev[p as int].start > start);
                        }
                    } else if a == p {
                        assert(prev[p as int].start > start);
                        assert(prev[p as int].start <= prev[b - 1].start);
                    } else {
                    }
                }
            }
        }
        proof {
            let pre = ranges@.subrange(0, i as int);
            let post = ranges@.subrange(0, i + 1);
            assert forall|t: int| intervals_cover(sorted@, t) <==> ranges_cover(post, t) by {
                if intervals_cover(sorted@, t) {
                    let k = choose|k: int|
                        0 <= k < sorted@.len() && #[trigger] range_holds(sorted@[k].start, sorted@[k].end, t);
                    if end > start && sorted@[k] == (RippleInterval { start, end }) {
                        assert(range_holds(post[i as int].0, post[i as int].1, t));
                    } else {
                        if end > start {
                            let p = choose|p: int| 0 <= p <= prev.len() && sorted@ == prev.insert(p, RippleInterval { start, end });
                            if k < p {
                                assert(range_holds(prev[k].start, prev[k].end, t));
                            } else if k > p {
                                assert(range_holds(prev[k - 1].start, prev[k - 1].end, t));
                            }
                        }
                        assert(intervals_cover(prev, t));
                        let m = choose|m: int| 0 <= m < pre.len() && #[trigger] range_holds(pre[m].0, pre[m].1, t);
                        assert(range_holds(post[m].0, post[m].1, t));
                    }
                }
                if ranges_cover(post, t) {
                    let m = choose|m: int| 0 <= m < post.len() && #[trigger] range_holds(post[m].0, post[m].1, t);
                    if m == i {
                        assert(end > start);
                        let p = choose|p: int| 0 <= p <= prev.len() && sorted@ == prev.insert(p, RippleInterval { start, end });
                        assert(range_holds(sorted@[p].start, sorted@[p].end, t));
                    } else {
                        assert(range_holds(pre[m].0, pre[m].1, t));
                        assert(intervals_cover(prev, t));
                        let k = choose|k: int| 0 <= k < prev.len() && #[trigger] range_holds(prev[k].start, prev[k].end, t);
                        if end > start {
                            let p = choose|p: int| 0 <= p <= prev.len() && sorted@ == prev.insert(p, RippleInterval { start, end });
                            if k < p {
                                assert(range_holds(sorted@[k].start, sorted@[k].end, t));
                            } else {
                                assert(range_holds(sorted@[k + 1].start, sorted@[k + 1].end, t));
                            }
                        } else {
                            assert(range_holds(sorted@[k].start, sorted@[k].end, t));
                        }
                    }
                }
            }
        }
        i = i + 1;
    }
    proof {
        assert(ranges@.subrange(0, ranges@.len() as int) == ranges@);
    }

    // Merge overlapping or touching neighbours.
    let mut merged: Vec<RippleInterval> = Vec::new();
    let mut j: usize = 0;
    while j < sorted.len()
        invariant
            j <= sorted.len(),
            starts_sorted(sorted@),
            forall|k: int| 0 <= k < sorted@.len() ==> #[trigger] sorted@[k].start < sorted@[k].end,
            intervals_wf(merged@),
            merged@.len() == 0 <==> j == 0,
            j > 0 ==> merged@.last().start <= sorted@[j - 1].start,
            forall|t: int| intervals_cover(merged@, t) <==> intervals_cover(sorted@.subrange(0, j as int), t),
        decreases sorted.len() - j,
    {
        let interval = sorted[j];
        let ghost prev = merged@;
        let n = merged.len();
        if n > 0 && interval.start <= merged[n - 1].end {
            let last = merged[n - 1];
            let new_end = if last.end >= interval.end { last.end } else { interval.end };
            merged.set(n - 1, RippleInterval { start: last.start, end: new_end });
            proof {
                assert(last.start <= interval.start) by {
                    assert(sorted@[j - 1].start <= sorted@[j as int].start);
                }
                assert forall|t: int| intervals_cover(merged@, t) <==> intervals_cover(prev, t)
                    || range_holds(interval.start, interval.end, t) by {
                    if intervals_cover(merged@, t) {
                        let k = choose|k: int| 0 <= k < merged@.len() && #[trigger] range_holds(merged@[k].start, merged@[k].end, t);
                        if k < n - 1 {
                            assert(range_holds(prev[k].start, prev[k].end, t));
                        } else if t < last.end {
                            assert(range_holds(prev[n - 1].start, prev[n - 1].end, t));
                        }
                    }
                    if intervals_cover(prev, t) {
                        let k = choose|k: int| 0 <= k < prev.len() && #[trigger] range_holds(prev[k].start, prev[k].end, t);
                        assert(range_holds(merged@[k].start, merged@[k].end, t));
                    }
                    if range_holds(interval.start, interval.end, t) {
                        assert(range_holds(merged@[n - 1].start, merged@[n - 1].end, t));
                    }
                }
            }
        } else {
            merged.push(interval);
            proof {
                if n > 0 {
                    assert forall|a: int, b: int| 0 <= a < b < merged@.len() implies #[trigger] merged@[a].end
                        < #[trigger] merged@[b].start by {
                        if b == n {
                            assert(prev[a].end <= prev[n - 1].end);
                        }
                    }
                }
                assert forall|t: int| intervals_cover(merged@, t) <==> intervals_cover(prev, t)
                    || range_holds(interval.start, interval.end, t) by {
                    if intervals_cover(merged@, t) {
                        let k = choose|k: int| 0 <= k < merged@.len() && #[trigger] range_holds(merged@[k].start, merged@[k].end, t);
                        if k < n {
                            assert(range_holds(prev[k].start, prev[k].end, t));
                        }
                    }
                    if intervals_cover(prev, t) {
                        let k = choose|k: int| 0 <= k < prev.len() && #[trigger] range_holds(prev[k].start, prev[k].end, t);
                        assert(range_holds(merged@[k].start, merged@[k].end, t));
                    }
                    if range_holds(interval.start, interval.end, t) {
                        assert(range_holds(merged@[n as int].start, merged@[n as int].end, t));
                    }
                }
            }
        }
        proof {
            let pre = sorted@.subrange(0, j as int);
            let post = sorted@.subrange(0, j + 1);
            assert forall|t: int| intervals_cover(post, t) <==> intervals_cover(pre, t)
                || range_holds(interval.start, interval.end, t) by {
                if intervals_cover(post, t) {
                    let k = choose|k: int| 0 <= k < post.len() && #[trigger] range_holds(post[k].start, post[k].end, t);
                    if k < j {
                        assert(range_holds(pre[k].start, pre[k].end, t));
                    }
                }
                if intervals_cover(pre, t) {
                    let k = choose|k: int| 0 <= k < pre.len() && #[trigger] range_holds(pre[k].start, pre[k].end, t);
                    assert(range_holds(post[k].start, post[k].end, t));
                }
                if range_holds(interval.start, interval.end, t) {
                    assert(range_holds(post[j as int].start, post[j as int].end, t));
                }
            }
            assert forall|t: int| intervals_cover(merged@, t) <==> intervals_cover(post, t) by {
                assert(intervals_cover(prev, t) <==> intervals_cover(pre, t));
            }
        }
        j = j + 1;
    }
    proof {
        assert(sorted@.subrange(0, sorted@.len() as int) == sorted@);
    }
    merged
}


/// Ordered, separated intervals are fixed by the times they cover: two such
/// lists that cover the same times are the same list.
pub proof fn law_intervals_determined_by_coverage(a: Seq<RippleInterval>, b: Seq<RippleInterval>)
    requires
        intervals_wf(a),
        intervals_wf(b),
        forall|t: int| intervals_cover(a, t) <==> intervals_cover(b, t),
    ensures
        a == b,
    decreases a.len() + b.len(),
{
    if a.len() == 0 || b.len() == 0 {
        if a.len() > 0 {
            assert(range_holds(a[0].start, a[0].end, a[0].start as int));
            assert(intervals_cover(a, a[0].start as int));
        }
        if b.len() > 0 {
            assert(range_holds(b[0].start, b[0].end, b[0].start as int));
            assert(intervals_cover(b, b[0].start as int));
        }
        assert(a =~= b);
    } else {
        assert(range_holds(a[0].start, a[0].end, a[0].start as int));
        assert(intervals_cover(a, a[0].start as int));
        assert(range_holds(b[0].start, b[0].end, b[0].start as int));
        assert(intervals_cover(b, b[0].start as int));
        let j = choose|j: int| 0 <= j < b.len() && #[trigger] range_holds(b[j].start, b[j].end, a[0].start as int);
        let i = choose|i: int| 0 <= i < a.len() && #[trigger] range_holds(a[i].start, a[i].end, b[0].start as int);
        if i > 0 {
            assert(a[0].end < a[i].start);
        }
        if j > 0 {
            assert(b[0].end < b[j].start);
        }
        assert(a[0].start == b[0].start);
        if a[0].end < b[0].end {
            assert(range_holds(b[0].start, b[0].end, a[0].end as int));
            assert(intervals_cover(b, a[0].end as int));
            let k = choose|k: int| 0 <= k < a.len() && #[trigger] range_holds(a[k].start, a[k].end, a[0].end as int);
            if k > 0 {
                assert(a[0].end < a[k].start);
            }
        }
        if b[0].end < a[0].end {
            assert(range_holds(a[0].start, a[0].end, b[0].end as int));
            assert(intervals_cover(a, b[0].end as int));
            let k = choose|k: int| 0 <= k < b.len() && #[trigger] range_holds(b[k].start, b[k].end, b[0].end as int);
            if k > 0 {
                assert(b[0].end < b[k].start);
            }
        }
        assert(a[0] == b[0]);
        let ra = a.drop_first();
        let rb = b.drop_first();
        assert(intervals_wf(ra)) by {
            assert forall|x: int, y: int| 0 <= x < y < ra.len() implies #[trigger] ra[x].end < #[trigger] ra[y].start by {
                assert(ra[x] == a[x + 1] && ra[y] == a[y + 1]);
            }
            assert forall|x: int| 0 <= x < ra.len() implies #[trigger] ra[x].start < ra[x].end by {
                assert(ra[x] == a[x + 1]);
            }
        }
        assert(intervals_wf(rb)) by {
            assert forall|x: int, y: int| 0 <= x < y < rb.len() implies #[trigger] rb[x].end < #[trigger] rb[y].start by {
                assert(rb[x] == b[x + 1] && rb[y] == b[y + 1]);
            }
            assert forall|x: int| 0 <= x < rb.len() implies #[trigger] rb[x].start < rb[x].end by {
                assert(rb[x] == b[x + 1]);
            }
        }
        assert forall|t: int| intervals_cover(ra, t) <==> intervals_cover(rb, t) by {
            if intervals_cover(ra, t) {
                let x = choose|x: int| 0 <= x < ra.len() && #[trigger] range_holds(ra[x].start, ra[x].end, t);
                assert(ra[x] == a[x + 1]);
                assert(a[0].end < a[x + 1].start);
                assert(range_holds(a[x + 1].start, a[x + 1].end, t));
                assert(intervals_cover(a, t));
                let y = choose|y: int| 0 <= y < b.len() && #[trigger] range_holds(b[y].start, b[y].end, t);
                assert(y > 0);
                assert(rb[y - 1] == b[y]);
                assert(range_holds(rb[y - 1].start, rb[y - 1].end, t));
            }
            if intervals_cover(rb, t) {
                let x = choose|x: int| 0 <= x < rb.len() && #[trigger] range_holds(rb[x].start, rb[x].end, t);
                assert(rb[x] == b[x + 1]);
                assert(b[0].end < b[x + 1].start);
                assert(range_holds(b[x + 1].start, b[x + 1].end, t));
                assert(intervals_cover(b, t));
                let y = choose|y: int| 0 <= y < a.len() && #[trigger] range_holds(a[y].start, a[y].end, t);
                assert(y > 0);
                assert(ra[y - 1] == a[y]);
                assert(range_holds(ra[y - 1].start, ra[y - 1].end, t));
            }
        }
        law_intervals_determined_by_coverage(ra, rb);
        assert(a =~= seq![a[0]] + ra);
        assert(b =~= seq![b[0]] + rb);
    }
}

/// How much of the interval lies before `position`.
pub open spec fn overlap_before(interval: RippleInterval, position: Time) -> int {
    if position <= interval.start {
        0
    } else if position < interval.end {
        position - interval.start
    } else {
        interval.end - interval.start
    }
}

/// How much of the first `k` intervals lies before `position`.
pub open spec fn shift_before(intervals: Seq<RippleInterval>, position: Time, k: int) -> int
    decreases k,
{
    if k <= 0 {
        0
    } else {
        shift_before(intervals, position, k - 1) + overlap_before(intervals[k - 1], position)
    }
}

/// The total length of the first `k` intervals.
pub open spec fn total_length(intervals: Seq<RippleInterval>, k: int) -> int
    decreases k,
{
    if k <= 0 {
        0
    } else {
        total_length(intervals, k - 1) + (intervals[k - 1].end - intervals[k - 1].start)
    }
}

/// The removed length before `position` never exceeds `position`, nor the
/// end of the last interval counted.
proof fn lemma_shift_before_bound(intervals: Seq<RippleInterval>, position: Time, k: int)
    requires
        intervals_wf(intervals),
        0 < k <= intervals.len(),
    ensures
        0 <= shift_before(intervals, position, k),
        shift_before(intervals, position, k) <= position,
        shift_before(intervals, position, k) <= intervals[k - 1].end,
    decreases k,
{
    assert(intervals[k - 1].start < intervals[k - 1].end);
    assert(shift_before(intervals, position, k) == shift_before(intervals, position, k - 1)
        + overlap_before(intervals[k - 1], position));
    if k > 1 {
        lemma_shift_before_bound(intervals, position, k - 1);
        assert(intervals[k - 2].end < intervals[k - 1].start);
    } else {
        assert(shift_before(intervals, position, 0) == 0);
    }
}

/// The total length of the first `k` intervals never exceeds the end of the
/// last one.
proof fn lemma_total_length_bound(intervals: Seq<RippleInterval>, k: int)
    requires
        intervals_wf(intervals),
        0 < k <= intervals.len(),
    ensures
        0 <= total_length(intervals, k) <= intervals[k - 1].end,
    decreases k,
{
    assert(intervals[k - 1].start < intervals[k - 1].end);
    assert(total_length(intervals, k) == total_length(intervals, k - 1) + (intervals[k - 1].end
        - intervals[k - 1].start));
    if k > 1 {
        lemma_total_length_bound(intervals, k - 1);
        assert(intervals[k - 2].end < intervals[k - 1].start);
    } else {
        assert(total_length(intervals, 0) == 0);
    }
}

/// Intervals that start at or after `position` add nothing before it.
proof fn lemma_shift_before_rest(intervals: Seq<RippleInterval>, position: Time, k: int, n: int)
    requires
        intervals_wf(intervals),
        0 <= k <= n <= intervals.len(),
        forall|m: int| k <= m < n ==> position <= #[trigger] intervals[m].start,
    ensures
        shift_before(intervals, position, n) == shift_before(intervals, position, k),
    decreases n - k,
{
    if n > k {
        lemma_shift_before_rest(intervals, position, k, n - 1);
    }
}

/// Before `position`, each interval that ends before it counts whole.
proof fn lemma_shift_before_whole(intervals: Seq<RippleInterval>, position: Time, k: int)
    requires
        intervals_wf(intervals),
        0 <= k <= intervals.len(),
        forall|m: int| 0 <= m < k ==> #[trigger] intervals[m].end <= position,
    ensures
        shift_before(intervals, position, k) == total_length(intervals, k),
    decreases k,
{
    if k > 0 {
        lemma_shift_before_whole(intervals, position, k - 1);
    }
}

/// The walk over the first `k` intervals that finds how far a position
/// moves: each interval that starts before the position adds the part of it
/// that lies before the position (the sum held at the largest time); the walk
/// stops at an interval that starts at or after the position, or that the
/// position falls inside. The flag tells whether it has stopped.
pub open spec fn position_walk(intervals: Seq<RippleInterval>, position: Time, k: int) -> (Time, bool)
    decreases k,
{
    if k <= 0 {
        (0, false)
    } else {
        let (shift, done) = position_walk(intervals, position, k - 1);
        let interval = intervals[k - 1];
        if done || position <= interval.start {
            (shift, true)
        } else {
            let until = if position < interval.end { position } else { interval.end };
            (shift.saturating_add(until.saturating_sub(interval.start)), position < interval.end)
        }
    }
}

/// Once the walk has stopped, it stays where it stopped.
proof fn lemma_position_walk_stays(intervals: Seq<RippleInterval>, position: Time, k: int, n: int)
    requires
        0 <= k <= n <= intervals.len(),
        position_walk(intervals, position, k).1,
    ensures
        position_walk(intervals, position, n) == position_walk(intervals, position, k),
    decreases n - k,
{
    if n > k {
        lemma_position_walk_stays(intervals, position, k, n - 1);
    }
}

/// On ordered, separated intervals the walk finds the removed length before
/// the position.
proof fn lemma_position_walk_exact(intervals: Seq<RippleInterval>, position: Time, k: int)
    requires
        intervals_wf(intervals),
        0 <= k <= intervals.len(),
    ensures
        !position_walk(intervals, position, k).1 ==> position_walk(intervals, position, k).0 == shift_before(
            intervals,
            position,
            k,
        ) && forall|m: int| 0 <= m < k ==> #[trigger] intervals[m].end <= position,
        position_walk(intervals, position, k).1 ==> position_walk(intervals, position, k).0 == shift_before(
            intervals,
            position,
            intervals.len() as int,
        ),
    decreases k,
{
    let n = intervals.len() as int;
    if k > 0 {
        lemma_position_walk_exact(intervals, position, k - 1);
        let (shift, done) = position_walk(intervals, position, k - 1);
        let interval = intervals[k - 1];
        assert(interval.start < interval.end);
        if !done {
            if position <= interval.start {
                assert forall|m: int| k - 1 <= m < n implies position <= #[trigger] intervals[m].start by {
                    if m > k - 1 {
                        assert(intervals[k - 1].end < intervals[m].start);
                    }
                }
                lemma_shift_before_rest(intervals, position, k - 1, n);
            } else {
                lemma_shift_before_bound(intervals, position, k);
                assert(shift_before(intervals, position, k) == shift_before(intervals, position, k - 1) + overlap_before(
                    interval,
                    position,
                ));
                if position < interval.end {
                    assert forall|m: int| k <= m < n implies position <= #[trigger] intervals[m].start by {
                        assert(intervals[k - 1].end < intervals[m].start);
                    }
                    lemma_shift_before_rest(intervals, position, k, n);
                }
            }
        }
    }
}

/// How far an item that starts at `position` moves: the removed length that
/// lies before `position`, as the walk finds it; on ordered, separated
/// intervals that is exactly the removed length before it.
pub fn ripple_position_shift(intervals: &Vec<RippleInterval>, position: Time) -> (r: Time)
    ensures
        r == position_walk(intervals@, position, intervals@.len() as int).0,
        intervals_wf(intervals@) ==> r == shift_before(intervals@, position, intervals@.len() as int),
{
    let mut shift: Time = 0;
    let mut i: usize = 0;
    let n = intervals.len();
    proof {
        if intervals_wf(intervals@) {
            lemma_position_walk_exact(intervals@, position, n as int);
        }
    }
    while i < n
        invariant
            n == intervals@.len(),
            i <= n,
            (shift, false) == position_walk(intervals@, position, i as int),
        decreases n - i,
    {
        let interval = intervals[i];
        if position <= interval.start {
            proof {
                lemma_position_walk_stays(intervals@, position, i + 1, n as int);
                if intervals_wf(intervals@) {
                    lemma_position_walk_exact(intervals@, position, n as int);
                }
            }
            return shift;
        }
        let until = if position < interval.end { position } else { interval.end };
        shift = shift.saturating_add(until.saturating_sub(interval.start));
        if position < interval.end {
            proof {
                lemma_position_walk_stays(intervals@, position, i + 1, n as int);
                if intervals_wf(intervals@) {
                    lemma_position_walk_exact(intervals@, position, n as int);
                }
            }
            return shift;
        }
        i = i + 1;
    }
    shift
}

/// The total length of the first `k` intervals, added up as the edit adds it:
/// an interval that ends before it starts adds nothing, and the sum is held
/// at the largest time.
pub open spec fn saturated_total(intervals: Seq<RippleInterval>, k: int) -> Time
    decreases k,
{
    if k <= 0 {
        0
    } else {
        saturated_total(intervals, k - 1).saturating_add(intervals[k - 1].end.saturating_sub(intervals[k - 1].start))
    }
}

/// On ordered, separated intervals nothing is held back: the sum is the
/// total length.
proof fn lemma_saturated_total_exact(intervals: Seq<RippleInterval>, k: int)
    requires
        intervals_wf(intervals),
        0 <= k <= intervals.len(),
    ensures
        saturated_total(intervals, k) == total_length(intervals, k),
    decreases k,
{
    if k > 0 {
        lemma_saturated_total_exact(intervals, k - 1);
        lemma_total_length_bound(intervals, k);
        assert(intervals[k - 1].start < intervals[k - 1].end);
    }
}

/// The total length that a ripple edit removes.
pub fn ripple_total_shift(intervals: &Vec<RippleInterval>) -> (r: Time)
    ensures
        r == saturated_total(intervals@, intervals@.len() as int),
        intervals_wf(intervals@) ==> r == total_length(intervals@, intervals@.len() as int),
{
    let mut shift: Time = 0;
    let mut i: usize = 0;
    let n = intervals.len();
    while i < n
        invariant
            n == intervals@.len(),
            i <= n,
            shift == saturated_total(intervals@, i as int),
        decreases n - i,
    {
        shift = shift.saturating_add(intervals[i].end.saturating_sub(intervals[i].start));
        i = i + 1;
    }
    proof {
        if intervals_wf(intervals@) {
            lemma_saturated_total_exact(intervals@, n as int);
        }
    }
    shift
}

/// The number of leading intervals that end at or before `time`: the index
/// of the kept segment that `time` falls in.
pub fn kept_segment_index(intervals: &Vec<RippleInterval>, time: Time) -> (r: usize)
    ensures
        r <= intervals@.len(),
        forall|m: int| 0 <= m < r ==> #[trigger] intervals@[m].end <= time,
        r < intervals@.len() ==> intervals@[r as int].end > time,
{
    let mut count: usize = 0;
    while count < intervals.len() && intervals[count].end <= time
        invariant
            count <= intervals@.len(),
            forall|m: int| 0 <= m < count ==> #[trigger] intervals@[m].end <= time,
        decreases intervals@.len() - count,
    {
        count = count + 1;
    }
    count
}

/// The removed length before a position never exceeds the total removed
/// length, and a position past the last interval moves by the whole of it.
pub proof fn law_position_shift_bounded_by_total(intervals: Seq<RippleInterval>, position: Time)
    requires
        intervals_wf(intervals),
    ensures
        shift_before(intervals, position, intervals.len() as int) <= total_length(intervals, intervals.len() as int),
        intervals.len() > 0 && intervals.last().end <= position ==> shift_before(
            intervals,
            position,
            intervals.len() as int,
        ) == total_length(intervals, intervals.len() as int),
    decreases intervals.len(),
{
    lemma_shift_before_le_total(intervals, position, intervals.len() as int);
    if intervals.len() > 0 && intervals.last().end <= position {
        assert forall|m: int| 0 <= m < intervals.len() implies #[trigger] intervals[m].end <= position by {
            if m < intervals.len() - 1 {
                assert(intervals[m].end < intervals[intervals.len() - 1].start);
            }
        }
        lemma_shift_before_whole(intervals, position, intervals.len() as int);
    }
}

proof fn lemma_shift_before_le_total(intervals: Seq<RippleInterval>, position: Time, k: int)
    requires
        intervals_wf(intervals),
        0 <= k <= intervals.len(),
    ensures
        shift_before(intervals, position, k) <= total_length(intervals, k),
    decreases k,
{
    if k > 0 {
        lemma_shift_before_le_total(intervals, position, k - 1);
    }
}

/// A later position moves at least as far as an earlier one.
pub proof fn law_position_shift_monotonic(intervals: Seq<RippleInterval>, earlier: Time, later: Time)
    requires
        intervals_wf(intervals),
        earlier <= later,
    ensures
        shift_before(intervals, earlier, intervals.len() as int) <= shift_before(
            intervals,
            later,
            intervals.len() as int,
        ),
{
    lemma_shift_before_monotonic(intervals, earlier, later, intervals.len() as int);
}

proof fn lemma_shift_before_monotonic(intervals: Seq<RippleInterval>, earlier: Time, later: Time, k: int)
    requires
        intervals_wf(intervals),
        earlier <= later,
        0 <= k <= intervals.len(),
    ensures
        shift_before(intervals, earlier, k) <= shift_before(intervals, later, k),
    decreases k,
{
    if k > 0 {
        lemma_shift_before_monotonic(intervals, earlier, later, k - 1);
    }
}

/// Between two positions, the shift grows by at most the removed time that
/// lies between them, up to the end of the last interval counted.
proof fn lemma_shift_before_growth(intervals: Seq<RippleInterval>, earlier: Time, later: Time, k: int)
    requires
        intervals_wf(intervals),
        earlier <= later,
        0 <= k <= intervals.len(),
    ensures
        k == 0 ==> shift_before(intervals, later, k) - shift_before(intervals, earlier, k) == 0,
        k > 0 ==> shift_before(intervals, later, k) - shift_before(intervals, earlier, k) <= if (if later
            < intervals[k - 1].end { later as int } else { intervals[k - 1].end as int }) > earlier {
            (if later < intervals[k - 1].end { later as int } else { intervals[k - 1].end as int }) - earlier
        } else {
            0
        },
    decreases k,
{
    if k > 0 {
        lemma_shift_before_growth(intervals, earlier, later, k - 1);
        let iv = intervals[k - 1];
        assert(iv.start < iv.end);
        if k > 1 {
            assert(intervals[k - 2].end < iv.start);
        }
    }
}

/// A position moves no further than another by more than the distance
/// between them: the shift grows no faster than the position.
pub proof fn law_position_shift_grows_no_faster(intervals: Seq<RippleInterval>, earlier: Time, later: Time)
    requires
        intervals_wf(intervals),
        earlier <= later,
    ensures
        shift_before(intervals, later, intervals.len() as int) - shift_before(
            intervals,
            earlier,
            intervals.len() as int,
        ) <= later - earlier,
{
    lemma_shift_before_growth(intervals, earlier, later, intervals.len() as int);
}

/// The `(start, end)` of the first `k` items that are not selected, in order.
pub open spec fn unselected_ranges(items: Seq<Item>, selected: Set<usize>, k: int) -> Seq<(Time, Time)>
    decreases k,
{
    if k <= 0 {
        Seq::empty()
    } else {
        let prev = unselected_ranges(items, selected, k - 1);
        if selected.contains((k - 1) as usize) {
            prev
        } else {
            prev.push((items[k - 1].start, items[k - 1].end))
        }
    }
}

/// The `(start, end)` of each item that is not selected, in order.
pub fn ripple_track_ranges(items: &Vec<Item>, selected_indices: &IndexSet) -> (r: Vec<(Time, Time)>)
    ensures
        r@ == unselected_ranges(items@, index_set_contents(*selected_indices), items@.len() as int),
{
    let mut ranges: Vec<(Time, Time)> = Vec::new();
    let mut index: usize = 0;
    while index < items.len()
        invariant
            index <= items@.len(),
            ranges@ == unselected_ranges(items@, index_set_contents(*selected_indices), index as int),
        decreases items@.len() - index,
    {
        if !selected_indices.has(index) {
            ranges.push((items[index].start, items[index].end));
        }
        index = index + 1;
    }
    ranges
}

/// The smaller of two times.
pub open spec fn min_time(a: Time, b: Time) -> Time {
    if a <= b { a } else { b }
}

/// After the first `k` ranges: the shift allowed so far, the free room
/// gathered in front of the ranges that move, and the end of the last range.
pub open spec fn shift_limit_state(
    ranges: Seq<(Time, Time)>,
    intervals: Seq<RippleInterval>,
    max_shift: Time,
    k: int,
) -> (Time, Time, Option<Time>)
    decreases k,
{
    if k <= 0 {
        (max_shift, 0, None)
    } else {
        let (shift, gap, previous_end) = shift_limit_state(ranges, intervals, max_shift, k - 1);
        let (start, end) = ranges[k - 1];
        let room = match previous_end {
            Some(previous) => start.saturating_sub(previous),
            None => start,
        };
        let gap2 = gap.saturating_add(room);
        let item_shift = min_time(shift_before(intervals, start, intervals.len() as int) as Time, max_shift);
        if item_shift == 0 {
            (shift, 0, Some(end))
        } else if item_shift > gap2 {
            (min_time(shift, gap2), gap2, Some(end))
        } else {
            (shift, gap2, Some(end))
        }
    }
}

/// The walk of the shift limit over the first `k` ranges, as
/// `shift_limit_state`, with the shift of each range found by the position
/// walk; on ordered, separated intervals the two agree.
pub open spec fn walked_limit_state(
    ranges: Seq<(Time, Time)>,
    intervals: Seq<RippleInterval>,
    max_shift: Time,
    k: int,
) -> (Time, Time, Option<Time>)
    decreases k,
{
    if k <= 0 {
        (max_shift, 0, None)
    } else {
        let (shift, gap, previous_end) = walked_limit_state(ranges, intervals, max_shift, k - 1);
        let (start, end) = ranges[k - 1];
        let room = match previous_end {
            Some(previous) => start.saturating_sub(previous),
            None => start,
        };
        let gap2 = gap.saturating_add(room);
        let item_shift = min_time(position_walk(intervals, start, intervals.len() as int).0, max_shift);
        if item_shift == 0 {
            (shift, 0, Some(end))
        } else if item_shift > gap2 {
            (min_time(shift, gap2), gap2, Some(end))
        } else {
            (shift, gap2, Some(end))
        }
    }
}

proof fn lemma_walked_limit_state(ranges: Seq<(Time, Time)>, intervals: Seq<RippleInterval>, max_shift: Time, k: int)
    requires
        intervals_wf(intervals),
        0 <= k <= ranges.len(),
    ensures
        walked_limit_state(ranges, intervals, max_shift, k) == shift_limit_state(ranges, intervals, max_shift, k),
    decreases k,
{
    if k > 0 {
        lemma_walked_limit_state(ranges, intervals, max_shift, k - 1);
        let start = ranges[k - 1].0;
        lemma_position_walk_exact(intervals, start, intervals.len() as int);
    }
}

/// How far the unselected items of a track may move: the requested shift,
/// lowered wherever a moving item would need more room than the gaps in
/// front of it (back to the last item that stays) provide.
pub fn ripple_track_shift_limit(
    items: &Vec<Item>,
    selected_indices: &IndexSet,
    intervals: &Vec<RippleInterval>,
    max_shift: Time,
) -> (r: Time)
    ensures
        r == walked_limit_state(
            sort_lex(unselected_ranges(items@, index_set_contents(*selected_indices), items@.len() as int)),
            intervals@,
            max_shift,
            sort_lex(unselected_ranges(items@, index_set_contents(*selected_indices), items@.len() as int)).len() as int,
        ).0,
        intervals_wf(intervals@) ==> r == shift_limit_state(
            sort_lex(unselected_ranges(items@, index_set_contents(*selected_indices), items@.len() as int)),
            intervals@,
            max_shift,
            sort_lex(unselected_ranges(items@, index_set_contents(*selected_indices), items@.len() as int)).len() as int,
        ).0,
{
    let unsorted = ripple_track_ranges(items, selected_indices);
    let ranges = sort_pairs_lex(&unsorted);
    let mut shift = max_shift;
    let mut available_gap: Time = 0;
    let mut previous_end: Option<Time> = None;
    let mut k: usize = 0;
    while k < ranges.len()
        invariant
            k <= ranges@.len(),
            (shift, available_gap, previous_end) == walked_limit_state(ranges@, intervals@, max_shift, k as int),
        decreases ranges@.len() - k,
    {
        let (start, end) = ranges[k];
        let room = match previous_end {
            Some(previous) => start.saturating_sub(previous),
            None => start,
        };
        available_gap = available_gap.saturating_add(room);
        let position_shift = ripple_position_shift(intervals, start);
        let item_shift = if position_shift <= max_shift { position_shift } else { max_shift };
        if item_shift == 0 {
            available_gap = 0;
        } else if item_shift > available_gap {
            shift = if shift <= available_gap { shift } else { available_gap };
        }
        previous_end = Some(end);
        k = k + 1;
    }
    proof {
        if intervals_wf(intervals@) {
            lemma_walked_limit_state(ranges@, intervals@, max_shift, ranges@.len() as int);
        }
    }
    shift
}

/// The first `k` items that are not selected, in order.
pub open spec fn unselected_items(items: Seq<Item>, selected: Set<usize>, k: int) -> Seq<Item>
    decreases k,
{
    if k <= 0 {
        Seq::empty()
    } else {
        let prev = unselected_items(items, selected, k - 1);
        if selected.contains((k - 1) as usize) {
            prev
        } else {
            prev.push(items[k - 1])
        }
    }
}

/// How far an item that starts at `start` moves, as a time.
pub open spec fn item_shift(intervals: Seq<RippleInterval>, start: Time) -> Time {
    shift_before(intervals, start, intervals.len() as int) as Time
}

/// The shifts the remaining items ask for, capped at the limit.
pub open spec fn capped_shifts(remaining: Seq<Item>, intervals: Seq<RippleInterval>, limit: Time) -> Seq<Time> {
    Seq::new(remaining.len(), |j: int| min_time(item_shift(intervals, remaining[j].start), limit))
}

/// Walking back from index `index` to 1, raises the shift of each item to
/// what the next item needs to keep its gap.
pub open spec fn backward_shifts(remaining: Seq<Item>, shifts: Seq<Time>, index: int) -> Seq<Time>
    decreases index,
{
    if index < 1 || index >= shifts.len() {
        shifts
    } else {
        let gap = remaining[index].start.saturating_sub(remaining[index - 1].end);
        let required = shifts[index].saturating_sub(gap);
        let next = if required > shifts[index - 1] { shifts.update(index - 1, required) } else { shifts };
        backward_shifts(remaining, next, index - 1)
    }
}

proof fn lemma_backward_shifts_len(remaining: Seq<Item>, shifts: Seq<Time>, index: int)
    ensures
        backward_shifts(remaining, shifts, index).len() == shifts.len(),
    decreases index,
{
    if !(index < 1 || index >= shifts.len()) {
        let gap = remaining[index].start.saturating_sub(remaining[index - 1].end);
        let required = shifts[index].saturating_sub(gap);
        let next = if required > shifts[index - 1] { shifts.update(index - 1, required) } else { shifts };
        lemma_backward_shifts_len(remaining, next, index - 1);
    }
}

/// The backward walk only raises shifts, and never above a bound that every
/// shift it starts from keeps.
pub proof fn lemma_backward_shifts_bounds(remaining: Seq<Item>, shifts: Seq<Time>, index: int, bound: Time)
    requires
        forall|k: int| 0 <= k < shifts.len() ==> #[trigger] shifts[k] <= bound,
    ensures
        backward_shifts(remaining, shifts, index).len() == shifts.len(),
        forall|k: int|
            0 <= k < shifts.len() ==> shifts[k] <= #[trigger] backward_shifts(remaining, shifts, index)[k] <= bound,
    decreases index,
{
    if !(index < 1 || index >= shifts.len()) {
        let gap = remaining[index].start.saturating_sub(remaining[index - 1].end);
        let required = shifts[index].saturating_sub(gap);
        let next = if required > shifts[index - 1] { shifts.update(index - 1, required) } else { shifts };
        assert forall|k: int| 0 <= k < next.len() implies #[trigger] next[k] <= bound && shifts[k] <= next[k] by {
            if k == index - 1 && required > shifts[index - 1] {
                assert(next[k] == required);
                assert(required <= shifts[index]);
            }
        }
        lemma_backward_shifts_bounds(remaining, next, index - 1, bound);
        assert forall|k: int| 0 <= k < shifts.len() implies shifts[k] <= #[trigger] backward_shifts(
            remaining,
            shifts,
            index,
        )[k] <= bound by {
            assert(backward_shifts(remaining, shifts, index) == backward_shifts(remaining, next, index - 1));
            assert(shifts[k] <= next[k]);
        }
    }
}

/// Whether the backward walk only ever raises the shift of an item that
/// moves anyway (an item that stays is an anchor that nothing may push).
pub open spec fn backward_respects_anchors(
    remaining: Seq<Item>,
    intervals: Seq<RippleInterval>,
    shifts: Seq<Time>,
    index: int,
) -> bool
    decreases index,
{
    if index < 1 || index >= shifts.len() {
        true
    } else {
        let gap = remaining[index].start.saturating_sub(remaining[index - 1].end);
        let required = shifts[index].saturating_sub(gap);
        if required > shifts[index - 1] {
            item_shift(intervals, remaining[index - 1].start) > 0 && backward_respects_anchors(
                remaining,
                intervals,
                shifts.update(index - 1, required),
                index - 1,
            )
        } else {
            backward_respects_anchors(remaining, intervals, shifts, index - 1)
        }
    }
}

/// The final shift of each remaining item.
pub open spec fn final_shifts(remaining: Seq<Item>, intervals: Seq<RippleInterval>, limit: Time) -> Seq<Time> {
    backward_shifts(remaining, capped_shifts(remaining, intervals, limit), remaining.len() - 1)
}

/// An item moved earlier by `shift`, keeping its duration.
pub open spec fn shifted_item(item: Item, shift: Time) -> Item {
    if shift > 0 {
        let start = item.start.saturating_sub(shift);
        Item { start: start, end: start.saturating_add(item.end.saturating_sub(item.start)), ..item }
    } else {
        item
    }
}

/// The first `k` items, each inserted in turn after the items that do not
/// start after it.
pub open spec fn reinserted(items: Seq<Item>, k: int) -> Seq<Item>
    decreases k,
{
    if k <= 0 {
        Seq::empty()
    } else {
        insert_item_sorted(reinserted(items, k - 1), items[k - 1])
    }
}

/// The remaining items of a ripple, each moved by its final shift.
pub open spec fn rippled_items(remaining: Seq<Item>, intervals: Seq<RippleInterval>, limit: Time) -> Seq<Item> {
    Seq::new(remaining.len(), |j: int| shifted_item(remaining[j], final_shifts(remaining, intervals, limit)[j]))
}

/// Removes the selected items of a track and pulls the others earlier by the
/// removed time before them (capped at the limit, and raised where an item
/// must follow the one it leans on), keeping the items ordered by start;
/// tells whether anything changed.
pub fn ripple_track_items(
    items: &mut Vec<Item>,
    selected_indices: &IndexSet,
    intervals: &Vec<RippleInterval>,
    shift_limit: Time,
) -> (changed: bool)
    requires
        intervals_wf(intervals@),
        backward_respects_anchors(
            unselected_items(old(items)@, index_set_contents(*selected_indices), old(items)@.len() as int),
            intervals@,
            capped_shifts(
                unselected_items(old(items)@, index_set_contents(*selected_indices), old(items)@.len() as int),
                intervals@,
                shift_limit,
            ),
            unselected_items(old(items)@, index_set_contents(*selected_indices), old(items)@.len() as int).len() - 1,
        ),
    ensures
        ({
            let remaining = unselected_items(old(items)@, index_set_contents(*selected_indices), old(items)@.len() as int);
            let moved = rippled_items(remaining, intervals@, shift_limit);
            &&& final(items)@ == reinserted(moved, moved.len() as int)
            &&& changed == (index_set_contents(*selected_indices) != Set::<usize>::empty() || exists|j: int|
                0 <= j < moved.len() && #[trigger] moved[j] != remaining[j])
        }),
{
    let ghost selected = index_set_contents(*selected_indices);
    let ghost initial = items@;
    let mut changed = !selected_indices.is_empty();

    // The items that stay, with the shifts they ask for.
    let mut remaining: Vec<Item> = Vec::new();
    let mut shifts: Vec<Time> = Vec::new();
    let mut index: usize = 0;
    while index < items.len()
        invariant
            items@ == initial,
            intervals_wf(intervals@),
            selected == index_set_contents(*selected_indices),
            index <= items@.len(),
            remaining@ == unselected_items(initial, selected, index as int),
            shifts@.len() == remaining@.len(),
            forall|j: int| 0 <= j < shifts@.len() ==> #[trigger] shifts@[j] == min_time(item_shift(intervals@, remaining@[j].start), shift_limit),
        decreases items@.len() - index,
    {
        if !selected_indices.has(index) {
            let item = items[index];
            let shift = ripple_position_shift(intervals, item.start);
            remaining.push(item);
            shifts.push(if shift <= shift_limit { shift } else { shift_limit });
        }
        index = index + 1;
    }
    let ghost rem = remaining@;
    proof {
        assert(shifts@ == capped_shifts(rem, intervals@, shift_limit));
    }
    let n = remaining.len();

    // Walk back, raising shifts so each item keeps following the next one.
    if n > 1 {
        let mut k: usize = n - 1;
        while k >= 1
            invariant
                n == rem.len(),
                remaining@ == rem,
                1 < n,
                k < n,
                shifts@.len() == n,
                backward_shifts(rem, shifts@, k as int) == final_shifts(rem, intervals@, shift_limit),
                backward_respects_anchors(rem, intervals@, shifts@, k as int),
            decreases k,
        {
            let gap = remaining[k].start.saturating_sub(remaining[k - 1].end);
            let required = shifts[k].saturating_sub(gap);
            if required > shifts[k - 1] {
                shifts.set(k - 1, required);
            }
            k = k - 1;
        }
    }
    proof {
        assert(shifts@ == final_shifts(rem, intervals@, shift_limit));
        lemma_backward_shifts_len(rem, capped_shifts(rem, intervals@, shift_limit), rem.len() - 1);
    }
    let ghost moved = rippled_items(rem, intervals@, shift_limit);

    // Move each item and put it back in order.
    let mut result: Vec<Item> = Vec::new();
    let mut j: usize = 0;
    while j < n
        invariant
            n == rem.len(),
            remaining@ == rem,
            shifts@ == final_shifts(rem, intervals@, shift_limit),
            shifts@.len() == n,
            moved == rippled_items(rem, intervals@, shift_limit),
            j <= n,
            result@ == reinserted(moved, j as int),
            changed == (selected != Set::<usize>::empty() || exists|m: int| 0 <= m < j && #[trigger] moved[m] != rem[m]),
            selected == index_set_contents(*selected_indices),
        decreases n - j,
    {
        let mut item = remaining[j];
        let shift = shifts[j];
        if shift > 0 {
            let target_start = item.start.saturating_sub(shift);
            let target_end = target_start.saturating_add(item.end.saturating_sub(item.start));
            if target_start != item.start || target_end != item.end {
                item.start = target_start;
                item.end = target_end;
                changed = true;
            }
        }
        proof {
            assert(item == moved[j as int]);
            assert((exists|m: int| 0 <= m < j + 1 && #[trigger] moved[m] != rem[m]) <==> ((exists|m: int| 0 <= m < j && #[trigger] moved[m] != rem[m]) || moved[j as int] != rem[j as int]));
        }
        let _ = insert_sorted(&mut result, item);
        j = j + 1;
    }
    *items = result;
    changed
}

/// Putting items back one by one keeps them ordered by start and loses or
/// duplicates none of them.
pub proof fn law_reinserted_sorted_permutation(items: Seq<Item>, k: int)
    requires
        0 <= k <= items.len(),
    ensures
        items_sorted(reinserted(items, k)),
        reinserted(items, k).to_multiset() == items.subrange(0, k).to_multiset(),
    decreases k,
{
    if k == 0 {
        assert(items.subrange(0, 0) == Seq::<Item>::empty());
        assert(reinserted(items, 0) == Seq::<Item>::empty());
    } else {
        law_reinserted_sorted_permutation(items, k - 1);
        lemma_insert_item_sorted(reinserted(items, k - 1), items[k - 1]);
        items.subrange(0, k - 1).to_multiset_ensures();
        assert(items.subrange(0, k) == items.subrange(0, k - 1).push(items[k - 1]));
    }
}


/// Nothing lies before position zero.
proof fn lemma_shift_before_zero(intervals: Seq<RippleInterval>, k: int)
    requires
        0 <= k <= intervals.len(),
    ensures
        shift_before(intervals, 0, k) == 0,
    decreases k,
{
    if k > 0 {
        lemma_shift_before_zero(intervals, k - 1);
    }
}

/// Where the backward walk respects the anchors, it raises the shift only of
/// items that move by themselves.
proof fn lemma_backward_raises_only_movers(remaining: Seq<Item>, intervals: Seq<RippleInterval>, shifts: Seq<Time>, index: int)
    requires
        backward_respects_anchors(remaining, intervals, shifts, index),
        shifts.len() <= remaining.len(),
    ensures
        backward_shifts(remaining, shifts, index).len() == shifts.len(),
        forall|k: int|
            0 <= k < shifts.len() && #[trigger] backward_shifts(remaining, shifts, index)[k] != shifts[k] ==> item_shift(
                intervals,
                remaining[k].start,
            ) > 0,
    decreases index,
{
    lemma_backward_shifts_len(remaining, shifts, index);
    if !(index < 1 || index >= shifts.len()) {
        let gap = remaining[index].start.saturating_sub(remaining[index - 1].end);
        let required = shifts[index].saturating_sub(gap);
        let next = if required > shifts[index - 1] { shifts.update(index - 1, required) } else { shifts };
        lemma_backward_raises_only_movers(remaining, intervals, next, index - 1);
        assert(backward_shifts(remaining, shifts, index) == backward_shifts(remaining, next, index - 1));
        assert forall|k: int|
            0 <= k < shifts.len() && #[trigger] backward_shifts(remaining, shifts, index)[k] != shifts[k] implies item_shift(
                intervals,
                remaining[k].start,
            ) > 0 by {
            if backward_shifts(remaining, next, index - 1)[k] == next[k] {
                assert(next[k] != shifts[k]);
                assert(k == index - 1);
            }
        }
    }
}

/// For any shift limit under which the backward walk respects the anchors
/// (the limits that `ripple_track_items` accepts), a ripple moves each item
/// that stays earlier by its own shift: at least the removed time before the
/// item capped at the limit, and at most the limit. The item keeps its
/// length (counted as zero for an item that ends before it starts), id,
/// group and payload, it changes exactly where its shift is not zero, and the track
/// comes out ordered by start, holding each moved item once.
pub proof fn law_ripple_moves_for_any_limit(items: Seq<Item>, selected: Set<usize>, intervals: Seq<RippleInterval>, limit: Time)
    requires
        backward_respects_anchors(
            unselected_items(items, selected, items.len() as int),
            intervals,
            capped_shifts(unselected_items(items, selected, items.len() as int), intervals, limit),
            unselected_items(items, selected, items.len() as int).len() - 1,
        ),
    ensures
        ({
            let remaining = unselected_items(items, selected, items.len() as int);
            let moved = rippled_items(remaining, intervals, limit);
            let f = final_shifts(remaining, intervals, limit);
            &&& moved.len() == remaining.len()
            &&& f.len() == remaining.len()
            &&& forall|k: int|
                0 <= k < remaining.len() ==> min_time(item_shift(intervals, remaining[k].start), limit)
                    <= #[trigger] f[k] <= limit
            &&& forall|k: int|
                0 <= k < remaining.len() ==> {
                    &&& #[trigger] moved[k].start == remaining[k].start.saturating_sub(f[k])
                    &&& moved[k].end.saturating_sub(moved[k].start) == remaining[k].end.saturating_sub(remaining[k].start)
                    &&& moved[k].id == remaining[k].id
                    &&& moved[k].group_id == remaining[k].group_id
                    &&& moved[k].payload == remaining[k].payload
                    &&& (moved[k] != remaining[k] <==> f[k] > 0)
                }
            &&& items_sorted(reinserted(moved, moved.len() as int))
            &&& reinserted(moved, moved.len() as int).to_multiset() == moved.to_multiset()
        }),
{
    let remaining = unselected_items(items, selected, items.len() as int);
    let moved = rippled_items(remaining, intervals, limit);
    let f = final_shifts(remaining, intervals, limit);
    let capped = capped_shifts(remaining, intervals, limit);
    lemma_backward_shifts_bounds(remaining, capped, remaining.len() - 1, limit);
    lemma_backward_raises_only_movers(remaining, intervals, capped, remaining.len() - 1);
    lemma_shift_before_zero(intervals, intervals.len() as int);
    assert forall|k: int| 0 <= k < remaining.len() implies min_time(item_shift(intervals, remaining[k].start), limit)
        <= #[trigger] f[k] <= limit by {
        assert(capped[k] == min_time(item_shift(intervals, remaining[k].start), limit));
    }
    assert forall|k: int| 0 <= k < remaining.len() implies {
        &&& #[trigger] moved[k].start == remaining[k].start.saturating_sub(f[k])
        &&& moved[k].end.saturating_sub(moved[k].start) == remaining[k].end.saturating_sub(remaining[k].start)
        &&& moved[k].id == remaining[k].id
        &&& moved[k].group_id == remaining[k].group_id
        &&& moved[k].payload == remaining[k].payload
        &&& (moved[k] != remaining[k] <==> f[k] > 0)
    } by {
        let it = remaining[k];
        assert(moved[k] == shifted_item(it, f[k]));
        assert(capped[k] == min_time(item_shift(intervals, it.start), limit));
        let len = it.end.saturating_sub(it.start);
        assert(it.start + len <= u64::MAX);
        if f[k] > 0 {
            let st = it.start.saturating_sub(f[k]);
            assert(st <= it.start);
            assert(st + len <= u64::MAX);
            assert(st.saturating_add(len) == st + len);
            assert(moved[k].start == st);
            assert(moved[k].end == st.saturating_add(len));
        }
        if f[k] > 0 {
            if f[k] == capped[k] {
                assert(item_shift(intervals, it.start) > 0);
            } else {
                assert(backward_shifts(remaining, capped, remaining.len() - 1)[k] != capped[k]);
            }
            assert(item_shift(intervals, it.start) > 0);
            assert(it.start != 0);
            assert(moved[k].start < it.start);
        } else {
            assert(moved[k] == it);
        }
        assert(moved[k].start == it.start.saturating_sub(f[k]));
        assert(moved[k].end.saturating_sub(moved[k].start) == it.end.saturating_sub(it.start));
        assert(moved[k].id == it.id);
        assert(moved[k] != it <==> f[k] > 0);
    }
    law_reinserted_sorted_permutation(moved, moved.len() as int);
    assert(moved.subrange(0, moved.len() as int) == moved);
}

} // verus!
