//! Why the shift limit of a track keeps every item that stays in place from
//! being pushed: with the limit that `ripple_track_shift_limit` computes, the
//! backward walk of `ripple_track_items` never raises the shift of an item
//! that does not move by itself.

use vstd::prelude::*;

use crate::model::{Item, Time};
use crate::ripple::{
    RippleInterval, backward_respects_anchors, backward_shifts, capped_shifts, final_shifts, item_shift, min_time,
    lemma_backward_shifts_bounds,
    reinserted, rippled_items, shift_before, shift_limit_state, unselected_items, unselected_ranges,
};
use crate::sorting::{
    first_item_after, first_pair_after, lemma_first_item_props, lemma_first_pair_props, pair_le,
    sort_lex,
};

verus! {

/// Pairs in lexicographic order.
pub open spec fn pairs_lex_sorted(s: Seq<(Time, Time)>) -> bool {
    forall|i: int, j: int| 0 <= i < j < s.len() ==> pair_le(#[trigger] s[i], #[trigger] s[j])
}

/// Items that do not overlap, each ending at or before the next one starts.
pub open spec fn items_disjoint(items: Seq<Item>) -> bool {
    &&& forall|p: int| 0 <= p < items.len() ==> #[trigger] items[p].start <= items[p].end
    &&& forall|p: int, q: int| 0 <= p < q < items.len() ==> #[trigger] items[p].end <= #[trigger] items[q].start
}

/// Sorting pairs that are already in order leaves them as they are.
pub proof fn lemma_sort_lex_sorted(s: Seq<(Time, Time)>)
    requires
        pairs_lex_sorted(s),
    ensures
        sort_lex(s) == s,
    decreases s.len(),
{
    if s.len() > 0 {
        let rest = s.drop_last();
        assert(pairs_lex_sorted(rest)) by {
            assert forall|i: int, j: int| 0 <= i < j < rest.len() implies pair_le(#[trigger] rest[i], #[trigger] rest[j]) by {
                assert(rest[i] == s[i] && rest[j] == s[j]);
            }
        }
        lemma_sort_lex_sorted(rest);
        lemma_first_pair_props(rest, s.last());
        let p = first_pair_after(rest, s.last());
        if p < rest.len() {
            assert(rest[p] == s[p]);
            assert(pair_le(s[p], s[s.len() - 1]));
        }
        assert(rest.insert(rest.len() as int, s.last()) =~= s);
    }
}

/// Every item that is not selected comes from the items, at an earlier index.
proof fn lemma_unselected_from(items: Seq<Item>, selected: Set<usize>, k: int)
    requires
        0 <= k <= items.len(),
    ensures
        unselected_items(items, selected, k).len() <= k,
        forall|i: int| 0 <= i < unselected_items(items, selected, k).len() ==>
            exists|p: int| 0 <= p < k && #[trigger] unselected_items(items, selected, k)[i] == items[p] && p >= i,
    decreases k,
{
    if k > 0 {
        lemma_unselected_from(items, selected, k - 1);
        let prev = unselected_items(items, selected, k - 1);
        let cur = unselected_items(items, selected, k);
        assert forall|i: int| 0 <= i < cur.len() implies exists|p: int| 0 <= p < k && #[trigger] cur[i] == items[p] && p >= i by {
            if i < prev.len() {
                assert(cur[i] == prev[i]);
                let p = choose|p: int| 0 <= p < k - 1 && #[trigger] prev[i] == items[p] && p >= i;
                assert(cur[i] == items[p]);
            } else {
                assert(cur[i] == items[k - 1]);
            }
        }
    }
}

/// The items that are not selected keep the order of the track: each pair of
/// them comes from the track in the same order.
proof fn lemma_unselected_ordered(items: Seq<Item>, selected: Set<usize>, k: int)
    requires
        0 <= k <= items.len(),
    ensures
        forall|i: int, j: int| 0 <= i < j < unselected_items(items, selected, k).len() ==>
            exists|p: int, q: int| 0 <= p < q < k
                && #[trigger] unselected_items(items, selected, k)[i] == items[p]
                && #[trigger] unselected_items(items, selected, k)[j] == items[q],
    decreases k,
{
    if k > 0 {
        lemma_unselected_ordered(items, selected, k - 1);
        lemma_unselected_from(items, selected, k - 1);
        let prev = unselected_items(items, selected, k - 1);
        let cur = unselected_items(items, selected, k);
        assert forall|i: int, j: int| 0 <= i < j < cur.len() implies
            exists|p: int, q: int| 0 <= p < q < k && #[trigger] cur[i] == items[p] && #[trigger] cur[j] == items[q] by {
            if j < prev.len() {
                assert(cur[i] == prev[i] && cur[j] == prev[j]);
                let (p, q) = choose|p: int, q: int| 0 <= p < q < k - 1 && #[trigger] prev[i] == items[p] && #[trigger] prev[j] == items[q];
                assert(cur[i] == items[p] && cur[j] == items[q]);
            } else {
                assert(cur[i] == prev[i]);
                assert(cur[j] == items[k - 1]);
                let p = choose|p: int| 0 <= p < k - 1 && #[trigger] prev[i] == items[p] && p >= i;
                assert(cur[i] == items[p]);
            }
        }
    }
}

/// The ranges of the items that are not selected are those items' ranges.
proof fn lemma_unselected_ranges_match(items: Seq<Item>, selected: Set<usize>, k: int)
    requires
        0 <= k <= items.len(),
    ensures
        unselected_ranges(items, selected, k).len() == unselected_items(items, selected, k).len(),
        forall|i: int| 0 <= i < unselected_ranges(items, selected, k).len() ==>
            #[trigger] unselected_ranges(items, selected, k)[i]
                == (unselected_items(items, selected, k)[i].start, unselected_items(items, selected, k)[i].end),
    decreases k,
{
    if k > 0 {
        lemma_unselected_ranges_match(items, selected, k - 1);
    }
}

/// On a track whose items do not overlap, the ranges of the items that stay
/// are already in lexicographic order.
pub proof fn lemma_unselected_ranges_sorted(items: Seq<Item>, selected: Set<usize>)
    requires
        items_disjoint(items),
    ensures
        pairs_lex_sorted(unselected_ranges(items, selected, items.len() as int)),
        sort_lex(unselected_ranges(items, selected, items.len() as int)) == unselected_ranges(items, selected, items.len() as int),
{
    let n = items.len() as int;
    let r = unselected_ranges(items, selected, n);
    let rem = unselected_items(items, selected, n);
    lemma_unselected_ranges_match(items, selected, n);
    lemma_unselected_ordered(items, selected, n);
    assert forall|i: int, j: int| 0 <= i < j < r.len() implies pair_le(#[trigger] r[i], #[trigger] r[j]) by {
        let (p, q) = choose|p: int, q: int| 0 <= p < q < n && #[trigger] rem[i] == items[p] && #[trigger] rem[j] == items[q];
        assert(items[p].start <= items[p].end);
        assert(items[p].end <= items[q].start);
        assert(items[q].start <= items[q].end);
    }
    lemma_sort_lex_sorted(r);
}

/// The free time between range `k - 1` and range `k`.
pub open spec fn range_gap(r: Seq<(Time, Time)>, k: int) -> int {
    r[k].0.saturating_sub(r[k - 1].1) as int
}

/// The free time between range `a` and range `j`, counted gap by gap.
pub open spec fn gap_sum(r: Seq<(Time, Time)>, a: int, j: int) -> int
    decreases j - a,
{
    if j <= a {
        0
    } else {
        gap_sum(r, a, j - 1) + range_gap(r, j)
    }
}

proof fn lemma_gap_sum_nonneg(r: Seq<(Time, Time)>, a: int, j: int)
    ensures
        gap_sum(r, a, j) >= 0,
    decreases j - a,
{
    if j > a {
        lemma_gap_sum_nonneg(r, a, j - 1);
    }
}

/// Counting from an earlier range gives at least as much free time.
proof fn lemma_gap_sum_split(r: Seq<(Time, Time)>, a: int, b: int, j: int)
    requires
        a <= b <= j,
    ensures
        gap_sum(r, a, j) == gap_sum(r, a, b) + gap_sum(r, b, j),
    decreases j - b,
{
    if j > b {
        lemma_gap_sum_split(r, a, b, j - 1);
    }
}

/// The shift that the limit computation grants range `j` without looking at
/// the limit.
pub open spec fn wanted_shift(r: Seq<(Time, Time)>, intervals: Seq<RippleInterval>, max_shift: Time, j: int) -> Time {
    min_time(shift_before(intervals, r[j].0, intervals.len() as int) as Time, max_shift)
}

/// The free room the limit computation has gathered when it reaches range `j`.
pub open spec fn room_at(r: Seq<(Time, Time)>, intervals: Seq<RippleInterval>, max_shift: Time, j: int) -> Time {
    let (shift, gap, previous_end) = shift_limit_state(r, intervals, max_shift, j);
    let room = match previous_end {
        Some(previous) => r[j].0.saturating_sub(previous),
        None => r[j].0,
    };
    gap.saturating_add(room)
}

proof fn lemma_limit_state_shape(r: Seq<(Time, Time)>, intervals: Seq<RippleInterval>, max_shift: Time, k: int)
    requires
        0 <= k <= r.len(),
    ensures
        k == 0 ==> shift_limit_state(r, intervals, max_shift, k).2 is None,
        k > 0 ==> shift_limit_state(r, intervals, max_shift, k).2 == Some(r[k - 1].1),
        shift_limit_state(r, intervals, max_shift, k).0 <= max_shift,
        k > 0 ==> shift_limit_state(r, intervals, max_shift, k).1 == (if wanted_shift(r, intervals, max_shift, k - 1) == 0 {
            0
        } else {
            room_at(r, intervals, max_shift, k - 1)
        }),
    decreases k,
{
    if k > 0 {
        lemma_limit_state_shape(r, intervals, max_shift, k - 1);
    }
}

/// The limit never grows, and every range that moves either asks for no more
/// than the room in front of it or brings the limit down to that room.
proof fn lemma_limit_bounded(r: Seq<(Time, Time)>, intervals: Seq<RippleInterval>, max_shift: Time, k: int)
    requires
        0 <= k <= r.len(),
    ensures
        forall|j: int| 0 <= j < k ==> {
            let w = #[trigger] wanted_shift(r, intervals, max_shift, j);
            w == 0 || w <= room_at(r, intervals, max_shift, j)
                || shift_limit_state(r, intervals, max_shift, k).0 <= room_at(r, intervals, max_shift, j)
        },
    decreases k,
{
    if k > 0 {
        lemma_limit_bounded(r, intervals, max_shift, k - 1);
        lemma_limit_state_shape(r, intervals, max_shift, k - 1);
    }
}

/// The room gathered at range `j` is no more than the free time since any
/// earlier range that stays in place.
proof fn lemma_room_bounded(r: Seq<(Time, Time)>, intervals: Seq<RippleInterval>, max_shift: Time, a: int, j: int)
    requires
        0 <= a < j < r.len(),
        wanted_shift(r, intervals, max_shift, a) == 0,
    ensures
        room_at(r, intervals, max_shift, j) <= gap_sum(r, a, j),
    decreases j - a,
{
    lemma_limit_state_shape(r, intervals, max_shift, j);
    if j - 1 == a {
        assert(gap_sum(r, a, j - 1) == 0);
        assert(gap_sum(r, a, j) == range_gap(r, j));
    } else {
        lemma_room_bounded(r, intervals, max_shift, a, j - 1);
        lemma_gap_sum_nonneg(r, a, j - 1);
    }
}

/// The capped shift of every range is no more than the free time since any
/// earlier range that stays in place.
pub proof fn lemma_capped_within_gaps(r: Seq<(Time, Time)>, intervals: Seq<RippleInterval>, max_shift: Time, a: int, j: int)
    requires
        0 <= a < j < r.len(),
        shift_before(intervals, r[a].0, intervals.len() as int) as Time == 0,
    ensures
        min_time(
            shift_before(intervals, r[j].0, intervals.len() as int) as Time,
            shift_limit_state(r, intervals, max_shift, r.len() as int).0,
        ) <= gap_sum(r, a, j),
{
    let n = r.len() as int;
    lemma_limit_bounded(r, intervals, max_shift, n);
    lemma_limit_state_shape(r, intervals, max_shift, n);
    assert(wanted_shift(r, intervals, max_shift, a) == 0);
    lemma_room_bounded(r, intervals, max_shift, a, j);
    let w = wanted_shift(r, intervals, max_shift, j);
    assert(w == 0 || w <= room_at(r, intervals, max_shift, j)
        || shift_limit_state(r, intervals, max_shift, n).0 <= room_at(r, intervals, max_shift, j));
    lemma_gap_sum_nonneg(r, a, j);
}

/// The backward walk, from `index` down, respects the anchors when every
/// shift still to come lies within the free time since each anchor.
proof fn lemma_walk_respects_anchors(
    remaining: Seq<Item>,
    r: Seq<(Time, Time)>,
    intervals: Seq<RippleInterval>,
    capped: Seq<Time>,
    shifts: Seq<Time>,
    index: int,
)
    requires
        r.len() == remaining.len(),
        capped.len() == remaining.len(),
        shifts.len() == remaining.len(),
        0 <= index < remaining.len(),
        forall|k: int| 0 <= k < r.len() ==> #[trigger] r[k] == (remaining[k].start, remaining[k].end),
        forall|k: int| 0 <= k < index ==> #[trigger] shifts[k] == capped[k],
        forall|a: int| 0 <= a < remaining.len() && item_shift(intervals, #[trigger] remaining[a].start) == 0 ==> capped[a] == 0,
        forall|a: int, j: int| 0 <= a < j < remaining.len() && item_shift(intervals, #[trigger] remaining[a].start) == 0 ==>
            #[trigger] capped[j] <= gap_sum(r, a, j),
        forall|a: int| 0 <= a < index && item_shift(intervals, #[trigger] remaining[a].start) == 0 ==>
            shifts[index] <= gap_sum(r, a, index),
    ensures
        backward_respects_anchors(remaining, intervals, shifts, index),
    decreases index,
{
    if index >= 1 {
        let gap = remaining[index].start.saturating_sub(remaining[index - 1].end);
        assert(gap == range_gap(r, index));
        let required = shifts[index].saturating_sub(gap);
        if item_shift(intervals, remaining[index - 1].start) == 0 {
            assert(gap_sum(r, index - 1, index - 1) == 0);
            assert(gap_sum(r, index - 1, index) == range_gap(r, index));
            assert(required == 0);
        }
        if required > shifts[index - 1] {
            let next = shifts.update(index - 1, required);
            assert forall|a: int| 0 <= a < index - 1 && item_shift(intervals, #[trigger] remaining[a].start) == 0 implies
                next[index - 1] <= gap_sum(r, a, index - 1) by {
                assert(gap_sum(r, a, index) == gap_sum(r, a, index - 1) + range_gap(r, index));
            }
            lemma_walk_respects_anchors(remaining, r, intervals, capped, next, index - 1);
        } else {
            assert forall|a: int| 0 <= a < index - 1 && item_shift(intervals, #[trigger] remaining[a].start) == 0 implies
                shifts[index - 1] <= gap_sum(r, a, index - 1) by {
                assert(shifts[index - 1] == capped[index - 1]);
            }
            lemma_walk_respects_anchors(remaining, r, intervals, capped, shifts, index - 1);
        }
    }
}

/// On a track whose items do not overlap, the limit that the shift-limit
/// computation returns (for any requested maximum) keeps the backward walk of
/// a ripple from pushing any item that stays in place.
pub proof fn law_shift_limit_respects_anchors(
    items: Seq<Item>,
    selected: Set<usize>,
    intervals: Seq<RippleInterval>,
    max_shift: Time,
)
    requires
        items_disjoint(items),
    ensures
        ({
            let remaining = unselected_items(items, selected, items.len() as int);
            let ranges = sort_lex(unselected_ranges(items, selected, items.len() as int));
            let limit = shift_limit_state(ranges, intervals, max_shift, ranges.len() as int).0;
            backward_respects_anchors(
                remaining,
                intervals,
                capped_shifts(remaining, intervals, limit),
                remaining.len() - 1,
            )
        }),
{
    let n = items.len() as int;
    let remaining = unselected_items(items, selected, n);
    let r = unselected_ranges(items, selected, n);
    lemma_unselected_ranges_sorted(items, selected);
    lemma_unselected_ranges_match(items, selected, n);
    let limit = shift_limit_state(r, intervals, max_shift, r.len() as int).0;
    let capped = capped_shifts(remaining, intervals, limit);
    if remaining.len() > 0 {
        assert forall|a: int, j: int| 0 <= a < j < remaining.len() && item_shift(intervals, #[trigger] remaining[a].start) == 0 implies
            #[trigger] capped[j] <= gap_sum(r, a, j) by {
            assert(r[a] == (remaining[a].start, remaining[a].end));
            assert(r[j] == (remaining[j].start, remaining[j].end));
            lemma_capped_within_gaps(r, intervals, max_shift, a, j);
        }
        let last = remaining.len() - 1;
        assert forall|a: int| 0 <= a < last && item_shift(intervals, #[trigger] remaining[a].start) == 0 implies
            capped[last] <= gap_sum(r, a, last) by {
            assert(capped[last] <= gap_sum(r, a, last));
        }
        lemma_walk_respects_anchors(remaining, r, intervals, capped, capped, last);
    }
}

// ----- a ripple keeps a track free of overlaps -----

/// The items that stay on a track whose items do not overlap do not overlap
/// either.
proof fn lemma_unselected_disjoint(items: Seq<Item>, selected: Set<usize>)
    requires
        items_disjoint(items),
    ensures
        items_disjoint(unselected_items(items, selected, items.len() as int)),
{
    let n = items.len() as int;
    let rem = unselected_items(items, selected, n);
    lemma_unselected_ordered(items, selected, n);
    lemma_unselected_from(items, selected, n);
    assert forall|p: int| 0 <= p < rem.len() implies #[trigger] rem[p].start <= rem[p].end by {
        let q = choose|q: int| 0 <= q < n && #[trigger] rem[p] == items[q] && q >= p;
        assert(items[q].start <= items[q].end);
    }
    assert forall|p: int, q: int| 0 <= p < q < rem.len() implies #[trigger] rem[p].end <= #[trigger] rem[q].start by {
        let (a, b) = choose|a: int, b: int| 0 <= a < b < n && #[trigger] rem[p] == items[a] && #[trigger] rem[q] == items[b];
        assert(items[a].end <= items[b].start);
    }
}

/// Along items that do not overlap, the room the limit computation gathers
/// at an item never exceeds that item's start.
proof fn lemma_room_within_start(r: Seq<(Time, Time)>, intervals: Seq<RippleInterval>, max_shift: Time, j: int)
    requires
        0 <= j < r.len(),
        forall|k: int| 0 <= k < r.len() ==> #[trigger] r[k].0 <= r[k].1,
        forall|k: int| 0 < k < r.len() ==> #[trigger] r[k - 1].1 <= r[k].0,
    ensures
        room_at(r, intervals, max_shift, j) <= r[j].0,
    decreases j,
{
    lemma_limit_state_shape(r, intervals, max_shift, j);
    if j > 0 {
        lemma_room_within_start(r, intervals, max_shift, j - 1);
        assert(r[j - 1].0 <= r[j - 1].1);
        assert(r[j - 1].1 <= r[j].0);
    }
}

/// The shift each item asks for, capped at the limit, is no more than the
/// room gathered at it.
proof fn lemma_capped_within_room(r: Seq<(Time, Time)>, intervals: Seq<RippleInterval>, max_shift: Time, j: int)
    requires
        0 <= j < r.len(),
    ensures
        min_time(
            shift_before(intervals, r[j].0, intervals.len() as int) as Time,
            shift_limit_state(r, intervals, max_shift, r.len() as int).0,
        ) <= room_at(r, intervals, max_shift, j),
{
    let n = r.len() as int;
    lemma_limit_bounded(r, intervals, max_shift, n);
    lemma_limit_state_shape(r, intervals, max_shift, n);
    let w = wanted_shift(r, intervals, max_shift, j);
    assert(w == 0 || w <= room_at(r, intervals, max_shift, j)
        || shift_limit_state(r, intervals, max_shift, n).0 <= room_at(r, intervals, max_shift, j));
}

/// What the backward walk leaves: each shift no more than the room gathered
/// at its item, and each item shifted at least as far as the next one needs
/// to keep its gap.
proof fn lemma_walk_result(
    remaining: Seq<Item>,
    r: Seq<(Time, Time)>,
    intervals: Seq<RippleInterval>,
    max_shift: Time,
    shifts: Seq<Time>,
    index: int,
)
    requires
        r.len() == remaining.len(),
        shifts.len() == remaining.len(),
        0 <= index < remaining.len(),
        forall|k: int| 0 <= k < r.len() ==> #[trigger] r[k] == (remaining[k].start, remaining[k].end),
        forall|k: int| 0 <= k < shifts.len() ==> #[trigger] shifts[k] <= room_at(r, intervals, max_shift, k),
        forall|k: int|
            index < k < shifts.len() ==> #[trigger] shifts[k - 1] >= shifts[k].saturating_sub(
                remaining[k].start.saturating_sub(remaining[k - 1].end),
            ),
    ensures
        backward_shifts(remaining, shifts, index).len() == shifts.len(),
        forall|k: int|
            0 <= k < shifts.len() ==> #[trigger] backward_shifts(remaining, shifts, index)[k] <= room_at(
                r,
                intervals,
                max_shift,
                k,
            ),
        forall|k: int|
            0 < k < shifts.len() ==> #[trigger] backward_shifts(remaining, shifts, index)[k - 1] >= backward_shifts(
                remaining,
                shifts,
                index,
            )[k].saturating_sub(remaining[k].start.saturating_sub(remaining[k - 1].end)),
    decreases index,
{
    if index >= 1 {
        let gap = remaining[index].start.saturating_sub(remaining[index - 1].end);
        let required = shifts[index].saturating_sub(gap);
        lemma_limit_state_shape(r, intervals, max_shift, index);
        let next = if required > shifts[index - 1] { shifts.update(index - 1, required) } else { shifts };
        if required > shifts[index - 1] {
            assert(required <= room_at(r, intervals, max_shift, index - 1)) by {
                assert(shifts[index] <= room_at(r, intervals, max_shift, index));
                assert(r[index] == (remaining[index].start, remaining[index].end));
                assert(r[index - 1] == (remaining[index - 1].start, remaining[index - 1].end));
            }
        }
        assert forall|k: int| 0 <= k < next.len() implies #[trigger] next[k] <= room_at(r, intervals, max_shift, k) by {
            if k != index - 1 {
                assert(next[k] == shifts[k]);
            }
        }
        assert forall|k: int|
            index - 1 < k < next.len() implies #[trigger] next[k - 1] >= next[k].saturating_sub(
                remaining[k].start.saturating_sub(remaining[k - 1].end),
            ) by {
            if k > index {
                assert(next[k] == shifts[k]);
                if k - 1 != index - 1 {
                    assert(next[k - 1] == shifts[k - 1]);
                }
            }
        }
        lemma_walk_result(remaining, r, intervals, max_shift, next, index - 1);
    } else {
        assert forall|k: int|
            0 < k < shifts.len() implies #[trigger] shifts[k - 1] >= shifts[k].saturating_sub(
                remaining[k].start.saturating_sub(remaining[k - 1].end),
            ) by {
        }
    }
}

/// Items ordered by start are put back in the order they came.
proof fn lemma_reinserted_ordered(s: Seq<Item>, k: int)
    requires
        0 <= k <= s.len(),
        forall|i: int, j: int| 0 <= i < j < s.len() ==> #[trigger] s[i].start <= #[trigger] s[j].start,
    ensures
        reinserted(s, k) == s.subrange(0, k),
    decreases k,
{
    if k > 0 {
        lemma_reinserted_ordered(s, k - 1);
        let prev = s.subrange(0, k - 1);
        lemma_first_item_props(prev, s[k - 1].start);
        let q = first_item_after(prev, s[k - 1].start);
        if q < prev.len() {
            assert(prev[q] == s[q]);
        }
        assert(prev.insert(prev.len() as int, s[k - 1]) == s.subrange(0, k));
    }
}

/// The items that stay, moved by the ripple: each moved earlier by its
/// final shift without reaching below zero, and each shifted at least as far
/// as the next one needs to keep its gap.
proof fn lemma_moved_items(items: Seq<Item>, selected: Set<usize>, intervals: Seq<RippleInterval>, max_shift: Time)
    requires
        items_disjoint(items),
    ensures
        ({
            let remaining = unselected_items(items, selected, items.len() as int);
            let ranges = sort_lex(unselected_ranges(items, selected, items.len() as int));
            let limit = shift_limit_state(ranges, intervals, max_shift, ranges.len() as int).0;
            let moved = rippled_items(remaining, intervals, limit);
            let f = final_shifts(remaining, intervals, limit);
            &&& items_disjoint(remaining)
            &&& moved.len() == remaining.len()
            &&& f.len() == remaining.len()
            &&& forall|k: int|
                0 <= k < remaining.len() ==> #[trigger] moved[k].start == remaining[k].start - f[k] && moved[k].end
                    == remaining[k].end - f[k]
            &&& forall|k: int|
                0 < k < remaining.len() ==> #[trigger] f[k - 1] >= f[k].saturating_sub(
                    remaining[k].start.saturating_sub(remaining[k - 1].end),
                )
        }),
{
    let n = items.len() as int;
    let remaining = unselected_items(items, selected, n);
    let r = unselected_ranges(items, selected, n);
    lemma_unselected_ranges_sorted(items, selected);
    lemma_unselected_ranges_match(items, selected, n);
    lemma_unselected_disjoint(items, selected);
    let limit = shift_limit_state(r, intervals, max_shift, r.len() as int).0;
    let capped = capped_shifts(remaining, intervals, limit);
    let m = remaining.len() as int;
    if m > 0 {
        assert forall|k: int| 0 <= k < r.len() implies #[trigger] r[k].0 <= r[k].1 by {
            assert(r[k] == (remaining[k].start, remaining[k].end));
        }
        assert forall|k: int| 0 < k < r.len() implies #[trigger] r[k - 1].1 <= r[k].0 by {
            assert(r[k] == (remaining[k].start, remaining[k].end));
            assert(r[k - 1] == (remaining[k - 1].start, remaining[k - 1].end));
        }
        assert forall|k: int| 0 <= k < capped.len() implies #[trigger] capped[k] <= room_at(r, intervals, max_shift, k) by {
            assert(r[k] == (remaining[k].start, remaining[k].end));
            lemma_capped_within_room(r, intervals, max_shift, k);
        }
        lemma_walk_result(remaining, r, intervals, max_shift, capped, m - 1);
        let f = final_shifts(remaining, intervals, limit);
        assert(f == backward_shifts(remaining, capped, m - 1));
        let moved = rippled_items(remaining, intervals, limit);
        assert forall|k: int| 0 <= k < m implies #[trigger] moved[k].start == remaining[k].start - f[k] && moved[k].end
            == remaining[k].end - f[k] by {
            lemma_room_within_start(r, intervals, max_shift, k);
            assert(r[k] == (remaining[k].start, remaining[k].end));
            assert(f[k] <= remaining[k].start);
            assert(remaining[k].start <= remaining[k].end);
        }
    }
}

/// Ripple deleting on a track whose items do not overlap leaves items that
/// do not overlap: each moved item still ends at or before the next one
/// starts.
pub proof fn law_ripple_keeps_track_disjoint(
    items: Seq<Item>,
    selected: Set<usize>,
    intervals: Seq<RippleInterval>,
    max_shift: Time,
)
    requires
        items_disjoint(items),
    ensures
        ({
            let remaining = unselected_items(items, selected, items.len() as int);
            let ranges = sort_lex(unselected_ranges(items, selected, items.len() as int));
            let limit = shift_limit_state(ranges, intervals, max_shift, ranges.len() as int).0;
            let moved = rippled_items(remaining, intervals, limit);
            items_disjoint(reinserted(moved, moved.len() as int))
        }),
{
    let n = items.len() as int;
    let remaining = unselected_items(items, selected, n);
    let ranges = sort_lex(unselected_ranges(items, selected, n));
    let limit = shift_limit_state(ranges, intervals, max_shift, ranges.len() as int).0;
    let moved = rippled_items(remaining, intervals, limit);
    let f = final_shifts(remaining, intervals, limit);
    lemma_moved_items(items, selected, intervals, max_shift);
    let m = moved.len() as int;
    assert forall|k: int| 0 < k < m implies #[trigger] moved[k - 1].end <= moved[k].start by {
        assert(moved[k - 1].start == remaining[k - 1].start - f[k - 1]);
        assert(moved[k].start == remaining[k].start - f[k]);
        assert(remaining[k - 1].end <= remaining[k].start);
        assert(f[k - 1] >= f[k].saturating_sub(remaining[k].start.saturating_sub(remaining[k - 1].end)));
    }
    assert forall|p: int| 0 <= p < m implies #[trigger] moved[p].start <= moved[p].end by {
        assert(moved[p].start == remaining[p].start - f[p]);
        assert(remaining[p].start <= remaining[p].end);
    }
    assert forall|p: int, q: int| 0 <= p < q < m implies #[trigger] moved[p].end <= #[trigger] moved[q].start by {
        lemma_chain(moved, p, q);
    }
    assert forall|p: int, q: int| 0 <= p < q < m implies #[trigger] moved[p].start <= #[trigger] moved[q].start by {
        assert(moved[p].start <= moved[p].end);
        assert(moved[p].end <= moved[q].start);
    }
    lemma_reinserted_ordered(moved, m);
    assert(moved.subrange(0, m) == moved);
}

/// Ripple deleting on a track whose items do not overlap keeps the items that
/// stay in their order, and moves each of them earlier by its own shift, with
/// its length, id, group and payload kept: a shift at least the removed time
/// before the item (capped at the limit) and at most the limit. An item
/// changes exactly where its shift is not zero, so a ripple reports a change
/// exactly where it removed an item or moved one.
pub proof fn law_ripple_moves_within_bounds(
    items: Seq<Item>,
    selected: Set<usize>,
    intervals: Seq<RippleInterval>,
    max_shift: Time,
)
    requires
        items_disjoint(items),
    ensures
        ({
            let remaining = unselected_items(items, selected, items.len() as int);
            let ranges = sort_lex(unselected_ranges(items, selected, items.len() as int));
            let limit = shift_limit_state(ranges, intervals, max_shift, ranges.len() as int).0;
            let moved = rippled_items(remaining, intervals, limit);
            let f = final_shifts(remaining, intervals, limit);
            &&& reinserted(moved, moved.len() as int) == moved
            &&& moved.len() == remaining.len()
            &&& forall|k: int|
                0 <= k < remaining.len() ==> min_time(item_shift(intervals, remaining[k].start), limit)
                    <= #[trigger] f[k] <= limit
            &&& forall|k: int|
                0 <= k < remaining.len() ==> {
                    &&& #[trigger] moved[k].start == remaining[k].start - f[k]
                    &&& moved[k].end - moved[k].start == remaining[k].end - remaining[k].start
                    &&& moved[k].id == remaining[k].id
                    &&& moved[k].group_id == remaining[k].group_id
                    &&& moved[k].payload == remaining[k].payload
                    &&& (moved[k] != remaining[k] <==> f[k] > 0)
                }
        }),
{
    let n = items.len() as int;
    let remaining = unselected_items(items, selected, n);
    let ranges = sort_lex(unselected_ranges(items, selected, n));
    let limit = shift_limit_state(ranges, intervals, max_shift, ranges.len() as int).0;
    let moved = rippled_items(remaining, intervals, limit);
    let f = final_shifts(remaining, intervals, limit);
    let capped = capped_shifts(remaining, intervals, limit);
    lemma_moved_items(items, selected, intervals, max_shift);
    lemma_backward_shifts_bounds(remaining, capped, remaining.len() - 1, limit);
    assert forall|k: int| 0 <= k < remaining.len() implies min_time(item_shift(intervals, remaining[k].start), limit)
        <= #[trigger] f[k] <= limit by {
        assert(capped[k] == min_time(item_shift(intervals, remaining[k].start), limit));
    }
    let m = moved.len() as int;
    assert forall|k: int| 0 < k < m implies #[trigger] moved[k - 1].end <= moved[k].start by {
        assert(moved[k - 1].start == remaining[k - 1].start - f[k - 1]);
        assert(moved[k].start == remaining[k].start - f[k]);
        assert(remaining[k - 1].end <= remaining[k].start);
        assert(f[k - 1] >= f[k].saturating_sub(remaining[k].start.saturating_sub(remaining[k - 1].end)));
    }
    assert forall|p: int| 0 <= p < m implies #[trigger] moved[p].start <= moved[p].end by {
        assert(moved[p].start == remaining[p].start - f[p]);
        assert(remaining[p].start <= remaining[p].end);
    }
    assert forall|p: int, q: int| 0 <= p < q < m implies #[trigger] moved[p].start <= #[trigger] moved[q].start by {
        lemma_chain(moved, p, q);
        assert(moved[p].start <= moved[p].end);
    }
    lemma_reinserted_ordered(moved, m);
    assert(moved.subrange(0, m) == moved);
    assert forall|k: int| 0 <= k < remaining.len() implies {
        &&& #[trigger] moved[k].start == remaining[k].start - f[k]
        &&& moved[k].end - moved[k].start == remaining[k].end - remaining[k].start
        &&& moved[k].id == remaining[k].id
        &&& moved[k].group_id == remaining[k].group_id
        &&& moved[k].payload == remaining[k].payload
        &&& (moved[k] != remaining[k] <==> f[k] > 0)
    } by {
        assert(moved[k] == crate::ripple::shifted_item(remaining[k], f[k]));
    }
}

/// In a row of items where each starts no earlier than it ends and each ends
/// no later than the next starts, every item ends no later than any later
/// one starts.
proof fn lemma_chain(s: Seq<Item>, p: int, q: int)
    requires
        0 <= p < q < s.len(),
        forall|k: int| 0 < k < s.len() ==> #[trigger] s[k - 1].end <= s[k].start,
        forall|k: int| 0 <= k < s.len() ==> #[trigger] s[k].start <= s[k].end,
    ensures
        s[p].end <= s[q].start,
    decreases q - p,
{
    if q > p + 1 {
        lemma_chain(s, p, q - 1);
        assert(s[q - 1].start <= s[q - 1].end);
        assert(s[q - 1].end <= s[q].start);
    } else {
        assert(s[q - 1].end <= s[q].start);
    }
}

} // verus!
