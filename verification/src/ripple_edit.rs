//! Ripple deletion on the root timeline: the selected items (grown to whole
//! groups) are removed and every track closes the time they covered.

use vstd::prelude::*;

use crate::collections::{IndexSet, index_set_contents};
use crate::grouping::{expand_grouped_item_addresses, expansion_walk, in_expansion};
use crate::model::{Item, ItemAddress, Project, Time, Track, TrackKind};
use crate::ripple::{
    RippleInterval, backward_respects_anchors, capped_shifts, intervals_cover, intervals_wf, min_time, range_holds, ranges_cover, reinserted,
    ripple_intervals_from_ranges, ripple_position_shift, ripple_total_shift, ripple_track_items,
    ripple_track_shift_limit, rippled_items, shift_before, shift_limit_state, total_length, unselected_items,
    unselected_ranges,
};
use crate::model::items_sorted;
use crate::ripple::law_reinserted_sorted_permutation;
use crate::ripple_limit::{items_disjoint, law_shift_limit_respects_anchors};
use crate::sorting::sort_lex;

verus! {

// ----- frame snapping -----

/// `time` moved to the nearest multiple of `step` (halfway rounds up, and a
/// multiple past the largest time rounds down instead); a zero step leaves
/// it as it is. This models the project's snapping of a time to the frame
/// grid, which this library writes out itself: the crate that holds it is not
/// among its dependencies, so nothing here checks the two against each other.
pub open spec fn snap_time(time: Time, step: Time) -> Time {
    if step == 0 {
        time
    } else {
        let rem = time % step;
        let down = (time - rem) as Time;
        if rem >= step - rem && down <= u64::MAX - step {
            (down + step) as Time
        } else {
            down
        }
    }
}

/// Moves a time to the nearest frame boundary.
pub fn snapped(time: Time, step: Time) -> (r: Time)
    ensures
        r == snap_time(time, step),
{
    if step == 0 {
        return time;
    }
    let rem = time % step;
    assert(rem <= time) by (nonlinear_arith)
        requires
            step > 0,
            rem == time % step,
    ;
    let down = time - rem;
    if rem >= step - rem && down <= u64::MAX - step {
        down + step
    } else {
        down
    }
}

/// An interval with both ends snapped to frames, as an ordered range.
pub open spec fn snapped_range(interval: RippleInterval, step: Time) -> (Time, Time) {
    let first = snap_time(interval.start, step);
    let second = snap_time(interval.end, step);
    (min_time(first, second), if first <= second { second } else { first })
}

/// The snapped range of each interval.
pub open spec fn snapped_ranges(intervals: Seq<RippleInterval>, step: Time) -> Seq<(Time, Time)> {
    Seq::new(intervals.len(), |i: int| snapped_range(intervals[i], step))
}

/// The intervals that a track of the root timeline removes: the timeline
/// intervals with their ends snapped to frames, merged again.
pub fn local_intervals(intervals: &Vec<RippleInterval>, frame_step: Time) -> (r: Vec<RippleInterval>)
    ensures
        intervals_wf(r@),
        forall|t: int| intervals_cover(r@, t) <==> ranges_cover(snapped_ranges(intervals@, frame_step), t),
{
    let mut ranges: Vec<(Time, Time)> = Vec::new();
    let mut i: usize = 0;
    while i < intervals.len()
        invariant
            i <= intervals@.len(),
            ranges@ == snapped_ranges(intervals@, frame_step).subrange(0, i as int),
        decreases intervals@.len() - i,
    {
        let first = snapped(intervals[i].start, frame_step);
        let second = snapped(intervals[i].end, frame_step);
        let low = if first <= second { first } else { second };
        let high = if first <= second { second } else { first };
        ranges.push((low, high));
        proof {
            assert(snapped_ranges(intervals@, frame_step).subrange(0, i + 1) == snapped_ranges(intervals@, frame_step).subrange(
                0,
                i as int,
            ).push(snapped_range(intervals@[i as int], frame_step)));
        }
        i = i + 1;
    }
    proof {
        assert(ranges@ == snapped_ranges(intervals@, frame_step));
    }
    ripple_intervals_from_ranges(&ranges)
}

// ----- the times that a selection covers -----

/// Whether the item that `address` names covers `t`.
pub open spec fn address_holds(project: Project, address: ItemAddress, t: int) -> bool {
    match project.item_at_address(address) {
        Some(item) => range_holds(item.start, item.end, t),
        None => false,
    }
}

/// The `(start, end)` of each item that one of the addresses names, in order.
pub open spec fn address_ranges(project: Project, addresses: Seq<ItemAddress>) -> Seq<(Time, Time)>
    decreases addresses.len(),
{
    if addresses.len() == 0 {
        Seq::empty()
    } else {
        let prev = address_ranges(project, addresses.drop_last());
        match project.item_at_address(addresses.last()) {
            Some(item) => prev.push((item.start, item.end)),
            None => prev,
        }
    }
}

proof fn lemma_address_ranges_cover(project: Project, addresses: Seq<ItemAddress>, t: int)
    ensures
        ranges_cover(address_ranges(project, addresses), t) <==> exists|k: int|
            0 <= k < addresses.len() && #[trigger] address_holds(project, addresses[k], t),
    decreases addresses.len(),
{
    if addresses.len() > 0 {
        let rest = addresses.drop_last();
        lemma_address_ranges_cover(project, rest, t);
        let prev = address_ranges(project, rest);
        let cur = address_ranges(project, addresses);
        if ranges_cover(cur, t) {
            let i = choose|i: int| 0 <= i < cur.len() && #[trigger] range_holds(cur[i].0, cur[i].1, t);
            if i < prev.len() {
                assert(cur[i] == prev[i]);
                assert(ranges_cover(prev, t));
                let k = choose|k: int| 0 <= k < rest.len() && #[trigger] address_holds(project, rest[k], t);
                assert(addresses[k] == rest[k]);
            } else {
                assert(address_holds(project, addresses[addresses.len() - 1], t));
            }
        }
        if exists|k: int| 0 <= k < addresses.len() && #[trigger] address_holds(project, addresses[k], t) {
            let k = choose|k: int| 0 <= k < addresses.len() && #[trigger] address_holds(project, addresses[k], t);
            if k < addresses.len() - 1 {
                assert(rest[k] == addresses[k]);
                assert(ranges_cover(prev, t));
                let i = choose|i: int| 0 <= i < prev.len() && #[trigger] range_holds(prev[i].0, prev[i].1, t);
                assert(cur[i] == prev[i]);
            } else {
                let item = project.item_at_address(addresses.last()).unwrap();
                assert(cur[cur.len() - 1] == (item.start, item.end));
                assert(range_holds(cur[cur.len() - 1].0, cur[cur.len() - 1].1, t));
            }
        }
    }
}

/// Returns the `(start, end)` of each item that one of the addresses names.
fn address_time_ranges(project: &Project, addresses: &Vec<ItemAddress>) -> (r: Vec<(Time, Time)>)
    ensures
        r@ == address_ranges(*project, addresses@),
{
    let mut ranges: Vec<(Time, Time)> = Vec::new();
    let mut k: usize = 0;
    while k < addresses.len()
        invariant
            k <= addresses@.len(),
            ranges@ == address_ranges(*project, addresses@.subrange(0, k as int)),
        decreases addresses@.len() - k,
    {
        proof {
            assert(addresses@.subrange(0, k + 1).drop_last() == addresses@.subrange(0, k as int));
            assert(addresses@.subrange(0, k + 1).last() == addresses@[k as int]);
        }
        match project.item(&addresses[k]) {
            Some(item) => ranges.push((item.start, item.end)),
            None => {},
        }
        k = k + 1;
    }
    proof {
        assert(addresses@.subrange(0, addresses@.len() as int) == addresses@);
    }
    ranges
}

/// Whether an item that the selection, grown to whole groups, takes in
/// covers `t`.
pub open spec fn selection_covers(project: Project, selected: Seq<ItemAddress>, t: int) -> bool {
    exists|a: ItemAddress| #[trigger] in_expansion(project, selected, a) && address_holds(project, a, t)
}

// ----- rippling whole tracks -----

/// The indices of the items of a track that the chosen addresses name.
pub open spec fn track_selection(chosen: Seq<ItemAddress>, kind: TrackKind, track: Track) -> Set<usize> {
    Set::new(
        |i: usize|
            i < track.items@.len() && chosen.contains(
                ItemAddress { kind: kind, track_id: track.id, item_id: track.items@[i as int].id },
            ),
    )
}

/// The indices of the items of a track that the selection, grown to whole
/// groups, takes in.
pub open spec fn expansion_selection(project: Project, selected: Seq<ItemAddress>, kind: TrackKind, track: Track) -> Set<usize> {
    Set::new(
        |i: usize|
            i < track.items@.len() && in_expansion(
                project,
                selected,
                ItemAddress { kind: kind, track_id: track.id, item_id: track.items@[i as int].id },
            ),
    )
}

/// The shift that a track allows once its selected items are gone.
pub open spec fn ripple_limit_of(items: Seq<Item>, selected: Set<usize>, intervals: Seq<RippleInterval>, max_shift: Time) -> Time {
    let ranges = sort_lex(unselected_ranges(items, selected, items.len() as int));
    shift_limit_state(ranges, intervals, max_shift, ranges.len() as int).0
}

/// The items of a track after a ripple: the selected ones gone, the others
/// moved earlier and kept in order.
pub open spec fn track_rippled(items: Seq<Item>, selected: Set<usize>, intervals: Seq<RippleInterval>, max_shift: Time) -> Seq<Item> {
    let remaining = unselected_items(items, selected, items.len() as int);
    let moved = rippled_items(remaining, intervals, ripple_limit_of(items, selected, intervals, max_shift));
    reinserted(moved, moved.len() as int)
}

/// A ripple leaves each track ordered by start, holding each item that
/// stays exactly once.
pub proof fn law_ripple_keeps_track_order(items: Seq<Item>, selected: Set<usize>, intervals: Seq<RippleInterval>, max_shift: Time)
    ensures
        items_sorted(track_rippled(items, selected, intervals, max_shift)),
        track_rippled(items, selected, intervals, max_shift).to_multiset() == rippled_items(
            unselected_items(items, selected, items.len() as int),
            intervals,
            ripple_limit_of(items, selected, intervals, max_shift),
        ).to_multiset(),
{
    let moved = rippled_items(
        unselected_items(items, selected, items.len() as int),
        intervals,
        ripple_limit_of(items, selected, intervals, max_shift),
    );
    law_reinserted_sorted_permutation(moved, moved.len() as int);
    assert(moved.subrange(0, moved.len() as int) == moved);
}

/// Whether a ripple changes a track: it removes an item, or moves one.
pub open spec fn track_ripple_changes(items: Seq<Item>, selected: Set<usize>, intervals: Seq<RippleInterval>, max_shift: Time) -> bool {
    let remaining = unselected_items(items, selected, items.len() as int);
    let moved = rippled_items(remaining, intervals, ripple_limit_of(items, selected, intervals, max_shift));
    selected != Set::<usize>::empty() || exists|j: int| 0 <= j < moved.len() && #[trigger] moved[j] != remaining[j]
}

/// Whether rippling a track never needs to push an item that stays in
/// place: the backward walk over the items that stay, with the shifts capped
/// at the track's limit, respects the anchors.
pub open spec fn track_ripple_ok(items: Seq<Item>, selected: Set<usize>, intervals: Seq<RippleInterval>, max_shift: Time) -> bool {
    let remaining = unselected_items(items, selected, items.len() as int);
    backward_respects_anchors(
        remaining,
        intervals,
        capped_shifts(remaining, intervals, ripple_limit_of(items, selected, intervals, max_shift)),
        remaining.len() - 1,
    )
}

/// Whether the chosen addresses name the address.
fn contains_address(chosen: &Vec<ItemAddress>, address: ItemAddress) -> (r: bool)
    ensures
        r == chosen@.contains(address),
{
    let mut k: usize = 0;
    while k < chosen.len()
        invariant
            k <= chosen@.len(),
            forall|m: int| 0 <= m < k ==> chosen@[m] != address,
        decreases chosen@.len() - k,
    {
        if chosen[k] == address {
            return true;
        }
        k = k + 1;
    }
    false
}

/// The indices of the items of a track that the chosen addresses name.
fn selected_indices(track: &Track, kind: TrackKind, chosen: &Vec<ItemAddress>) -> (r: IndexSet)
    ensures
        index_set_contents(r) == track_selection(chosen@, kind, *track),
{
    let mut set = IndexSet::empty();
    let mut i: usize = 0;
    while i < track.items.len()
        invariant
            i <= track.items@.len(),
            index_set_contents(set) == Set::new(
                |m: usize|
                    m < i && chosen@.contains(
                        ItemAddress { kind: kind, track_id: track.id, item_id: track.items@[m as int].id },
                    ),
            ),
        decreases track.items@.len() - i,
    {
        let ghost before = index_set_contents(set);
        let address = ItemAddress { kind: kind, track_id: track.id, item_id: track.items[i].id };
        if contains_address(chosen, address) {
            let _ = set.insert(i);
        }
        proof {
            assert(index_set_contents(set) =~= Set::new(
                |m: usize|
                    m < i + 1 && chosen@.contains(
                        ItemAddress { kind: kind, track_id: track.id, item_id: track.items@[m as int].id },
                    ),
            ));
        }
        i = i + 1;
    }
    proof {
        assert(index_set_contents(set) =~= track_selection(chosen@, kind, *track));
    }
    set
}

/// A copy of a list of items.
fn copy_items(items: &Vec<Item>) -> (r: Vec<Item>)
    ensures
        r@ == items@,
{
    let mut r: Vec<Item> = Vec::new();
    let mut i: usize = 0;
    while i < items.len()
        invariant
            i <= items@.len(),
            r@ == items@.subrange(0, i as int),
        decreases items@.len() - i,
    {
        r.push(items[i]);
        proof {
            assert(items@.subrange(0, i + 1) == items@.subrange(0, i as int).push(items@[i as int]));
        }
        i = i + 1;
    }
    proof {
        assert(items@.subrange(0, items@.len() as int) == items@);
    }
    r
}

/// Ripples every track of one kind: the chosen items go, the others close
/// the removed time as far as each track allows; tells whether any track
/// changed.
fn ripple_tracks(
    tracks: &mut Vec<Track>,
    kind: TrackKind,
    chosen: &Vec<ItemAddress>,
    intervals: &Vec<RippleInterval>,
    max_shift: Time,
) -> (changed: bool)
    requires
        intervals_wf(intervals@),
        forall|t: int|
            0 <= t < old(tracks)@.len() ==> track_ripple_ok(
                (#[trigger] old(tracks)@[t]).items@,
                track_selection(chosen@, kind, old(tracks)@[t]),
                intervals@,
                max_shift,
            ),
    ensures
        final(tracks)@.len() == old(tracks)@.len(),
        forall|t: int|
            0 <= t < old(tracks)@.len() ==> {
                &&& (#[trigger] final(tracks)@[t]).id == old(tracks)@[t].id
                &&& final(tracks)@[t].enabled == old(tracks)@[t].enabled
                &&& final(tracks)@[t].unity_gain == old(tracks)@[t].unity_gain
                &&& final(tracks)@[t].items@ == track_rippled(
                    old(tracks)@[t].items@,
                    track_selection(chosen@, kind, old(tracks)@[t]),
                    intervals@,
                    max_shift,
                )
            },
        changed == exists|t: int|
            0 <= t < old(tracks)@.len() && track_ripple_changes(
                (#[trigger] old(tracks)@[t]).items@,
                track_selection(chosen@, kind, old(tracks)@[t]),
                intervals@,
                max_shift,
            ),
{
    let ghost initial = tracks@;
    let mut changed = false;
    let mut t: usize = 0;
    while t < tracks.len()
        invariant
            tracks@.len() == initial.len(),
            intervals_wf(intervals@),
            t <= tracks@.len(),
            forall|j: int|
                0 <= j < initial.len() ==> track_ripple_ok(
                    (#[trigger] initial[j]).items@,
                    track_selection(chosen@, kind, initial[j]),
                    intervals@,
                    max_shift,
                ),
            forall|j: int| t <= j < initial.len() ==> #[trigger] tracks@[j] == initial[j],
            forall|j: int|
                0 <= j < t ==> {
                    &&& (#[trigger] tracks@[j]).id == initial[j].id
                    &&& tracks@[j].enabled == initial[j].enabled
                    &&& tracks@[j].unity_gain == initial[j].unity_gain
                    &&& tracks@[j].items@ == track_rippled(
                        initial[j].items@,
                        track_selection(chosen@, kind, initial[j]),
                        intervals@,
                        max_shift,
                    )
                },
            changed == exists|j: int|
                0 <= j < t && track_ripple_changes(
                    (#[trigger] initial[j]).items@,
                    track_selection(chosen@, kind, initial[j]),
                    intervals@,
                    max_shift,
                ),
        decreases tracks@.len() - t,
    {
        let selected = selected_indices(&tracks[t], kind, chosen);
        let mut items = copy_items(&tracks[t].items);
        let ghost before = items@;
        let ghost chosen_set = track_selection(chosen@, kind, initial[t as int]);
        let limit = ripple_track_shift_limit(&items, &selected, intervals, max_shift);
        proof {
            assert(before == initial[t as int].items@);
            assert(track_ripple_ok(before, chosen_set, intervals@, max_shift));
        }
        let moved = ripple_track_items(&mut items, &selected, intervals, limit);
        let track = Track { id: tracks[t].id, enabled: tracks[t].enabled, unity_gain: tracks[t].unity_gain, items: items };
        tracks.set(t, track);
        proof {
            assert(track_ripple_changes(before, chosen_set, intervals@, max_shift) == moved);
            assert((exists|j: int|
                0 <= j < t + 1 && track_ripple_changes(
                    (#[trigger] initial[j]).items@,
                    track_selection(chosen@, kind, initial[j]),
                    intervals@,
                    max_shift,
                )) <==> ((exists|j: int|
                0 <= j < t && track_ripple_changes(
                    (#[trigger] initial[j]).items@,
                    track_selection(chosen@, kind, initial[j]),
                    intervals@,
                    max_shift,
                )) || moved));
        }
        changed = changed || moved;
        t = t + 1;
    }
    changed
}

// ----- ripple deletion -----

/// Every track of the project holds items that do not overlap.
pub open spec fn project_tracks_disjoint(project: Project) -> bool {
    forall|kind: TrackKind, t: int|
        0 <= t < project.tracks_of(kind).len() ==> items_disjoint(#[trigger] project.tracks_of(kind)[t].items@)
}

/// What a ripple edit reports: the selection to show afterwards, where the
/// playhead goes, and which kinds of tracks changed.
pub struct AddressRippleResult {
    pub selection: Vec<ItemAddress>,
    pub shifted_position: Time,
    pub captions: bool,
    pub video: bool,
    pub audio: bool,
}

/// The intervals of a ripple deletion: `intervals` the ordered, separated
/// intervals that cover exactly the time that the selection covers, and
/// `local` those intervals snapped to frames and merged again.
pub open spec fn ripple_plan(
    project: Project,
    selected: Seq<ItemAddress>,
    frame_step: Time,
    intervals: Seq<RippleInterval>,
    local: Seq<RippleInterval>,
) -> bool {
    &&& intervals_wf(intervals)
    &&& forall|t: int| intervals_cover(intervals, t) <==> selection_covers(project, selected, t)
    &&& intervals_wf(local)
    &&& forall|t: int| intervals_cover(local, t) <==> ranges_cover(snapped_ranges(intervals, frame_step), t)
}

/// The tracks of each kind after a ripple deletion with the given local
/// intervals: same tracks, each rippled with its share of the selection.
pub open spec fn tracks_ripple_deleted(
    old: Project,
    new: Project,
    selected: Seq<ItemAddress>,
    local: Seq<RippleInterval>,
) -> bool {
    &&& new.canvas_size == old.canvas_size
    &&& new.fps == old.fps
    &&& new.folded_sequences@ == old.folded_sequences@
    &&& forall|kind: TrackKind| #[trigger] new.tracks_of(kind).len() == old.tracks_of(kind).len()
    &&& forall|kind: TrackKind, t: int|
        0 <= t < old.tracks_of(kind).len() ==> {
            let before = #[trigger] old.tracks_of(kind)[t];
            let after = new.tracks_of(kind)[t];
            &&& after.id == before.id
            &&& after.enabled == before.enabled
            &&& after.unity_gain == before.unity_gain
            &&& after.items@ == track_rippled(
                before.items@,
                expansion_selection(old, selected, kind, before),
                local,
                total_length(local, local.len() as int) as Time,
            )
        }
}

/// Whether a ripple deletion changes some track of `kind`.
pub open spec fn kind_ripple_changes(old: Project, selected: Seq<ItemAddress>, kind: TrackKind, local: Seq<RippleInterval>) -> bool {
    exists|t: int|
        0 <= t < old.tracks_of(kind).len() && track_ripple_changes(
            (#[trigger] old.tracks_of(kind)[t]).items@,
            expansion_selection(old, selected, kind, old.tracks_of(kind)[t]),
            local,
            total_length(local, local.len() as int) as Time,
        )
}

proof fn lemma_selection_sets_agree(project: Project, selected: Seq<ItemAddress>, chosen: Seq<ItemAddress>, kind: TrackKind, track: Track)
    requires
        forall|a: ItemAddress| #[trigger] chosen.contains(a) <==> in_expansion(project, selected, a),
    ensures
        track_selection(chosen, kind, track) == expansion_selection(project, selected, kind, track),
{
    assert(track_selection(chosen, kind, track) =~= expansion_selection(project, selected, kind, track));
}

/// Whether a ripple deletion of the selection can close the deleted time on
/// every track without pushing an item that stays in place.
pub open spec fn ripple_delete_allowed(project: Project, selected: Seq<ItemAddress>, frame_step: Time) -> bool {
    forall|intervals: Seq<RippleInterval>, local: Seq<RippleInterval>|
        #[trigger] ripple_plan(project, selected, frame_step, intervals, local) ==> forall|kind: TrackKind, t: int|
            0 <= t < project.tracks_of(kind).len() ==> track_ripple_ok(
                (#[trigger] project.tracks_of(kind)[t]).items@,
                expansion_selection(project, selected, kind, project.tracks_of(kind)[t]),
                local,
                total_length(local, local.len() as int) as Time,
            )
}

/// On a project whose tracks hold items that do not overlap, every ripple
/// deletion can close the deleted time without pushing an item that stays in
/// place.
pub proof fn law_disjoint_tracks_allow_ripple_delete(project: Project, selected: Seq<ItemAddress>, frame_step: Time)
    requires
        project_tracks_disjoint(project),
    ensures
        ripple_delete_allowed(project, selected, frame_step),
{
    assert forall|intervals: Seq<RippleInterval>, local: Seq<RippleInterval>|
        #[trigger] ripple_plan(project, selected, frame_step, intervals, local) implies forall|kind: TrackKind, t: int|
            0 <= t < project.tracks_of(kind).len() ==> track_ripple_ok(
                (#[trigger] project.tracks_of(kind)[t]).items@,
                expansion_selection(project, selected, kind, project.tracks_of(kind)[t]),
                local,
                total_length(local, local.len() as int) as Time,
            ) by {
        assert forall|kind: TrackKind, t: int| 0 <= t < project.tracks_of(kind).len() implies track_ripple_ok(
            (#[trigger] project.tracks_of(kind)[t]).items@,
            expansion_selection(project, selected, kind, project.tracks_of(kind)[t]),
            local,
            total_length(local, local.len() as int) as Time,
        ) by {
            let track = project.tracks_of(kind)[t];
            law_shift_limit_respects_anchors(
                track.items@,
                expansion_selection(project, selected, kind, track),
                local,
                total_length(local, local.len() as int) as Time,
            );
        }
    }
}

/// The items of a track that are not selected, in order.
fn unselected_list(items: &Vec<Item>, selected: &IndexSet) -> (r: Vec<Item>)
    ensures
        r@ == unselected_items(items@, index_set_contents(*selected), items@.len() as int),
{
    let mut r: Vec<Item> = Vec::new();
    let mut i: usize = 0;
    while i < items.len()
        invariant
            i <= items@.len(),
            r@ == unselected_items(items@, index_set_contents(*selected), i as int),
        decreases items@.len() - i,
    {
        if !selected.has(i) {
            r.push(items[i]);
        }
        i = i + 1;
    }
    r
}

/// Whether every track of one kind can be rippled without pushing an item
/// that stays in place.
fn tracks_ripple_ok(
    tracks: &Vec<Track>,
    kind: TrackKind,
    chosen: &Vec<ItemAddress>,
    intervals: &Vec<RippleInterval>,
    max_shift: Time,
) -> (r: bool)
    requires
        intervals_wf(intervals@),
    ensures
        r == forall|t: int|
            0 <= t < tracks@.len() ==> track_ripple_ok(
                (#[trigger] tracks@[t]).items@,
                track_selection(chosen@, kind, tracks@[t]),
                intervals@,
                max_shift,
            ),
{
    let mut t: usize = 0;
    while t < tracks.len()
        invariant
            t <= tracks@.len(),
            intervals_wf(intervals@),
            forall|j: int|
                0 <= j < t ==> track_ripple_ok(
                    (#[trigger] tracks@[j]).items@,
                    track_selection(chosen@, kind, tracks@[j]),
                    intervals@,
                    max_shift,
                ),
        decreases tracks@.len() - t,
    {
        let selected = selected_indices(&tracks[t], kind, chosen);
        let limit = ripple_track_shift_limit(&tracks[t].items, &selected, intervals, max_shift);
        let remaining = unselected_list(&tracks[t].items, &selected);
        let ok = walk_keeps_anchors(&remaining, intervals, limit);
        proof {
            lemma_unselected_none(remaining@, remaining@.len() as int);
            assert(remaining@.subrange(0, remaining@.len() as int) == remaining@);
        }
        if !ok {
            return false;
        }
        t = t + 1;
    }
    true
}

/// Whether a ripple deletion of the selection can close the deleted time on
/// every track without pushing an item that stays in place (where it cannot,
/// the deletion is refused).
pub fn ripple_delete_keeps_anchors(project: &Project, selected: &Vec<ItemAddress>, frame_step: Time) -> (r: bool)
    ensures
        r == ripple_delete_allowed(*project, selected@, frame_step),
{
    let expanded = expand_grouped_item_addresses(project, selected);
    let ranges = address_time_ranges(project, &expanded);
    let intervals = ripple_intervals_from_ranges(&ranges);
    proof {
        let p = *project;
        assert forall|t: int| intervals_cover(intervals@, t) <==> selection_covers(p, selected@, t) by {
            lemma_address_ranges_cover(p, expanded@, t);
            if selection_covers(p, selected@, t) {
                let a = choose|a: ItemAddress| #[trigger] in_expansion(p, selected@, a) && address_holds(p, a, t);
                assert(expanded@.contains(a));
                let k = choose|k: int| 0 <= k < expanded@.len() && expanded@[k] == a;
                assert(address_holds(p, expanded@[k], t));
            }
            if ranges_cover(ranges@, t) {
                let k = choose|k: int| 0 <= k < expanded@.len() && #[trigger] address_holds(p, expanded@[k], t);
                assert(expanded@.contains(expanded@[k]));
                assert(in_expansion(p, selected@, expanded@[k]));
            }
        }
    }
    let local = local_intervals(&intervals, frame_step);
    let max_shift = ripple_total_shift(&local);
    let captions = tracks_ripple_ok(&project.caption_tracks, TrackKind::Caption, &expanded, &local, max_shift);
    let video = tracks_ripple_ok(&project.video_tracks, TrackKind::Video, &expanded, &local, max_shift);
    let audio = tracks_ripple_ok(&project.audio_tracks, TrackKind::Audio, &expanded, &local, max_shift);
    let r = captions && video && audio;
    proof {
        let p = *project;
        assert(ripple_plan(p, selected@, frame_step, intervals@, local@));
        assert(p.tracks_of(TrackKind::Caption) == p.caption_tracks@);
        assert(p.tracks_of(TrackKind::Video) == p.video_tracks@);
        assert(p.tracks_of(TrackKind::Audio) == p.audio_tracks@);
        assert forall|kind: TrackKind, track: Track| true implies #[trigger] track_selection(expanded@, kind, track)
            == expansion_selection(p, selected@, kind, track) by {
            lemma_selection_sets_agree(p, selected@, expanded@, kind, track);
        }
        let all_ok = forall|kind: TrackKind, t: int|
            0 <= t < p.tracks_of(kind).len() ==> track_ripple_ok(
                (#[trigger] p.tracks_of(kind)[t]).items@,
                expansion_selection(p, selected@, kind, p.tracks_of(kind)[t]),
                local@,
                total_length(local@, local@.len() as int) as Time,
            );
        assert(r == all_ok) by {
            if r {
                assert forall|kind: TrackKind, t: int| 0 <= t < p.tracks_of(kind).len() implies track_ripple_ok(
                    (#[trigger] p.tracks_of(kind)[t]).items@,
                    expansion_selection(p, selected@, kind, p.tracks_of(kind)[t]),
                    local@,
                    total_length(local@, local@.len() as int) as Time,
                ) by {
                    match kind {
                        TrackKind::Caption => {},
                        TrackKind::Video => {},
                        TrackKind::Audio => {},
                    }
                }
            }
        }
        assert forall|iv: Seq<RippleInterval>, lo: Seq<RippleInterval>|
            #[trigger] ripple_plan(p, selected@, frame_step, iv, lo) implies iv == intervals@ && lo == local@ by {
            crate::ripple::law_intervals_determined_by_coverage(iv, intervals@);
            crate::ripple::law_intervals_determined_by_coverage(lo, local@);
        }
    }
    r
}

/// Deletes the selected items, grown to whole groups, and closes the time
/// they covered on every track of the root timeline (each track as far as
/// the items that stay in place allow); the playhead at `position` moves back
/// by the deleted time before it. Nothing happens, and the result is `None`,
/// when the selected items cover no time.
pub fn ripple_delete_item_addresses(
    project: &mut Project,
    selected: &Vec<ItemAddress>,
    position: Time,
    frame_step: Time,
) -> (r: Option<AddressRippleResult>)
    requires
        ripple_delete_allowed(*old(project), selected@, frame_step),
    ensures
        r is None <==> forall|t: int| !selection_covers(*old(project), selected@, t),
        r is None ==> *final(project) == *old(project),
        r matches Some(result) ==> {
            &&& result.selection@.len() == 0
            &&& exists|intervals: Seq<RippleInterval>, local: Seq<RippleInterval>|
                #[trigger] ripple_plan(*old(project), selected@, frame_step, intervals, local) && {
                    &&& tracks_ripple_deleted(*old(project), *final(project), selected@, local)
                    &&& result.shifted_position == position.saturating_sub(
                        shift_before(intervals, position, intervals.len() as int) as Time,
                    )
                    &&& result.captions == kind_ripple_changes(*old(project), selected@, TrackKind::Caption, local)
                    &&& result.video == kind_ripple_changes(*old(project), selected@, TrackKind::Video, local)
                    &&& result.audio == kind_ripple_changes(*old(project), selected@, TrackKind::Audio, local)
                }
        },
{
    let ghost before = *project;
    let expanded = expand_grouped_item_addresses(project, selected);
    let ranges = address_time_ranges(project, &expanded);
    let intervals = ripple_intervals_from_ranges(&ranges);
    proof {
        assert forall|t: int| intervals_cover(intervals@, t) <==> selection_covers(before, selected@, t) by {
            lemma_address_ranges_cover(before, expanded@, t);
            if selection_covers(before, selected@, t) {
                let a = choose|a: ItemAddress| #[trigger] in_expansion(before, selected@, a) && address_holds(before, a, t);
                assert(expanded@.contains(a));
                let k = choose|k: int| 0 <= k < expanded@.len() && expanded@[k] == a;
                assert(address_holds(before, expanded@[k], t));
            }
            if ranges_cover(ranges@, t) {
                let k = choose|k: int| 0 <= k < expanded@.len() && #[trigger] address_holds(before, expanded@[k], t);
                assert(expanded@.contains(expanded@[k]));
                assert(in_expansion(before, selected@, expanded@[k]));
            }
        }
    }
    if intervals.len() == 0 {
        proof {
            assert forall|t: int| !selection_covers(before, selected@, t) by {
                if selection_covers(before, selected@, t) {
                    assert(intervals_cover(intervals@, t));
                }
            }
        }
        return None;
    }
    proof {
        let s = intervals@[0].start as int;
        assert(range_holds(intervals@[0].start, intervals@[0].end, s));
        assert(intervals_cover(intervals@, s));
    }
    let local = local_intervals(&intervals, frame_step);
    let max_shift = ripple_total_shift(&local);
    proof {
        assert(ripple_plan(before, selected@, frame_step, intervals@, local@));
        assert(before.tracks_of(TrackKind::Caption) == before.caption_tracks@);
        assert(before.tracks_of(TrackKind::Video) == before.video_tracks@);
        assert(before.tracks_of(TrackKind::Audio) == before.audio_tracks@);
        assert forall|kind: TrackKind, track: Track| true implies #[trigger] track_selection(expanded@, kind, track)
            == expansion_selection(before, selected@, kind, track) by {
            lemma_selection_sets_agree(before, selected@, expanded@, kind, track);
        }
    }
    let captions = ripple_tracks(&mut project.caption_tracks, TrackKind::Caption, &expanded, &local, max_shift);
    let video = ripple_tracks(&mut project.video_tracks, TrackKind::Video, &expanded, &local, max_shift);
    let audio = ripple_tracks(&mut project.audio_tracks, TrackKind::Audio, &expanded, &local, max_shift);
    let shift = ripple_position_shift(&intervals, position);
    proof {
        assert forall|kind: TrackKind, track: Track| true implies #[trigger] track_selection(expanded@, kind, track)
            == expansion_selection(before, selected@, kind, track) by {
            lemma_selection_sets_agree(before, selected@, expanded@, kind, track);
        }
        assert(ripple_plan(before, selected@, frame_step, intervals@, local@));
        assert(tracks_ripple_deleted(before, *project, selected@, local@)) by {
            assert forall|kind: TrackKind| #[trigger] project.tracks_of(kind).len() == before.tracks_of(kind).len() by {
            }
        }
        assert(captions == kind_ripple_changes(before, selected@, TrackKind::Caption, local@)) by {
            assert(before.tracks_of(TrackKind::Caption) == before.caption_tracks@);
        }
        assert(video == kind_ripple_changes(before, selected@, TrackKind::Video, local@)) by {
            assert(before.tracks_of(TrackKind::Video) == before.video_tracks@);
        }
        assert(audio == kind_ripple_changes(before, selected@, TrackKind::Audio, local@)) by {
            assert(before.tracks_of(TrackKind::Audio) == before.audio_tracks@);
        }
    }
    Some(AddressRippleResult {
        selection: Vec::new(),
        shifted_position: position.saturating_sub(shift),
        captions: captions,
        video: video,
        audio: audio,
    })
}

// ----- ripple trim -----

/// Whether a trim at `cut` takes in the item that `address` names: it is in
/// the selection grown to whole groups, and `cut` falls strictly inside it.
pub open spec fn trim_chosen(project: Project, selected: Seq<ItemAddress>, cut: Time, address: ItemAddress) -> bool {
    &&& in_expansion(project, selected, address)
    &&& match project.item_at_address(address) {
        Some(item) => item.start < cut < item.end,
        None => false,
    }
}

/// Whether a trimmed item covers `t` with the part that a trim at `cut`
/// removes, from its start up to the cut.
pub open spec fn trim_covers(project: Project, selected: Seq<ItemAddress>, cut: Time, t: int) -> bool {
    exists|a: ItemAddress|
        #[trigger] trim_chosen(project, selected, cut, a) && range_holds(project.item_at_address(a).unwrap().start, cut, t)
}

/// An item after the trim: moved to start at `local_cut` where the chosen
/// addresses name it.
pub open spec fn trimmed_item(chosen: Seq<ItemAddress>, kind: TrackKind, track_id: u128, item: Item, local_cut: Time) -> Item {
    if chosen.contains(ItemAddress { kind: kind, track_id: track_id, item_id: item.id }) {
        Item { start: local_cut, ..item }
    } else {
        item
    }
}

/// The items of a track after the trim, in their order.
pub open spec fn trimmed_items(chosen: Seq<ItemAddress>, kind: TrackKind, track: Track, local_cut: Time) -> Seq<Item> {
    Seq::new(track.items@.len(), |i: int| trimmed_item(chosen, kind, track.id, track.items@[i], local_cut))
}

/// The items of a track after every one of them moves earlier by the removed
/// time before it (capped at `shift`), kept in order.
pub open spec fn track_shifted(items: Seq<Item>, intervals: Seq<RippleInterval>, shift: Time) -> Seq<Item> {
    let remaining = unselected_items(items, Set::<usize>::empty(), items.len() as int);
    let moved = rippled_items(remaining, intervals, shift);
    reinserted(moved, moved.len() as int)
}

/// Whether moving the items of a track earlier changes one of them.
pub open spec fn track_shift_changes(items: Seq<Item>, intervals: Seq<RippleInterval>, shift: Time) -> bool {
    let remaining = unselected_items(items, Set::<usize>::empty(), items.len() as int);
    let moved = rippled_items(remaining, intervals, shift);
    exists|j: int| 0 <= j < moved.len() && #[trigger] moved[j] != remaining[j]
}

/// Whether moving the items of a track earlier never needs to push an item
/// that does not move by itself.
pub open spec fn track_keeps_anchors(items: Seq<Item>, intervals: Seq<RippleInterval>, shift: Time) -> bool {
    let remaining = unselected_items(items, Set::<usize>::empty(), items.len() as int);
    backward_respects_anchors(remaining, intervals, capped_shifts(remaining, intervals, shift), remaining.len() - 1)
}

/// The intervals of a ripple trim, as for a ripple deletion but covering the
/// trimmed parts.
pub open spec fn trim_plan(
    project: Project,
    selected: Seq<ItemAddress>,
    cut: Time,
    frame_step: Time,
    intervals: Seq<RippleInterval>,
    local: Seq<RippleInterval>,
) -> bool {
    &&& intervals_wf(intervals)
    &&& forall|t: int| intervals_cover(intervals, t) <==> trim_covers(project, selected, cut, t)
    &&& intervals_wf(local)
    &&& forall|t: int| intervals_cover(local, t) <==> ranges_cover(snapped_ranges(intervals, frame_step), t)
}

/// The chosen addresses of a trim, written out as a list.
pub open spec fn lists_trim_chosen(project: Project, selected: Seq<ItemAddress>, cut: Time, chosen: Seq<ItemAddress>) -> bool {
    &&& chosen.no_duplicates()
    &&& forall|a: ItemAddress| #[trigger] chosen.contains(a) <==> trim_chosen(project, selected, cut, a)
    &&& chosen == expansion_walk(project, selected, selected.len() as int).filter(
        |a: ItemAddress| cut_inside(project, cut, a),
    )
}

/// Whether `cut` falls strictly inside the item that the address names.
pub open spec fn cut_inside(project: Project, cut: Time, a: ItemAddress) -> bool {
    match project.item_at_address(a) {
        Some(item) => item.start < cut < item.end,
        None => false,
    }
}

/// Whether, after the trim, every track can close the trimmed time without
/// pushing an item that stays in place.
pub open spec fn trim_keeps_anchors(
    project: Project,
    chosen: Seq<ItemAddress>,
    cut: Time,
    frame_step: Time,
    local: Seq<RippleInterval>,
) -> bool {
    forall|kind: TrackKind, t: int|
        0 <= t < project.tracks_of(kind).len() ==> track_keeps_anchors(
            trimmed_items(chosen, kind, #[trigger] project.tracks_of(kind)[t], snap_time(cut, frame_step)),
            local,
            total_length(local, local.len() as int) as Time,
        )
}

/// Whether a ripple trim of the selection at `cut` can run without pushing
/// an item that stays in place.
pub open spec fn ripple_trim_allowed(project: Project, selected: Seq<ItemAddress>, cut: Time, frame_step: Time) -> bool {
    forall|intervals: Seq<RippleInterval>, local: Seq<RippleInterval>, chosen: Seq<ItemAddress>|
        #[trigger] trim_plan(project, selected, cut, frame_step, intervals, local) && #[trigger] lists_trim_chosen(
            project,
            selected,
            cut,
            chosen,
        ) ==> trim_keeps_anchors(project, chosen, cut, frame_step, local)
}

proof fn lemma_unselected_none(items: Seq<Item>, k: int)
    requires
        0 <= k <= items.len(),
    ensures
        unselected_items(items, Set::<usize>::empty(), k) == items.subrange(0, k),
    decreases k,
{
    if k > 0 {
        lemma_unselected_none(items, k - 1);
        assert(items.subrange(0, k) == items.subrange(0, k - 1).push(items[k - 1]));
    }
}

/// Whether the backward walk of a ripple keeps every item that does not move
/// by itself in place, checked by running it.
fn walk_keeps_anchors(items: &Vec<Item>, intervals: &Vec<RippleInterval>, shift: Time) -> (r: bool)
    requires
        intervals_wf(intervals@),
    ensures
        r == track_keeps_anchors(items@, intervals@, shift),
{
    proof {
        lemma_unselected_none(items@, items@.len() as int);
        assert(items@.subrange(0, items@.len() as int) == items@);
    }
    let ghost remaining = items@;
    let n = items.len();
    let mut shifts: Vec<Time> = Vec::new();
    let mut j: usize = 0;
    while j < n
        invariant
            n == items@.len(),
            remaining == items@,
            intervals_wf(intervals@),
            j <= n,
            shifts@ == capped_shifts(remaining, intervals@, shift).subrange(0, j as int),
        decreases n - j,
    {
        let wanted = ripple_position_shift(intervals, items[j].start);
        shifts.push(if wanted <= shift { wanted } else { shift });
        proof {
            assert(capped_shifts(remaining, intervals@, shift).subrange(0, j + 1) == capped_shifts(
                remaining,
                intervals@,
                shift,
            ).subrange(0, j as int).push(capped_shifts(remaining, intervals@, shift)[j as int]));
        }
        j = j + 1;
    }
    proof {
        assert(shifts@ == capped_shifts(remaining, intervals@, shift));
    }
    if n <= 1 {
        return true;
    }
    let mut k: usize = n - 1;
    while k >= 1
        invariant
            n == items@.len(),
            remaining == items@,
            1 < n,
            k < n,
            intervals_wf(intervals@),
            shifts@.len() == n,
            track_keeps_anchors(remaining, intervals@, shift) == backward_respects_anchors(
                remaining,
                intervals@,
                shifts@,
                k as int,
            ),
        decreases k,
    {
        let gap = items[k].start.saturating_sub(items[k - 1].end);
        let required = shifts[k].saturating_sub(gap);
        if required > shifts[k - 1] {
            let anchor = ripple_position_shift(intervals, items[k - 1].start);
            if anchor == 0 {
                return false;
            }
            shifts.set(k - 1, required);
        }
        k = k - 1;
    }
    true
}

/// The trimmed items of a track, each named by the chosen addresses moved
/// to start at `local_cut`; tells whether any was.
fn trim_track_items(track: &Track, kind: TrackKind, chosen: &Vec<ItemAddress>, local_cut: Time) -> (r: (Vec<Item>, bool))
    ensures
        r.0@ == trimmed_items(chosen@, kind, *track, local_cut),
        r.1 == exists|i: int|
            0 <= i < track.items@.len() && chosen@.contains(
                ItemAddress { kind: kind, track_id: track.id, item_id: (#[trigger] track.items@[i]).id },
            ),
{
    let mut items: Vec<Item> = Vec::new();
    let mut any = false;
    let mut i: usize = 0;
    while i < track.items.len()
        invariant
            i <= track.items@.len(),
            items@ == trimmed_items(chosen@, kind, *track, local_cut).subrange(0, i as int),
            any == exists|m: int|
                0 <= m < i && chosen@.contains(
                    ItemAddress { kind: kind, track_id: track.id, item_id: (#[trigger] track.items@[m]).id },
                ),
        decreases track.items@.len() - i,
    {
        let item = track.items[i];
        let named = contains_address(chosen, ItemAddress { kind: kind, track_id: track.id, item_id: item.id });
        if named {
            items.push(Item { start: local_cut, ..item });
            any = true;
        } else {
            items.push(item);
        }
        proof {
            assert(trimmed_items(chosen@, kind, *track, local_cut).subrange(0, i + 1) == trimmed_items(
                chosen@,
                kind,
                *track,
                local_cut,
            ).subrange(0, i as int).push(trimmed_items(chosen@, kind, *track, local_cut)[i as int]));
        }
        i = i + 1;
    }
    proof {
        assert(items@ == trimmed_items(chosen@, kind, *track, local_cut));
    }
    (items, any)
}

/// Trims the chosen items of every track of one kind and closes the trimmed
/// time on each track; tells whether an item was trimmed and whether a track
/// moved.
fn trim_and_ripple_tracks(
    tracks: &mut Vec<Track>,
    kind: TrackKind,
    chosen: &Vec<ItemAddress>,
    local_cut: Time,
    intervals: &Vec<RippleInterval>,
    shift: Time,
) -> (r: (bool, bool))
    requires
        intervals_wf(intervals@),
        forall|t: int|
            0 <= t < old(tracks)@.len() ==> track_keeps_anchors(
                trimmed_items(chosen@, kind, #[trigger] old(tracks)@[t], local_cut),
                intervals@,
                shift,
            ),
    ensures
        final(tracks)@.len() == old(tracks)@.len(),
        forall|t: int|
            0 <= t < old(tracks)@.len() ==> {
                &&& (#[trigger] final(tracks)@[t]).id == old(tracks)@[t].id
                &&& final(tracks)@[t].enabled == old(tracks)@[t].enabled
                &&& final(tracks)@[t].unity_gain == old(tracks)@[t].unity_gain
                &&& final(tracks)@[t].items@ == track_shifted(
                    trimmed_items(chosen@, kind, old(tracks)@[t], local_cut),
                    intervals@,
                    shift,
                )
            },
        r.0 == exists|t: int, i: int|
            0 <= t < old(tracks)@.len() && 0 <= i < old(tracks)@[t].items@.len() && chosen@.contains(
                ItemAddress { kind: kind, track_id: old(tracks)@[t].id, item_id: (#[trigger] old(tracks)@[t].items@[i]).id },
            ),
        r.1 == exists|t: int|
            0 <= t < old(tracks)@.len() && track_shift_changes(
                trimmed_items(chosen@, kind, #[trigger] old(tracks)@[t], local_cut),
                intervals@,
                shift,
            ),
{
    let ghost initial = tracks@;
    let mut trimmed = false;
    let mut changed = false;
    let none = IndexSet::empty();
    let mut t: usize = 0;
    while t < tracks.len()
        invariant
            tracks@.len() == initial.len(),
            intervals_wf(intervals@),
            index_set_contents(none) == Set::<usize>::empty(),
            t <= tracks@.len(),
            forall|j: int|
                0 <= j < initial.len() ==> track_keeps_anchors(
                    trimmed_items(chosen@, kind, #[trigger] initial[j], local_cut),
                    intervals@,
                    shift,
                ),
            forall|j: int| t <= j < initial.len() ==> #[trigger] tracks@[j] == initial[j],
            forall|j: int|
                0 <= j < t ==> {
                    &&& (#[trigger] tracks@[j]).id == initial[j].id
                    &&& tracks@[j].enabled == initial[j].enabled
                    &&& tracks@[j].unity_gain == initial[j].unity_gain
                    &&& tracks@[j].items@ == track_shifted(
                        trimmed_items(chosen@, kind, initial[j], local_cut),
                        intervals@,
                        shift,
                    )
                },
            trimmed == exists|j: int, i: int|
                0 <= j < t && 0 <= i < initial[j].items@.len() && chosen@.contains(
                    ItemAddress { kind: kind, track_id: initial[j].id, item_id: (#[trigger] initial[j].items@[i]).id },
                ),
            changed == exists|j: int|
                0 <= j < t && track_shift_changes(
                    trimmed_items(chosen@, kind, #[trigger] initial[j], local_cut),
                    intervals@,
                    shift,
                ),
        decreases tracks@.len() - t,
    {
        let (mut items, any) = trim_track_items(&tracks[t], kind, chosen, local_cut);
        let ghost cut_items = items@;
        proof {
            assert(cut_items == trimmed_items(chosen@, kind, initial[t as int], local_cut));
            assert(track_keeps_anchors(cut_items, intervals@, shift));
        }
        let moved = ripple_track_items(&mut items, &none, intervals, shift);
        let track = Track { id: tracks[t].id, enabled: tracks[t].enabled, unity_gain: tracks[t].unity_gain, items: items };
        tracks.set(t, track);
        proof {
            let tt = t as int;
            assert(moved == track_shift_changes(cut_items, intervals@, shift));
            if any {
                let i = choose|i: int|
                    0 <= i < initial[tt].items@.len() && chosen@.contains(
                        ItemAddress { kind: kind, track_id: initial[tt].id, item_id: (#[trigger] initial[tt].items@[i]).id },
                    );
                assert(0 <= tt < t + 1 && 0 <= i < initial[tt].items@.len() && chosen@.contains(
                    ItemAddress { kind: kind, track_id: initial[tt].id, item_id: initial[tt].items@[i].id },
                ));
            }
            if exists|j: int, i: int|
                0 <= j < t + 1 && 0 <= i < initial[j].items@.len() && chosen@.contains(
                    ItemAddress { kind: kind, track_id: initial[j].id, item_id: (#[trigger] initial[j].items@[i]).id },
                ) {
                let (j, i) = choose|j: int, i: int|
                    0 <= j < t + 1 && 0 <= i < initial[j].items@.len() && chosen@.contains(
                        ItemAddress { kind: kind, track_id: initial[j].id, item_id: (#[trigger] initial[j].items@[i]).id },
                    );
                if j == tt {
                    assert(any);
                }
            }
            assert((exists|j: int|
                0 <= j < t + 1 && track_shift_changes(
                    trimmed_items(chosen@, kind, #[trigger] initial[j], local_cut),
                    intervals@,
                    shift,
                )) <==> ((exists|j: int|
                0 <= j < t && track_shift_changes(
                    trimmed_items(chosen@, kind, #[trigger] initial[j], local_cut),
                    intervals@,
                    shift,
                )) || moved));
        }
        trimmed = trimmed || any;
        changed = changed || moved;
        t = t + 1;
    }
    (trimmed, changed)
}

/// Two lists that name the same addresses trim the same items.
proof fn lemma_trimmed_items_same(c1: Seq<ItemAddress>, c2: Seq<ItemAddress>, kind: TrackKind, track: Track, local_cut: Time)
    requires
        forall|a: ItemAddress| #[trigger] c1.contains(a) <==> c2.contains(a),
    ensures
        trimmed_items(c1, kind, track, local_cut) == trimmed_items(c2, kind, track, local_cut),
{
    assert(trimmed_items(c1, kind, track, local_cut) =~= trimmed_items(c2, kind, track, local_cut));
}

/// The addresses that a trim at `cut` takes in, and the ordered, separated
/// intervals that their trimmed parts cover.
fn trim_selection(project: &Project, selected: &Vec<ItemAddress>, cut: Time) -> (r: (Vec<ItemAddress>, Vec<RippleInterval>))
    ensures
        lists_trim_chosen(*project, selected@, cut, r.0@),
        intervals_wf(r.1@),
        forall|t: int| intervals_cover(r.1@, t) <==> trim_covers(*project, selected@, cut, t),
{
    let expanded = expand_grouped_item_addresses(project, selected);
    let mut chosen: Vec<ItemAddress> = Vec::new();
    let mut ranges: Vec<(Time, Time)> = Vec::new();
    let ghost pred = |a: ItemAddress| cut_inside(*project, cut, a);
    let mut j: usize = 0;
    while j < expanded.len()
        invariant
            j <= expanded@.len(),
            pred == (|a: ItemAddress| cut_inside(*project, cut, a)),
            chosen@ == expanded@.subrange(0, j as int).filter(pred),
            expanded@.no_duplicates(),
            forall|a: ItemAddress| #[trigger] expanded@.contains(a) <==> in_expansion(*project, selected@, a),
            chosen@.no_duplicates(),
            ranges@.len() == chosen@.len(),
            forall|a: ItemAddress|
                #[trigger] chosen@.contains(a) <==> (exists|m: int| 0 <= m < j && expanded@[m] == a) && trim_chosen(
                    *project,
                    selected@,
                    cut,
                    a,
                ),
            forall|k: int|
                0 <= k < chosen@.len() ==> #[trigger] ranges@[k] == (project.item_at_address(chosen@[k]).unwrap().start, cut),
        decreases expanded@.len() - j,
    {
        let address = expanded[j];
        proof {
            assert(expanded@.contains(address));
            reveal(Seq::filter);
            assert(expanded@.subrange(0, j + 1).drop_last() == expanded@.subrange(0, j as int));
            assert(expanded@.subrange(0, j + 1).last() == address);
        }
        match project.item(&address) {
            Some(item) => {
                if item.start < cut && cut < item.end {
                    proof {
                        assert(!chosen@.contains(address)) by {
                            if chosen@.contains(address) {
                                let m = choose|m: int| 0 <= m < j && expanded@[m] == address;
                                assert(expanded@[m] == expanded@[j as int]);
                            }
                        }
                    }
                    let ghost prev = chosen@;
                    chosen.push(address);
                    ranges.push((item.start, cut));
                    proof {
                        assert(chosen@ == prev.push(address));
                        assert forall|a: ItemAddress|
                            #[trigger] chosen@.contains(a) <==> (exists|m: int| 0 <= m < j + 1 && expanded@[m] == a)
                                && trim_chosen(*project, selected@, cut, a) by {
                            if a == address {
                                assert(chosen@[chosen@.len() - 1] == a);
                                assert(expanded@[j as int] == a);
                            } else {
                                if chosen@.contains(a) {
                                    let k = choose|k: int| 0 <= k < chosen@.len() && chosen@[k] == a;
                                    assert(k < prev.len());
                                    assert(prev[k] == a);
                                    assert(prev.contains(a));
                                }
                                if (exists|m: int| 0 <= m < j + 1 && expanded@[m] == a) && trim_chosen(*project, selected@, cut, a) {
                                    let m = choose|m: int| 0 <= m < j + 1 && expanded@[m] == a;
                                    assert(m < j);
                                    assert(prev.contains(a));
                                    let k = choose|k: int| 0 <= k < prev.len() && prev[k] == a;
                                    assert(chosen@[k] == a);
                                }
                            }
                        }
                    }
                } else {
                    proof {
                        assert forall|a: ItemAddress|
                            #[trigger] chosen@.contains(a) <==> (exists|m: int| 0 <= m < j + 1 && expanded@[m] == a)
                                && trim_chosen(*project, selected@, cut, a) by {
                            if (exists|m: int| 0 <= m < j + 1 && expanded@[m] == a) && trim_chosen(*project, selected@, cut, a) {
                                let m = choose|m: int| 0 <= m < j + 1 && expanded@[m] == a;
                                if m == j {
                                    assert(a == address);
                                }
                            }
                        }
                    }
                }
            },
            None => {
                proof {
                    assert forall|a: ItemAddress|
                        #[trigger] chosen@.contains(a) <==> (exists|m: int| 0 <= m < j + 1 && expanded@[m] == a)
                            && trim_chosen(*project, selected@, cut, a) by {
                        if (exists|m: int| 0 <= m < j + 1 && expanded@[m] == a) && trim_chosen(*project, selected@, cut, a) {
                            let m = choose|m: int| 0 <= m < j + 1 && expanded@[m] == a;
                            if m == j {
                                assert(a == address);
                            }
                        }
                    }
                }
            },
        }
        j = j + 1;
    }
    let intervals = ripple_intervals_from_ranges(&ranges);
    proof {
        assert(expanded@.subrange(0, expanded@.len() as int) == expanded@);
        assert forall|a: ItemAddress| #[trigger] chosen@.contains(a) <==> trim_chosen(*project, selected@, cut, a) by {
            if trim_chosen(*project, selected@, cut, a) {
                assert(expanded@.contains(a));
                let m = choose|m: int| 0 <= m < expanded@.len() && expanded@[m] == a;
            }
        }
        assert forall|t: int| intervals_cover(intervals@, t) <==> trim_covers(*project, selected@, cut, t) by {
            if ranges_cover(ranges@, t) {
                let k = choose|k: int| 0 <= k < ranges@.len() && #[trigger] range_holds(ranges@[k].0, ranges@[k].1, t);
                assert(chosen@.contains(chosen@[k]));
                assert(trim_chosen(*project, selected@, cut, chosen@[k]));
            }
            if trim_covers(*project, selected@, cut, t) {
                let a = choose|a: ItemAddress|
                    #[trigger] trim_chosen(*project, selected@, cut, a) && range_holds(project.item_at_address(a).unwrap().start, cut, t);
                assert(chosen@.contains(a));
                let k = choose|k: int| 0 <= k < chosen@.len() && chosen@[k] == a;
                assert(range_holds(ranges@[k].0, ranges@[k].1, t));
            }
        }
    }
    (chosen, intervals)
}

/// Whether every track of one kind, trimmed, keeps its anchors while the
/// trimmed time closes.
fn tracks_keep_anchors(
    tracks: &Vec<Track>,
    kind: TrackKind,
    chosen: &Vec<ItemAddress>,
    local_cut: Time,
    intervals: &Vec<RippleInterval>,
    shift: Time,
) -> (r: bool)
    requires
        intervals_wf(intervals@),
    ensures
        r == forall|t: int|
            0 <= t < tracks@.len() ==> track_keeps_anchors(
                trimmed_items(chosen@, kind, #[trigger] tracks@[t], local_cut),
                intervals@,
                shift,
            ),
{
    let mut t: usize = 0;
    while t < tracks.len()
        invariant
            t <= tracks@.len(),
            intervals_wf(intervals@),
            forall|j: int|
                0 <= j < t ==> track_keeps_anchors(
                    trimmed_items(chosen@, kind, #[trigger] tracks@[j], local_cut),
                    intervals@,
                    shift,
                ),
        decreases tracks@.len() - t,
    {
        let (items, _) = trim_track_items(&tracks[t], kind, chosen, local_cut);
        if !walk_keeps_anchors(&items, intervals, shift) {
            return false;
        }
        t = t + 1;
    }
    true
}

/// Whether a ripple trim of the selection at `cut` can close the trimmed
/// time on every track without pushing an item that stays in place (where
/// it cannot, the trim is refused).
pub fn ripple_trim_keeps_anchors(project: &Project, selected: &Vec<ItemAddress>, cut: Time, frame_step: Time) -> (r: bool)
    ensures
        r == ripple_trim_allowed(*project, selected@, cut, frame_step),
{
    let (chosen, intervals) = trim_selection(project, selected, cut);
    let local = local_intervals(&intervals, frame_step);
    let shift = ripple_total_shift(&local);
    let local_cut = snapped(cut, frame_step);
    let captions = tracks_keep_anchors(&project.caption_tracks, TrackKind::Caption, &chosen, local_cut, &local, shift);
    let video = tracks_keep_anchors(&project.video_tracks, TrackKind::Video, &chosen, local_cut, &local, shift);
    let audio = tracks_keep_anchors(&project.audio_tracks, TrackKind::Audio, &chosen, local_cut, &local, shift);
    let r = captions && video && audio;
    proof {
        let p = *project;
        assert(trim_plan(p, selected@, cut, frame_step, intervals@, local@));
        assert(lists_trim_chosen(p, selected@, cut, chosen@));
        assert(p.tracks_of(TrackKind::Caption) == p.caption_tracks@);
        assert(p.tracks_of(TrackKind::Video) == p.video_tracks@);
        assert(p.tracks_of(TrackKind::Audio) == p.audio_tracks@);
        assert(r == trim_keeps_anchors(p, chosen@, cut, frame_step, local@)) by {
            if r {
                assert forall|kind: TrackKind, t: int| 0 <= t < p.tracks_of(kind).len() implies track_keeps_anchors(
                    trimmed_items(chosen@, kind, #[trigger] p.tracks_of(kind)[t], snap_time(cut, frame_step)),
                    local@,
                    total_length(local@, local@.len() as int) as Time,
                ) by {
                    match kind {
                        TrackKind::Caption => {},
                        TrackKind::Video => {},
                        TrackKind::Audio => {},
                    }
                }
            }
        }
        assert forall|iv: Seq<RippleInterval>, lo: Seq<RippleInterval>, c: Seq<ItemAddress>|
            #[trigger] trim_plan(p, selected@, cut, frame_step, iv, lo) && #[trigger] lists_trim_chosen(p, selected@, cut, c) implies
            trim_keeps_anchors(p, c, cut, frame_step, lo) == trim_keeps_anchors(p, chosen@, cut, frame_step, local@) by {
            crate::ripple::law_intervals_determined_by_coverage(iv, intervals@);
            crate::ripple::law_intervals_determined_by_coverage(lo, local@);
            assert forall|kind: TrackKind, track: Track| true implies #[trigger] trimmed_items(c, kind, track, snap_time(cut, frame_step))
                == trimmed_items(chosen@, kind, track, snap_time(cut, frame_step)) by {
                lemma_trimmed_items_same(c, chosen@, kind, track, snap_time(cut, frame_step));
            }
        }
    }
    r
}

/// Whether a trim changes the tracks of `kind`: it trims one of their
/// items, or closing the trimmed time moves one.
pub open spec fn kind_trim_changes(
    project: Project,
    chosen: Seq<ItemAddress>,
    kind: TrackKind,
    local_cut: Time,
    local: Seq<RippleInterval>,
) -> bool {
    let tracks = project.tracks_of(kind);
    ||| exists|t: int, i: int|
        0 <= t < tracks.len() && 0 <= i < tracks[t].items@.len() && chosen.contains(
            ItemAddress { kind: kind, track_id: tracks[t].id, item_id: (#[trigger] tracks[t].items@[i]).id },
        )
    ||| exists|t: int|
        0 <= t < tracks.len() && track_shift_changes(
            trimmed_items(chosen, kind, #[trigger] tracks[t], local_cut),
            local,
            total_length(local, local.len() as int) as Time,
        )
}

/// The tracks of each kind after a ripple trim: the chosen items start at
/// the snapped cut, then every item moves earlier by the trimmed time before
/// it.
pub open spec fn tracks_ripple_trimmed(
    old: Project,
    new: Project,
    chosen: Seq<ItemAddress>,
    local_cut: Time,
    local: Seq<RippleInterval>,
) -> bool {
    &&& new.canvas_size == old.canvas_size
    &&& new.fps == old.fps
    &&& new.folded_sequences@ == old.folded_sequences@
    &&& forall|kind: TrackKind| #[trigger] new.tracks_of(kind).len() == old.tracks_of(kind).len()
    &&& forall|kind: TrackKind, t: int|
        0 <= t < old.tracks_of(kind).len() ==> {
            let before = #[trigger] old.tracks_of(kind)[t];
            let after = new.tracks_of(kind)[t];
            &&& after.id == before.id
            &&& after.enabled == before.enabled
            &&& after.unity_gain == before.unity_gain
            &&& after.items@ == track_shifted(
                trimmed_items(chosen, kind, before, local_cut),
                local,
                total_length(local, local.len() as int) as Time,
            )
        }
}

/// Trims the selected items, grown to whole groups, that `cut` falls
/// strictly inside so that they start at the cut (snapped to a frame), and
/// closes the trimmed time on every track of the root timeline; the playhead
/// goes back to the cut less the trimmed time. The trimmed items stay
/// selected. Nothing happens, and the result is `None`, when no selected
/// item spans the cut.
pub fn ripple_trim_item_addresses(
    project: &mut Project,
    selected: &Vec<ItemAddress>,
    cut: Time,
    frame_step: Time,
) -> (r: Option<AddressRippleResult>)
    requires
        ripple_trim_allowed(*old(project), selected@, cut, frame_step),
    ensures
        r is None <==> forall|a: ItemAddress| !trim_chosen(*old(project), selected@, cut, a),
        r is None ==> *final(project) == *old(project),
        r matches Some(result) ==> {
            &&& lists_trim_chosen(*old(project), selected@, cut, result.selection@)
            &&& exists|intervals: Seq<RippleInterval>, local: Seq<RippleInterval>|
                #[trigger] trim_plan(*old(project), selected@, cut, frame_step, intervals, local) && {
                    let local_cut = snap_time(cut, frame_step);
                    &&& tracks_ripple_trimmed(*old(project), *final(project), result.selection@, local_cut, local)
                    &&& result.shifted_position == cut.saturating_sub(
                        total_length(intervals, intervals.len() as int) as Time,
                    )
                    &&& result.captions == kind_trim_changes(*old(project), result.selection@, TrackKind::Caption, local_cut, local)
                    &&& result.video == kind_trim_changes(*old(project), result.selection@, TrackKind::Video, local_cut, local)
                    &&& result.audio == kind_trim_changes(*old(project), result.selection@, TrackKind::Audio, local_cut, local)
                }
        },
{
    let ghost before = *project;
    let (chosen, intervals) = trim_selection(project, selected, cut);
    if intervals.len() == 0 {
        proof {
            assert forall|a: ItemAddress| !trim_chosen(before, selected@, cut, a) by {
                if trim_chosen(before, selected@, cut, a) {
                    let s = before.item_at_address(a).unwrap().start as int;
                    assert(range_holds(before.item_at_address(a).unwrap().start, cut, s));
                    assert(trim_covers(before, selected@, cut, s));
                    assert(intervals_cover(intervals@, s));
                    assert(false);
                }
            }
        }
        return None;
    }
    proof {
        let s = intervals@[0].start as int;
        assert(range_holds(intervals@[0].start, intervals@[0].end, s));
        assert(intervals_cover(intervals@, s));
        let a = choose|a: ItemAddress|
            #[trigger] trim_chosen(before, selected@, cut, a) && range_holds(before.item_at_address(a).unwrap().start, cut, s);
    }
    let local = local_intervals(&intervals, frame_step);
    let shift = ripple_total_shift(&local);
    let local_cut = snapped(cut, frame_step);
    proof {
        assert(trim_plan(before, selected@, cut, frame_step, intervals@, local@));
        assert(lists_trim_chosen(before, selected@, cut, chosen@));
        assert(trim_keeps_anchors(before, chosen@, cut, frame_step, local@));
        assert(before.tracks_of(TrackKind::Caption) == before.caption_tracks@);
        assert(before.tracks_of(TrackKind::Video) == before.video_tracks@);
        assert(before.tracks_of(TrackKind::Audio) == before.audio_tracks@);
    }
    let (captions_trimmed, captions_moved) = trim_and_ripple_tracks(
        &mut project.caption_tracks,
        TrackKind::Caption,
        &chosen,
        local_cut,
        &local,
        shift,
    );
    let (video_trimmed, video_moved) = trim_and_ripple_tracks(
        &mut project.video_tracks,
        TrackKind::Video,
        &chosen,
        local_cut,
        &local,
        shift,
    );
    let (audio_trimmed, audio_moved) = trim_and_ripple_tracks(
        &mut project.audio_tracks,
        TrackKind::Audio,
        &chosen,
        local_cut,
        &local,
        shift,
    );
    let total = ripple_total_shift(&intervals);
    proof {
        assert(tracks_ripple_trimmed(before, *project, chosen@, local_cut, local@)) by {
            assert forall|kind: TrackKind| #[trigger] project.tracks_of(kind).len() == before.tracks_of(kind).len() by {
            }
        }
        assert((captions_trimmed || captions_moved) == kind_trim_changes(before, chosen@, TrackKind::Caption, local_cut, local@));
        assert((video_trimmed || video_moved) == kind_trim_changes(before, chosen@, TrackKind::Video, local_cut, local@));
        assert((audio_trimmed || audio_moved) == kind_trim_changes(before, chosen@, TrackKind::Audio, local_cut, local@));
    }
    Some(AddressRippleResult {
        selection: chosen,
        shifted_position: cut.saturating_sub(total),
        captions: captions_trimmed || captions_moved,
        video: video_trimmed || video_moved,
        audio: audio_trimmed || audio_moved,
    })
}

} // verus!
