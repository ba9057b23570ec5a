//! Dragging items of folded sequences: looking up the preview of each
//! dragged item.

use vstd::prelude::*;

use crate::model::{ItemAddress, SignedTime, Time, add_signed, clamp_signed, sub_signed};
use crate::tracks::TrackAddress;

verus! {

/// What a drag of a folded item does.
#[derive(Clone, Copy, Debug, PartialEq, Eq, Structural)]
pub enum FoldedDragKind {
    Move,
    ResizeStart,
    ResizeEnd,
}

/// How a drag preview looks.
#[derive(Clone, Copy, Debug, PartialEq, Eq, Structural)]
pub enum DragPreviewStatus {
    Clear,
    Overwrite,
    Blocked,
    NewTrack,
}

/// One dragged item: where it is and where the drag puts it.
#[derive(Clone, Copy, Debug, PartialEq, Eq, Structural)]
pub struct FoldedDragItem {
    pub key: ItemAddress,
    pub start: Time,
    pub end: Time,
    pub target_track: TrackAddress,
    pub target_start: SignedTime,
    pub target_end: SignedTime,
}

/// A drag of items in folded sequences.
#[derive(Clone, Debug)]
pub struct FoldedDrag {
    pub key: ItemAddress,
    pub target_track: TrackAddress,
    pub kind: FoldedDragKind,
    pub start: Time,
    pub end: Time,
    pub target_start: SignedTime,
    pub target_end: SignedTime,
    pub items: Vec<FoldedDragItem>,
    pub cross_scope_preview_row: Option<usize>,
    pub valid_drop: bool,
    pub preview_status: DragPreviewStatus,
}

/// The track an item address lives on.
pub open spec fn track_of(address: ItemAddress) -> TrackAddress {
    TrackAddress { kind: address.kind, track_id: address.track_id }
}

/// Whether a dragged item is the one the preview looks for: the same item,
/// now headed for the given track.
pub open spec fn previews_at(item: FoldedDragItem, address: ItemAddress) -> bool {
    item.key.item_id == address.item_id && item.target_track == track_of(address)
}

impl FoldedDrag {
    /// The first dragged item with the given address.
    pub fn preview(&self, address: &ItemAddress) -> (r: Option<&FoldedDragItem>)
        ensures
            r matches Some(item) ==> exists|j: int|
                0 <= j < self.items@.len() && #[trigger] self.items@[j] == *item && item.key == *address && forall|m: int|
                    0 <= m < j ==> (#[trigger] self.items@[m]).key != *address,
            r is None ==> forall|m: int| 0 <= m < self.items@.len() ==> (#[trigger] self.items@[m]).key != *address,
    {
        let mut i: usize = 0;
        while i < self.items.len()
            invariant
                i <= self.items@.len(),
                forall|m: int| 0 <= m < i ==> (#[trigger] self.items@[m]).key != *address,
            decreases self.items@.len() - i,
        {
            if self.items[i].key == *address {
                proof {
                    assert(self.items@[i as int] == self.items@[i as int]);
                }
                return Some(&self.items[i]);
            }
            i = i + 1;
        }
        None
    }

    /// The first dragged item that is the addressed item headed for the
    /// addressed track.
    pub fn preview_at(&self, address: &ItemAddress) -> (r: Option<&FoldedDragItem>)
        ensures
            r matches Some(item) ==> exists|j: int|
                0 <= j < self.items@.len() && #[trigger] self.items@[j] == *item && previews_at(*item, *address) && forall|m: int|
                    0 <= m < j ==> !previews_at(#[trigger] self.items@[m], *address),
            r is None ==> forall|m: int| 0 <= m < self.items@.len() ==> !previews_at(#[trigger] self.items@[m], *address),
    {
        let track = TrackAddress { kind: address.kind, track_id: address.track_id };
        let mut i: usize = 0;
        while i < self.items.len()
            invariant
                i <= self.items@.len(),
                track == track_of(*address),
                forall|m: int| 0 <= m < i ==> !previews_at(#[trigger] self.items@[m], *address),
            decreases self.items@.len() - i,
        {
            if self.items[i].key.item_id == address.item_id && self.items[i].target_track == track {
                proof {
                    assert(previews_at(self.items@[i as int], *address));
                }
                return Some(&self.items[i]);
            }
            i = i + 1;
        }
        None
    }
}

/// Where a dragged item goes once the drag moves its anchor by the given
/// signed offsets: a move shifts both ends by the start offset, a resize
/// moves only the dragged edge. Times may go below zero.
pub open spec fn retimed_item(item: FoldedDragItem, kind: FoldedDragKind, start_delta: int, end_delta: int) -> FoldedDragItem {
    match kind {
        FoldedDragKind::Move => FoldedDragItem {
            target_start: clamp_signed(item.start + start_delta),
            target_end: clamp_signed(item.end + start_delta),
            ..item
        },
        FoldedDragKind::ResizeStart => FoldedDragItem {
            target_start: clamp_signed(item.start + start_delta),
            target_end: item.end as SignedTime,
            ..item
        },
        FoldedDragKind::ResizeEnd => FoldedDragItem {
            target_start: item.start as SignedTime,
            target_end: clamp_signed(item.end + end_delta),
            ..item
        },
    }
}

/// How far a drag has moved its anchor's start and end.
pub open spec fn drag_deltas(drag: FoldedDrag) -> (int, int) {
    (clamp_signed(drag.target_start - drag.start) as int, clamp_signed(drag.target_end - drag.end) as int)
}

impl FoldedDrag {
    /// Moves every dragged item as the anchor item moved.
    pub fn update_item_times(&mut self)
        ensures
            final(self).key == old(self).key,
            final(self).target_track == old(self).target_track,
            final(self).kind == old(self).kind,
            final(self).start == old(self).start,
            final(self).end == old(self).end,
            final(self).target_start == old(self).target_start,
            final(self).target_end == old(self).target_end,
            final(self).cross_scope_preview_row == old(self).cross_scope_preview_row,
            final(self).valid_drop == old(self).valid_drop,
            final(self).preview_status == old(self).preview_status,
            final(self).items@.len() == old(self).items@.len(),
            forall|m: int|
                0 <= m < old(self).items@.len() ==> #[trigger] final(self).items@[m] == retimed_item(
                    old(self).items@[m],
                    old(self).kind,
                    drag_deltas(*old(self)).0,
                    drag_deltas(*old(self)).1,
                ),
    {
        let start_delta = sub_signed(self.target_start, self.start as i128);
        let end_delta = sub_signed(self.target_end, self.end as i128);
        let ghost before = self.items@;
        let mut i: usize = 0;
        while i < self.items.len()
            invariant
                i <= self.items@.len(),
                self.items@.len() == before.len(),
                self.kind == old(self).kind,
                self.key == old(self).key,
                self.target_track == old(self).target_track,
                self.start == old(self).start,
                self.end == old(self).end,
                self.target_start == old(self).target_start,
                self.target_end == old(self).target_end,
                self.cross_scope_preview_row == old(self).cross_scope_preview_row,
                self.valid_drop == old(self).valid_drop,
                self.preview_status == old(self).preview_status,
                before == old(self).items@,
                start_delta == drag_deltas(*old(self)).0,
                end_delta == drag_deltas(*old(self)).1,
                forall|m: int| i <= m < before.len() ==> #[trigger] self.items@[m] == before[m],
                forall|m: int|
                    0 <= m < i ==> #[trigger] self.items@[m] == retimed_item(before[m], self.kind, start_delta as int, end_delta as int),
            decreases self.items@.len() - i,
        {
            let item = self.items[i];
            let updated = match self.kind {
                FoldedDragKind::Move => FoldedDragItem {
                    target_start: add_signed(item.start as i128, start_delta),
                    target_end: add_signed(item.end as i128, start_delta),
                    ..item
                },
                FoldedDragKind::ResizeStart => FoldedDragItem {
                    target_start: add_signed(item.start as i128, start_delta),
                    target_end: item.end as i128,
                    ..item
                },
                FoldedDragKind::ResizeEnd => FoldedDragItem {
                    target_start: item.start as i128,
                    target_end: add_signed(item.end as i128, end_delta),
                    ..item
                },
            };
            self.items.set(i, updated);
            i = i + 1;
        }
    }
}

/// The most negative offset of a dragged item's start from the anchor's
/// start among the first `k` items, and zero.
pub open spec fn earliest_offset(items: Seq<FoldedDragItem>, anchor: Time, k: int) -> int
    decreases k,
{
    if k <= 0 {
        0
    } else {
        let prev = earliest_offset(items, anchor, k - 1);
        let offset = items[k - 1].start - anchor;
        if offset < prev { offset } else { prev }
    }
}

/// The least room an item has above the minimum duration among the first
/// `k` items, if there are any.
pub open spec fn least_slack(items: Seq<FoldedDragItem>, minimum_duration: Time, k: int) -> Option<int>
    decreases k,
{
    if k <= 0 {
        None
    } else {
        let slack = items[k - 1].end.saturating_sub(items[k - 1].start) - minimum_duration;
        match least_slack(items, minimum_duration, k - 1) {
            Some(prev) => Some(if slack < prev { slack } else { prev }),
            None => Some(slack),
        }
    }
}

/// The largest shortfall of an item below the minimum duration among the
/// first `k` items, if there are any.
pub open spec fn largest_shortfall(items: Seq<FoldedDragItem>, minimum_duration: Time, k: int) -> Option<int>
    decreases k,
{
    if k <= 0 {
        None
    } else {
        let shortfall = minimum_duration - items[k - 1].end.saturating_sub(items[k - 1].start);
        match largest_shortfall(items, minimum_duration, k - 1) {
            Some(prev) => Some(if shortfall > prev { shortfall } else { prev }),
            None => Some(shortfall),
        }
    }
}

/// Where a drag puts the anchor's start and end for the pointer at `target`:
/// a move keeps every item at or after zero and keeps the duration; a resize
/// moves one edge, keeping each item at least `minimum_duration` long (which
/// may take an edge below zero).
pub open spec fn drag_targets(drag: FoldedDrag, target: SignedTime, minimum_duration: Time) -> (SignedTime, SignedTime) {
    let n = drag.items@.len() as int;
    match drag.kind {
        FoldedDragKind::Move => {
            let lowest = -earliest_offset(drag.items@, drag.start, n);
            let start = if target >= lowest { target } else { lowest as SignedTime };
            (start, clamp_signed(start + drag.end.saturating_sub(drag.start)))
        },
        FoldedDragKind::ResizeStart => {
            let max_delta = match least_slack(drag.items@, minimum_duration, n) { Some(d) => d, None => 0 };
            let wanted = clamp_signed(target - drag.start) as int;
            (clamp_signed(drag.start + if wanted <= max_delta { wanted } else { max_delta }), drag.target_end)
        },
        FoldedDragKind::ResizeEnd => {
            let min_delta = match largest_shortfall(drag.items@, minimum_duration, n) { Some(d) => d, None => 0 };
            let wanted = clamp_signed(target - drag.end) as int;
            (drag.target_start, clamp_signed(drag.end + if wanted >= min_delta { wanted } else { min_delta }))
        },
    }
}

proof fn lemma_earliest_offset_bounds(items: Seq<FoldedDragItem>, anchor: Time, k: int)
    requires
        0 <= k <= items.len(),
    ensures
        -(anchor as int) <= earliest_offset(items, anchor, k) <= 0,
    decreases k,
{
    if k > 0 {
        lemma_earliest_offset_bounds(items, anchor, k - 1);
    }
}

proof fn lemma_slack_bounds(items: Seq<FoldedDragItem>, minimum_duration: Time, k: int)
    requires
        0 <= k <= items.len(),
    ensures
        least_slack(items, minimum_duration, k) matches Some(d) ==> -(u64::MAX as int) <= d <= u64::MAX,
        largest_shortfall(items, minimum_duration, k) matches Some(d) ==> -(u64::MAX as int) <= d <= u64::MAX,
    decreases k,
{
    if k > 0 {
        lemma_slack_bounds(items, minimum_duration, k - 1);
    }
}

/// Moves the drag's anchor to follow the pointer at `target`, then moves
/// every dragged item with it.
pub fn update_drag(drag: &mut FoldedDrag, target: SignedTime, minimum_duration: Time)
    ensures
        ({
            let (target_start, target_end) = drag_targets(*old(drag), target, minimum_duration);
            &&& final(drag).target_start == target_start
            &&& final(drag).target_end == target_end
            &&& final(drag).key == old(drag).key
            &&& final(drag).target_track == old(drag).target_track
            &&& final(drag).kind == old(drag).kind
            &&& final(drag).start == old(drag).start
            &&& final(drag).end == old(drag).end
            &&& final(drag).cross_scope_preview_row == old(drag).cross_scope_preview_row
            &&& final(drag).valid_drop == old(drag).valid_drop
            &&& final(drag).preview_status == old(drag).preview_status
            &&& final(drag).items@.len() == old(drag).items@.len()
            &&& forall|m: int|
                0 <= m < old(drag).items@.len() ==> #[trigger] final(drag).items@[m] == retimed_item(
                    old(drag).items@[m],
                    old(drag).kind,
                    clamp_signed(target_start - old(drag).start) as int,
                    clamp_signed(target_end - old(drag).end) as int,
                )
        }),
{
    let ghost before = *drag;
    let n = drag.items.len();
    match drag.kind {
        FoldedDragKind::Move => {
            let mut earliest: i128 = 0;
            let mut i: usize = 0;
            while i < n
                invariant
                    n == drag.items@.len(),
                    *drag == before,
                    i <= n,
                    earliest == earliest_offset(drag.items@, drag.start, i as int),
                    -(drag.start as int) <= earliest <= 0,
                decreases n - i,
            {
                proof {
                    lemma_earliest_offset_bounds(drag.items@, drag.start, i + 1);
                }
                let offset = drag.items[i].start as i128 - drag.start as i128;
                if offset < earliest {
                    earliest = offset;
                }
                i = i + 1;
            }
            let lowest = -earliest;
            let start = if target >= lowest { target } else { lowest };
            let duration = drag.end.saturating_sub(drag.start);
            drag.target_start = start;
            drag.target_end = add_signed(start, duration as i128);
        },
        FoldedDragKind::ResizeStart => {
            let mut max_delta: Option<i128> = None;
            let mut i: usize = 0;
            while i < n
                invariant
                    n == drag.items@.len(),
                    *drag == before,
                    i <= n,
                    max_delta matches Some(d) ==> least_slack(drag.items@, minimum_duration, i as int) == Some(d as int),
                    max_delta is None ==> least_slack(drag.items@, minimum_duration, i as int) is None,
                decreases n - i,
            {
                proof {
                    lemma_slack_bounds(drag.items@, minimum_duration, i + 1);
                }
                let item = drag.items[i];
                let slack = item.end.saturating_sub(item.start) as i128 - minimum_duration as i128;
                max_delta = match max_delta {
                    Some(prev) => Some(if slack < prev { slack } else { prev }),
                    None => Some(slack),
                };
                i = i + 1;
            }
            proof {
                lemma_slack_bounds(drag.items@, minimum_duration, n as int);
            }
            let bound = match max_delta {
                Some(d) => d,
                None => 0,
            };
            let wanted = sub_signed(target, drag.start as i128);
            let delta = if wanted <= bound { wanted } else { bound };
            drag.target_start = add_signed(drag.start as i128, delta);
        },
        FoldedDragKind::ResizeEnd => {
            let mut min_delta: Option<i128> = None;
            let mut i: usize = 0;
            while i < n
                invariant
                    n == drag.items@.len(),
                    *drag == before,
                    i <= n,
                    min_delta matches Some(d) ==> largest_shortfall(drag.items@, minimum_duration, i as int) == Some(d as int),
                    min_delta is None ==> largest_shortfall(drag.items@, minimum_duration, i as int) is None,
                decreases n - i,
            {
                proof {
                    lemma_slack_bounds(drag.items@, minimum_duration, i + 1);
                }
                let item = drag.items[i];
                let shortfall = minimum_duration as i128 - item.end.saturating_sub(item.start) as i128;
                min_delta = match min_delta {
                    Some(prev) => Some(if shortfall > prev { shortfall } else { prev }),
                    None => Some(shortfall),
                };
                i = i + 1;
            }
            proof {
                lemma_slack_bounds(drag.items@, minimum_duration, n as int);
            }
            let bound = match min_delta {
                Some(d) => d,
                None => 0,
            };
            let wanted = sub_signed(target, drag.end as i128);
            let delta = if wanted >= bound { wanted } else { bound };
            drag.target_end = add_signed(drag.end as i128, delta);
        },
    }
    drag.update_item_times();
}


proof fn lemma_least_slack_below(items: Seq<FoldedDragItem>, minimum_duration: Time, k: int)
    requires
        0 <= k <= items.len(),
    ensures
        k > 0 ==> least_slack(items, minimum_duration, k) is Some,
        least_slack(items, minimum_duration, k) matches Some(d) ==> forall|m: int|
            0 <= m < k ==> d <= (#[trigger] items[m]).end.saturating_sub(items[m].start) - minimum_duration,
        largest_shortfall(items, minimum_duration, k) matches Some(d) ==> forall|m: int|
            0 <= m < k ==> d >= minimum_duration - (#[trigger] items[m]).end.saturating_sub(items[m].start),
        k > 0 ==> largest_shortfall(items, minimum_duration, k) is Some,
    decreases k,
{
    if k > 0 {
        lemma_least_slack_below(items, minimum_duration, k - 1);
    }
}

/// A resize never makes a dragged item shorter than the minimum duration:
/// a start-resize keeps each item's end and moves its start (below zero if
/// need be) to leave at least the minimum; an end-resize keeps each item's
/// start and leaves its end at least the minimum after it.
pub proof fn law_resize_keeps_minimum_duration(drag: FoldedDrag, target: SignedTime, minimum_duration: Time)
    requires
        drag.kind != FoldedDragKind::Move,
        forall|m: int| 0 <= m < drag.items@.len() ==> (#[trigger] drag.items@[m]).start <= drag.items@[m].end,
    ensures
        ({
            let (target_start, target_end) = drag_targets(drag, target, minimum_duration);
            forall|m: int|
                0 <= m < drag.items@.len() ==> {
                    let item = retimed_item(
                        #[trigger] drag.items@[m],
                        drag.kind,
                        clamp_signed(target_start - drag.start) as int,
                        clamp_signed(target_end - drag.end) as int,
                    );
                    &&& item.target_end - item.target_start >= minimum_duration
                    &&& drag.kind == FoldedDragKind::ResizeStart ==> item.target_end == drag.items@[m].end
                    &&& drag.kind == FoldedDragKind::ResizeEnd ==> item.target_start == drag.items@[m].start
                }
        }),
{
    let n = drag.items@.len() as int;
    lemma_least_slack_below(drag.items@, minimum_duration, n);
    lemma_slack_bounds(drag.items@, minimum_duration, n);
}

/// A move carries every dragged item by the signed distance the anchor
/// moved, below zero too (as long as the times stay within the signed range).
pub proof fn law_move_keeps_the_signed_shift(drag: FoldedDrag, m: int)
    requires
        drag.kind == FoldedDragKind::Move,
        0 <= m < drag.items@.len(),
        -0x1_0000_0000_0000_0000_0000_0000 <= drag.target_start <= 0x1_0000_0000_0000_0000_0000_0000,
    ensures
        ({
            let item = retimed_item(drag.items@[m], drag.kind, drag_deltas(drag).0, drag_deltas(drag).1);
            &&& item.target_start == drag.items@[m].start + (drag.target_start - drag.start)
            &&& item.target_end == drag.items@[m].end + (drag.target_start - drag.start)
        }),
{
}

} // verus!
