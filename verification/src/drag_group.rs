//! A group of root items being dragged: where each kind of track moves, the
//! new tracks the drag opens, and the times the items move to.

use vstd::prelude::*;

use crate::folded_sequence::DragPreviewStatus;
use crate::model::{
    ItemKey, Project, SignedTime, Time, TrackKind, add_signed, clamp_signed, find_item, find_item_from, lemma_find_item_from,
    sub_signed,
};

verus! {

/// What a drag does where the dragged items land on other items.
#[derive(Clone, Copy, Debug, PartialEq, Eq, Structural)]
pub enum DragCollisionMode {
    Overwrite,
    Block,
    NewTrack,
}

/// How many tracks the items of one kind move by.
#[derive(Clone, Copy, Debug, PartialEq, Eq, Structural)]
pub struct TrackOffset {
    pub kind: TrackKind,
    pub offset: isize,
}

/// A dragged item with the times it had when the drag began.
#[derive(Clone, Copy, Debug, PartialEq, Eq, Structural)]
pub struct DraggedGroupItem {
    pub key: ItemKey,
    pub start: Time,
    pub end: Time,
}

/// A drag of root items: the item under the pointer and where it started,
/// where the drag would put it, how far each kind of track moves, the new
/// tracks it opens (by kind and index), and the dragged items.
#[derive(Clone, Debug)]
pub struct DraggedGroup {
    pub grabbed: ItemKey,
    pub grabbed_start: Time,
    pub target_start: SignedTime,
    pub track_offsets: Vec<TrackOffset>,
    pub new_tracks: Vec<(TrackKind, usize)>,
    pub collision_mode: DragCollisionMode,
    pub valid_drop: bool,
    pub preview_status: DragPreviewStatus,
    pub items: Vec<DraggedGroupItem>,
}

// ----- item identities -----

/// An item named by its kind and id, which stays valid while items move.
#[derive(Clone, Copy, Debug, PartialEq, Eq, Structural)]
pub struct ItemIdentity {
    pub kind: TrackKind,
    pub id: u128,
}

/// Returns the identity of the item at a key.
pub fn item_identity(project: &Project, key: ItemKey) -> (r: Option<ItemIdentity>)
    ensures
        r == (match project.item_at(key) {
            Some(item) => Some(ItemIdentity { kind: key.kind, id: item.id }),
            None => None,
        }),
{
    match project.item_by_key(key) {
        Some(item) => Some(ItemIdentity { kind: key.kind, id: item.id }),
        None => None,
    }
}

/// The first track from `t` on (among tracks of the kind) holding an item
/// with the id, with the index of the first such item.
pub open spec fn identity_from(project: Project, identity: ItemIdentity, t: int) -> Option<ItemKey>
    decreases project.tracks_of(identity.kind).len() - t,
{
    let tracks = project.tracks_of(identity.kind);
    if t < 0 || t >= tracks.len() {
        None
    } else {
        match find_item_from(tracks[t].items@, identity.id, 0) {
            Some(i) => Some(ItemKey { kind: identity.kind, track_index: t as usize, item_index: i as usize }),
            None => identity_from(project, identity, t + 1),
        }
    }
}

/// Finds the item with an identity: the first one with its id, in the first
/// track of its kind that holds one.
pub fn item_key_for_identity(project: &Project, identity: ItemIdentity) -> (r: Option<ItemKey>)
    ensures
        r == identity_from(*project, identity, 0),
{
    let tracks = project.tracks(identity.kind);
    let mut t: usize = 0;
    while t < tracks.len()
        invariant
            tracks@ == project.tracks_of(identity.kind),
            t <= tracks@.len(),
            identity_from(*project, identity, 0) == identity_from(*project, identity, t as int),
        decreases tracks@.len() - t,
    {
        match find_item(&tracks[t].items, identity.id) {
            Some(i) => {
                proof {
                    lemma_find_item_from(tracks@[t as int].items@, identity.id, 0);
                }
                return Some(ItemKey { kind: identity.kind, track_index: t, item_index: i });
            },
            None => {
                proof {
                    lemma_find_item_from(tracks@[t as int].items@, identity.id, 0);
                }
            },
        }
        t = t + 1;
    }
    None
}

// ----- where the drag takes each item -----

/// Where an item lands: its start moves by the signed distance the drag
/// moved the grabbed item (it may go below zero), and it keeps its length.
pub open spec fn target_times(group_target: SignedTime, grabbed_start: Time, item: DraggedGroupItem) -> (SignedTime, SignedTime) {
    let start = clamp_signed(item.start + clamp_signed(group_target - grabbed_start));
    (start, clamp_signed(start + (item.end - item.start)))
}

/// Returns where a dragged item lands.
pub fn target_item_times(group: &DraggedGroup, item: &DraggedGroupItem) -> (r: (SignedTime, SignedTime))
    ensures
        r == target_times(group.target_start, group.grabbed_start, *item),
{
    let delta = sub_signed(group.target_start, group.grabbed_start as i128);
    let start = add_signed(item.start as i128, delta);
    let length = item.end as i128 - item.start as i128;
    (start, add_signed(start, length))
}

// ----- which tracks the drag reaches -----

/// The lowest and highest track index of the first `k` dragged items of
/// `kind`.
pub open spec fn kind_bounds(items: Seq<DraggedGroupItem>, kind: TrackKind, k: int) -> Option<(int, int)>
    decreases k,
{
    if k <= 0 {
        None
    } else {
        let prev = kind_bounds(items, kind, k - 1);
        let item = items[k - 1];
        if item.key.kind != kind {
            prev
        } else {
            let t = item.key.track_index as int;
            match prev {
                None => Some((t, t)),
                Some((low, high)) => Some((if t < low { t } else { low }, if t > high { t } else { high })),
            }
        }
    }
}

/// The largest track index a drag works with: a quarter of the largest
/// signed index, so that the offsets worked out from indices, counts and the
/// requested offset never leave the signed range. A list of tracks is never
/// that long, as a track takes more than four bytes.
pub open spec fn index_limit() -> int {
    isize::MAX as int / 4
}

/// Track indices of the dragged items, track counts and the requested
/// offset all lie well inside the range of indices.
pub open spec fn drag_indices_bounded(project: Project, group: DraggedGroup, track_offset: isize) -> bool {
    &&& -index_limit() <= track_offset <= index_limit()
    &&& forall|i: int| 0 <= i < group.items@.len() ==> (#[trigger] group.items@[i]).key.track_index <= index_limit()
    &&& forall|kind: TrackKind| #[trigger] project.tracks_of(kind).len() <= index_limit()
}

/// Returns the lowest and highest track index of the dragged items of
/// `kind`, if any.
pub fn group_track_bounds(group: &DraggedGroup, kind: TrackKind) -> (r: Option<(isize, isize)>)
    requires
        forall|i: int| 0 <= i < group.items@.len() ==> (#[trigger] group.items@[i]).key.track_index <= index_limit(),
    ensures
        r matches Some((low, high)) ==> kind_bounds(group.items@, kind, group.items@.len() as int) == Some((low as int, high as int)),
        r is None ==> kind_bounds(group.items@, kind, group.items@.len() as int) is None,
{
    let mut bounds: Option<(isize, isize)> = None;
    let mut k: usize = 0;
    while k < group.items.len()
        invariant
            k <= group.items@.len(),
            forall|i: int| 0 <= i < group.items@.len() ==> (#[trigger] group.items@[i]).key.track_index <= index_limit(),
            bounds matches Some((low, high)) ==> kind_bounds(group.items@, kind, k as int) == Some((low as int, high as int)),
            bounds is None ==> kind_bounds(group.items@, kind, k as int) is None,
        decreases group.items@.len() - k,
    {
        let item = group.items[k];
        if item.key.kind == kind {
            let t = item.key.track_index as isize;
            bounds = match bounds {
                None => Some((t, t)),
                Some((low, high)) => Some((if t < low { t } else { low }, if t > high { t } else { high })),
            };
        }
        k = k + 1;
    }
    bounds
}

/// The kinds of the first `k` dragged items, each once, in the order they
/// first come.
pub open spec fn kinds_in_order(items: Seq<DraggedGroupItem>, k: int) -> Seq<TrackKind>
    decreases k,
{
    if k <= 0 {
        Seq::empty()
    } else {
        let prev = kinds_in_order(items, k - 1);
        if prev.contains(items[k - 1].key.kind) {
            prev
        } else {
            prev.push(items[k - 1].key.kind)
        }
    }
}

/// The largest of two integers.
pub open spec fn max_int(a: int, b: int) -> int {
    if a >= b { a } else { b }
}

/// The smallest of two integers.
pub open spec fn min_int(a: int, b: int) -> int {
    if a <= b { a } else { b }
}

/// How a drag by `track_offset` tracks lays out the items of one kind whose
/// tracks run from `low` to `high` among `count` tracks: the new tracks
/// needed before and after the existing ones (no more than the items span),
/// and the range the offset is then kept within.
pub open spec fn kind_layout(low: int, high: int, count: int, track_offset: int) -> (int, int, int, int) {
    let span = high - low + 1;
    let new_before = min_int(max_int(-(low + track_offset), 0), span);
    let new_after = min_int(max_int(high + track_offset + 1 - count, 0), span);
    let min_offset = -low;
    let max_offset = count + new_after - 1 - high;
    (new_before, new_after, min_offset, max_offset)
}

/// The offset the items of one kind move by: the requested offset, shifted
/// past the new tracks before, kept within range.
pub open spec fn kind_offset(low: int, high: int, count: int, track_offset: int) -> int {
    let (new_before, new_after, min_offset, max_offset) = kind_layout(low, high, count, track_offset);
    let wanted = track_offset + new_before;
    if wanted < min_offset {
        min_offset
    } else if wanted > max_offset {
        max_offset
    } else {
        wanted
    }
}

/// The new tracks of one kind: indices from zero before the existing
/// tracks, then indices from `count` after them.
pub open spec fn kind_new_tracks(kind: TrackKind, count: int, new_before: int, new_after: int) -> Seq<(TrackKind, usize)> {
    Seq::new(new_before as nat, |i: int| (kind, i as usize)) + Seq::new(new_after as nat, |i: int| (kind, (count + i) as usize))
}

/// A drag puts every item of a kind on a track: at or after the first one
/// and no further than the last existing or newly opened one. A drag that
/// leaves every item on an existing track opens no track and moves by the
/// offset asked for.
pub proof fn law_drag_lands_on_tracks(low: int, high: int, count: int, track_offset: int)
    requires
        0 <= low <= high,
        kind_layout(low, high, count, track_offset).2 <= kind_layout(low, high, count, track_offset).3,
    ensures
        low + kind_offset(low, high, count, track_offset) >= 0,
        high + kind_offset(low, high, count, track_offset) <= count + kind_layout(low, high, count, track_offset).1 - 1,
        (low + track_offset >= 0 && high + track_offset < count) ==> {
            &&& kind_layout(low, high, count, track_offset).0 == 0
            &&& kind_layout(low, high, count, track_offset).1 == 0
            &&& kind_offset(low, high, count, track_offset) == track_offset
        },
{
}

/// Whether the range the offset of each kind is kept within is not empty.
pub open spec fn offsets_fit(project: Project, items: Seq<DraggedGroupItem>, track_offset: int) -> bool {
    forall|kind: TrackKind|
        #[trigger] kind_bounds(items, kind, items.len() as int) matches Some((low, high)) ==> {
            let (_, _, min_offset, max_offset) = kind_layout(low, high, project.tracks_of(kind).len() as int, track_offset);
            min_offset <= max_offset
        }
}

/// The offsets and new tracks of the kinds among the first `k` listed.
pub open spec fn layout_upto(
    project: Project,
    items: Seq<DraggedGroupItem>,
    kinds: Seq<TrackKind>,
    track_offset: int,
    k: int,
) -> (Seq<TrackOffset>, Seq<(TrackKind, usize)>)
    decreases k,
{
    if k <= 0 {
        (Seq::empty(), Seq::empty())
    } else {
        let (offsets, tracks) = layout_upto(project, items, kinds, track_offset, k - 1);
        let kind = kinds[k - 1];
        match kind_bounds(items, kind, items.len() as int) {
            Some((low, high)) => {
                let count = project.tracks_of(kind).len() as int;
                let (new_before, new_after, _, _) = kind_layout(low, high, count, track_offset);
                (
                    offsets.push(TrackOffset { kind: kind, offset: kind_offset(low, high, count, track_offset) as isize }),
                    tracks + kind_new_tracks(kind, count, new_before, new_after),
                )
            },
            None => (offsets, tracks),
        }
    }
}

/// Whether the kind already has an offset among the first `k`.
fn has_kind_offset(offsets: &Vec<TrackOffset>, kind: TrackKind) -> (r: Option<usize>)
    ensures
        r matches Some(i) ==> i < offsets@.len() && offsets@[i as int].kind == kind && forall|m: int|
            0 <= m < i ==> (#[trigger] offsets@[m]).kind != kind,
        r is None ==> forall|m: int| 0 <= m < offsets@.len() ==> (#[trigger] offsets@[m]).kind != kind,
{
    let mut i: usize = 0;
    while i < offsets.len()
        invariant
            i <= offsets@.len(),
            forall|m: int| 0 <= m < i ==> (#[trigger] offsets@[m]).kind != kind,
        decreases offsets@.len() - i,
    {
        if offsets[i].kind == kind {
            return Some(i);
        }
        i = i + 1;
    }
    None
}

/// Sets the offset of one kind: the first entry of that kind changes, or a
/// new entry is added.
pub fn set_track_offset(group: &mut DraggedGroup, kind: TrackKind, offset: isize)
    ensures
        final(group).grabbed == old(group).grabbed,
        final(group).grabbed_start == old(group).grabbed_start,
        final(group).target_start == old(group).target_start,
        final(group).new_tracks@ == old(group).new_tracks@,
        final(group).collision_mode == old(group).collision_mode,
        final(group).valid_drop == old(group).valid_drop,
        final(group).preview_status == old(group).preview_status,
        final(group).items@ == old(group).items@,
        (exists|i: int| 0 <= i < old(group).track_offsets@.len() && (#[trigger] old(group).track_offsets@[i]).kind == kind)
            ==> exists|i: int|
            0 <= i < old(group).track_offsets@.len() && (#[trigger] old(group).track_offsets@[i]).kind == kind && (forall|m: int|
                0 <= m < i ==> (#[trigger] old(group).track_offsets@[m]).kind != kind) && final(group).track_offsets@
                == old(group).track_offsets@.update(i, TrackOffset { kind: kind, offset: offset }),
        (forall|i: int| 0 <= i < old(group).track_offsets@.len() ==> (#[trigger] old(group).track_offsets@[i]).kind != kind)
            ==> final(group).track_offsets@ == old(group).track_offsets@.push(TrackOffset { kind: kind, offset: offset }),
{
    match has_kind_offset(&group.track_offsets, kind) {
        Some(i) => {
            group.track_offsets.set(i, TrackOffset { kind: kind, offset: offset });
        },
        None => {
            group.track_offsets.push(TrackOffset { kind: kind, offset: offset });
        },
    }
}

/// Lists the kinds of the dragged items, each once, in the order they first
/// come.
fn item_kinds(items: &Vec<DraggedGroupItem>) -> (r: Vec<TrackKind>)
    ensures
        r@ == kinds_in_order(items@, items@.len() as int),
{
    let mut kinds: Vec<TrackKind> = Vec::new();
    let mut k: usize = 0;
    while k < items.len()
        invariant
            k <= items@.len(),
            kinds@ == kinds_in_order(items@, k as int),
        decreases items@.len() - k,
    {
        let kind = items[k].key.kind;
        let mut seen = false;
        let mut m: usize = 0;
        while m < kinds.len()
            invariant
                m <= kinds@.len(),
                seen == exists|q: int| 0 <= q < m && kinds@[q] == kind,
            decreases kinds@.len() - m,
        {
            if kinds[m] == kind {
                seen = true;
            }
            m = m + 1;
        }
        proof {
            assert(seen == kinds@.contains(kind));
        }
        if !seen {
            kinds.push(kind);
        }
        k = k + 1;
    }
    kinds
}

proof fn lemma_kinds_in_order(items: Seq<DraggedGroupItem>, k: int)
    requires
        0 <= k <= items.len(),
    ensures
        kinds_in_order(items, k).no_duplicates(),
        forall|j: int| 0 <= j < kinds_in_order(items, k).len() ==> kind_bounds(items, #[trigger] kinds_in_order(items, k)[j], k) is Some,
    decreases k,
{
    if k > 0 {
        lemma_kinds_in_order(items, k - 1);
        let prev = kinds_in_order(items, k - 1);
        let cur = kinds_in_order(items, k);
        assert forall|j: int| 0 <= j < cur.len() implies kind_bounds(items, #[trigger] cur[j], k) is Some by {
            if j < prev.len() {
                assert(cur[j] == prev[j]);
                assert(kind_bounds(items, prev[j], k - 1) is Some);
            }
        }
    }
}

proof fn lemma_bounds_grow(items: Seq<DraggedGroupItem>, kind: TrackKind, k: int, n: int)
    requires
        0 <= k <= n <= items.len(),
        kind_bounds(items, kind, k) is Some,
    ensures
        kind_bounds(items, kind, n) is Some,
    decreases n - k,
{
    if n > k {
        lemma_bounds_grow(items, kind, k, n - 1);
    }
}

proof fn lemma_bounds_within(items: Seq<DraggedGroupItem>, kind: TrackKind, k: int)
    requires
        0 <= k <= items.len(),
        forall|i: int| 0 <= i < items.len() ==> (#[trigger] items[i]).key.track_index <= index_limit(),
    ensures
        kind_bounds(items, kind, k) matches Some((low, high)) ==> 0 <= low <= high <= index_limit(),
    decreases k,
{
    if k > 0 {
        lemma_bounds_within(items, kind, k - 1);
    }
}

/// The dragged group is the same apart from its offsets and new tracks.
pub open spec fn same_drag_apart_from_layout(a: DraggedGroup, b: DraggedGroup) -> bool {
    &&& b.grabbed == a.grabbed
    &&& b.grabbed_start == a.grabbed_start
    &&& b.target_start == a.target_start
    &&& b.collision_mode == a.collision_mode
    &&& b.valid_drop == a.valid_drop
    &&& b.preview_status == a.preview_status
    &&& b.items@ == a.items@
}

/// Lays out one kind of dragged item: adds its offset and the new tracks it
/// needs.
fn lay_out_kind(project: &Project, group: &mut DraggedGroup, kind: TrackKind, track_offset: isize)
    requires
        -index_limit() <= track_offset <= index_limit(),
        forall|i: int| 0 <= i < old(group).items@.len() ==> (#[trigger] old(group).items@[i]).key.track_index <= index_limit(),
        project.tracks_of(kind).len() <= index_limit(),
        kind_bounds(old(group).items@, kind, old(group).items@.len() as int) is Some,
        offsets_fit(*project, old(group).items@, track_offset as int),
        forall|m: int| 0 <= m < old(group).track_offsets@.len() ==> (#[trigger] old(group).track_offsets@[m]).kind != kind,
    ensures
        same_drag_apart_from_layout(*old(group), *final(group)),
        ({
            let (low, high) = kind_bounds(old(group).items@, kind, old(group).items@.len() as int).unwrap();
            let count = project.tracks_of(kind).len() as int;
            let (new_before, new_after, _, _) = kind_layout(low, high, count, track_offset as int);
            &&& final(group).track_offsets@ == old(group).track_offsets@.push(
                TrackOffset { kind: kind, offset: kind_offset(low, high, count, track_offset as int) as isize },
            )
            &&& final(group).new_tracks@ == old(group).new_tracks@ + kind_new_tracks(kind, count, new_before, new_after)
        }),
{
    let ghost items = group.items@;
    proof {
        lemma_bounds_within(items, kind, items.len() as int);
    }
    let (low, high) = match group_track_bounds(group, kind) {
        Some(b) => b,
        None => {
            return;
        },
    };
    let count = project.tracks(kind).len() as isize;
    let span = high - low + 1;
    let before_wanted = -(low + track_offset);
    let needed_before = if before_wanted > 0 { before_wanted } else { 0 };
    let after_wanted = high + track_offset + 1 - count;
    let needed_after = if after_wanted > 0 { after_wanted } else { 0 };
    let new_before = if needed_before < span { needed_before } else { span };
    let new_after = if needed_after < span { needed_after } else { span };
    let min_offset = -low;
    let max_offset = count + new_after - 1 - high;
    let wanted = track_offset + new_before;
    let offset = if wanted < min_offset {
        min_offset
    } else if wanted > max_offset {
        max_offset
    } else {
        wanted
    };
    set_track_offset(group, kind, offset);
    let ghost tracks_before = group.new_tracks@;
    let mut i: usize = 0;
    while i < new_before as usize
        invariant
            0 <= new_before <= index_limit() + 1,
            i <= new_before,
            group.new_tracks@ == tracks_before + Seq::new(i as nat, |q: int| (kind, q as usize)),
            same_drag_apart_from_layout(*old(group), *group),
            group.track_offsets@ == old(group).track_offsets@.push(TrackOffset { kind: kind, offset: offset }),
        decreases new_before - i,
    {
        group.new_tracks.push((kind, i));
        proof {
            assert(Seq::new((i + 1) as nat, |q: int| (kind, q as usize)) =~= Seq::new(i as nat, |q: int| (kind, q as usize)).push(
                (kind, i),
            ));
        }
        i = i + 1;
    }
    let ghost middle = group.new_tracks@;
    let existing = project.tracks(kind).len();
    let mut j: usize = 0;
    while j < new_after as usize
        invariant
            0 <= new_after <= index_limit() + 1,
            existing <= index_limit(),
            j <= new_after,
            group.new_tracks@ == middle + Seq::new(j as nat, |q: int| (kind, (existing + q) as usize)),
            same_drag_apart_from_layout(*old(group), *group),
            group.track_offsets@ == old(group).track_offsets@.push(TrackOffset { kind: kind, offset: offset }),
        decreases new_after - j,
    {
        group.new_tracks.push((kind, existing + j));
        proof {
            assert(Seq::new((j + 1) as nat, |q: int| (kind, (existing + q) as usize)) =~= Seq::new(
                j as nat,
                |q: int| (kind, (existing + q) as usize),
            ).push((kind, (existing + j) as usize)));
        }
        j = j + 1;
    }
    proof {
        assert(group.new_tracks@ =~= tracks_before + kind_new_tracks(kind, count as int, new_before as int, new_after as int));
    }
}

/// Sets how far each kind of dragged item moves for a drag by
/// `track_offset` tracks, and which new tracks the drag opens: where the
/// items of a kind would leave the existing tracks, new tracks (no more than
/// the items span) are opened before or after them, and the offset is kept
/// so that every item lands on a track.
pub fn set_track_offsets(project: &Project, group: &mut DraggedGroup, track_offset: isize)
    requires
        drag_indices_bounded(*project, *old(group), track_offset),
        offsets_fit(*project, old(group).items@, track_offset as int),
    ensures
        ({
            let kinds = kinds_in_order(old(group).items@, old(group).items@.len() as int);
            let (offsets, tracks) = layout_upto(*project, old(group).items@, kinds, track_offset as int, kinds.len() as int);
            &&& final(group).track_offsets@ == offsets
            &&& final(group).new_tracks@ == tracks
        }),
        same_drag_apart_from_layout(*old(group), *final(group)),
{
    group.track_offsets.clear();
    group.new_tracks.clear();
    let kinds = item_kinds(&group.items);
    let ghost items = group.items@;
    proof {
        lemma_kinds_in_order(items, items.len() as int);
    }
    let mut k: usize = 0;
    while k < kinds.len()
        invariant
            group.items@ == items,
            kinds@ == kinds_in_order(items, items.len() as int),
            kinds@.no_duplicates(),
            forall|j: int| 0 <= j < kinds@.len() ==> kind_bounds(items, #[trigger] kinds@[j], items.len() as int) is Some,
            -index_limit() <= track_offset <= index_limit(),
            forall|i: int| 0 <= i < items.len() ==> (#[trigger] items[i]).key.track_index <= index_limit(),
            forall|kind: TrackKind| #[trigger] project.tracks_of(kind).len() <= index_limit(),
            offsets_fit(*project, items, track_offset as int),
            k <= kinds@.len(),
            (group.track_offsets@, group.new_tracks@) == layout_upto(*project, items, kinds@, track_offset as int, k as int),
            group.track_offsets@.len() == k,
            forall|m: int| 0 <= m < k ==> (#[trigger] group.track_offsets@[m]).kind == kinds@[m],
            same_drag_apart_from_layout(*old(group), *group),
        decreases kinds@.len() - k,
    {
        let kind = kinds[k];
        proof {
            assert(kind_bounds(items, kinds@[k as int], items.len() as int) is Some);
            assert(project.tracks_of(kind).len() <= index_limit());
            assert forall|m: int| 0 <= m < group.track_offsets@.len() implies (#[trigger] group.track_offsets@[m]).kind != kind by {
                assert(kinds@[m] != kinds@[k as int]);
            }
        }
        lay_out_kind(project, group, kind, track_offset);
        k = k + 1;
    }
}

} // verus!
