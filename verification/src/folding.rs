//! Folding selected video and audio items into a nested sequence that one
//! item per kind then plays in their place.

use vstd::prelude::*;

use crate::grouping::{is_next_group_id, lemma_next_group_id_unique, next_group_id};
use crate::model::{
    AudioSource, FoldedSequence, Item, ItemKey, ItemPayload, Project, SequenceReference, Time, Track, TrackKind,
    VideoItemContent,
};
use crate::sorting::{first_item_after, insert_item_sorted, insert_sorted};
use crate::tracks::overlaps;

verus! {

// ----- which keys fold -----

/// A key that can fold: a video or audio item that exists.
pub open spec fn foldable_key(project: Project, key: ItemKey) -> bool {
    &&& (key.kind == TrackKind::Video || key.kind == TrackKind::Audio)
    &&& project.item_at(key) is Some
}

/// The selection folds as a whole: at least two keys, each once, each of a
/// video or audio item that exists.
pub open spec fn fold_keys_valid(project: Project, selected: Seq<ItemKey>) -> bool {
    &&& selected.len() >= 2
    &&& selected.no_duplicates()
    &&& forall|i: int| 0 <= i < selected.len() ==> foldable_key(project, #[trigger] selected[i])
}

/// Whether every key is foldable and no key comes twice.
fn keys_fold(project: &Project, selected: &Vec<ItemKey>) -> (r: bool)
    ensures
        r == fold_keys_valid(*project, selected@),
{
    if selected.len() < 2 {
        return false;
    }
    let mut i: usize = 0;
    while i < selected.len()
        invariant
            i <= selected@.len(),
            forall|m: int| 0 <= m < i ==> foldable_key(*project, #[trigger] selected@[m]),
            forall|m: int, n: int| 0 <= m < n < i ==> #[trigger] selected@[m] != #[trigger] selected@[n],
        decreases selected@.len() - i,
    {
        let key = selected[i];
        if !(key.kind == TrackKind::Video || key.kind == TrackKind::Audio) {
            return false;
        }
        if project.item_by_key(key).is_none() {
            return false;
        }
        let mut m: usize = 0;
        while m < i
            invariant
                i < selected@.len(),
                m <= i,
                key == selected@[i as int],
                forall|q: int| 0 <= q < m ==> selected@[q] != key,
            decreases i - m,
        {
            if selected[m] == key {
                proof {
                    assert(!selected@.no_duplicates());
                }
                return false;
            }
            m = m + 1;
        }
        i = i + 1;
    }
    true
}

/// The earliest start and the latest end of the items of the first `k` keys.
pub open spec fn keys_span(project: Project, selected: Seq<ItemKey>, k: int) -> (Time, Time)
    decreases k,
{
    if k <= 1 {
        let item = project.item_at(selected[0]).unwrap();
        (item.start, item.end)
    } else {
        let (start, end) = keys_span(project, selected, k - 1);
        let item = project.item_at(selected[k - 1]).unwrap();
        (if item.start < start { item.start } else { start }, if item.end > end { item.end } else { end })
    }
}

/// The span that the folded items cover.
pub open spec fn fold_span(project: Project, selected: Seq<ItemKey>) -> (Time, Time) {
    keys_span(project, selected, selected.len() as int)
}

/// Whether folding the selection does something: the keys fold and their
/// items cover some time.
pub open spec fn fold_ok(project: Project, selected: Seq<ItemKey>) -> bool {
    fold_keys_valid(project, selected) && fold_span(project, selected).0 < fold_span(project, selected).1
}

/// Returns the span that the items of the keys cover.
fn span_of_keys(project: &Project, selected: &Vec<ItemKey>) -> (r: (Time, Time))
    requires
        fold_keys_valid(*project, selected@),
    ensures
        r == fold_span(*project, selected@),
{
    let first = project.item_by_key(selected[0]).unwrap();
    let mut start = first.start;
    let mut end = first.end;
    let mut k: usize = 1;
    while k < selected.len()
        invariant
            fold_keys_valid(*project, selected@),
            1 <= k <= selected@.len(),
            (start, end) == keys_span(*project, selected@, k as int),
        decreases selected@.len() - k,
    {
        proof {
            assert(foldable_key(*project, selected@[k as int]));
        }
        let item = project.item_by_key(selected[k]).unwrap();
        if item.start < start {
            start = item.start;
        }
        if item.end > end {
            end = item.end;
        }
        k = k + 1;
    }
    (start, end)
}

// ----- the tracks that items leave -----

/// Whether some key of `kind` lies on track `t`.
pub open spec fn is_source(selected: Seq<ItemKey>, kind: TrackKind, t: int) -> bool {
    exists|i: int| 0 <= i < selected.len() && (#[trigger] selected[i]).kind == kind && selected[i].track_index == t
}

/// The tracks among the first `n` of `kind` that keys lie on, in order.
pub open spec fn source_tracks(selected: Seq<ItemKey>, kind: TrackKind, n: int) -> Seq<usize>
    decreases n,
{
    if n <= 0 {
        Seq::empty()
    } else {
        let prev = source_tracks(selected, kind, n - 1);
        if is_source(selected, kind, n - 1) {
            prev.push((n - 1) as usize)
        } else {
            prev
        }
    }
}

/// Whether some key of `kind` lies on track `t`.
fn has_key_on(selected: &Vec<ItemKey>, kind: TrackKind, t: usize) -> (r: bool)
    ensures
        r == is_source(selected@, kind, t as int),
{
    let mut i: usize = 0;
    while i < selected.len()
        invariant
            i <= selected@.len(),
            forall|m: int| 0 <= m < i ==> !((#[trigger] selected@[m]).kind == kind && selected@[m].track_index == t),
        decreases selected@.len() - i,
    {
        if selected[i].kind == kind && selected[i].track_index == t {
            return true;
        }
        i = i + 1;
    }
    false
}

/// Lists the tracks of `kind` (of the first `n`) that keys lie on.
fn source_track_indices(selected: &Vec<ItemKey>, kind: TrackKind, n: usize) -> (r: Vec<usize>)
    ensures
        r@ == source_tracks(selected@, kind, n as int),
{
    let mut r: Vec<usize> = Vec::new();
    let mut t: usize = 0;
    while t < n
        invariant
            t <= n,
            r@ == source_tracks(selected@, kind, t as int),
        decreases n - t,
    {
        if has_key_on(selected, kind, t) {
            r.push(t);
        }
        t = t + 1;
    }
    r
}

/// Whether a key of `kind` names item `j` of track `t`.
pub open spec fn is_folded_at(selected: Seq<ItemKey>, kind: TrackKind, t: int, j: int) -> bool {
    selected.contains(ItemKey { kind: kind, track_index: t as usize, item_index: j as usize })
}

/// The folded items among the first `k` of a track, moved so that the fold
/// starts at zero, in order.
pub open spec fn nested_items(items: Seq<Item>, selected: Seq<ItemKey>, kind: TrackKind, t: int, origin: Time, k: int) -> Seq<Item>
    decreases k,
{
    if k <= 0 {
        Seq::empty()
    } else {
        let prev = nested_items(items, selected, kind, t, origin, k - 1);
        let item = items[k - 1];
        if is_folded_at(selected, kind, t, k - 1) {
            prev.push(Item { start: item.start.saturating_sub(origin), end: item.end.saturating_sub(origin), ..item })
        } else {
            prev
        }
    }
}

/// Whether an item of `kind` with this id is folded.
pub open spec fn moved_id(project: Project, selected: Seq<ItemKey>, kind: TrackKind, id: u128) -> bool {
    exists|i: int|
        0 <= i < selected.len() && (#[trigger] selected[i]).kind == kind && project.item_at(selected[i]) is Some
            && project.item_at(selected[i]).unwrap().id == id
}

/// The items of a track that stay after the fold: those whose id is not
/// the id of a folded item of the same kind.
pub open spec fn staying_items(project: Project, selected: Seq<ItemKey>, kind: TrackKind, items: Seq<Item>) -> Seq<Item> {
    items.filter(|item: Item| !moved_id(project, selected, kind, item.id))
}

/// The folded items of a track, moved so that the fold starts at zero.
fn nested_track_items(track: &Track, selected: &Vec<ItemKey>, kind: TrackKind, t: usize, origin: Time) -> (r: Vec<Item>)
    ensures
        r@ == nested_items(track.items@, selected@, kind, t as int, origin, track.items@.len() as int),
{
    let mut r: Vec<Item> = Vec::new();
    let mut j: usize = 0;
    while j < track.items.len()
        invariant
            j <= track.items@.len(),
            r@ == nested_items(track.items@, selected@, kind, t as int, origin, j as int),
        decreases track.items@.len() - j,
    {
        let key = ItemKey { kind: kind, track_index: t, item_index: j };
        let mut named = false;
        let mut i: usize = 0;
        while i < selected.len()
            invariant
                i <= selected@.len(),
                named == exists|m: int| 0 <= m < i && #[trigger] selected@[m] == key,
            decreases selected@.len() - i,
        {
            if selected[i] == key {
                named = true;
            }
            i = i + 1;
        }
        proof {
            assert(named == is_folded_at(selected@, kind, t as int, j as int)) by {
                if is_folded_at(selected@, kind, t as int, j as int) {
                    let m = choose|m: int| 0 <= m < selected@.len() && selected@[m] == key;
                    assert(selected@[m] == key);
                }
            }
        }
        if named {
            let item = track.items[j];
            r.push(Item { start: item.start.saturating_sub(origin), end: item.end.saturating_sub(origin), ..item });
        }
        j = j + 1;
    }
    r
}

/// The tracks of a folded sequence for one kind: one per source track, in
/// order, with a fresh id, the source track's settings and its folded items.
pub open spec fn nested_tracks_match(
    nested: Seq<Track>,
    tracks: Seq<Track>,
    sources: Seq<usize>,
    new_ids: Seq<u128>,
    selected: Seq<ItemKey>,
    kind: TrackKind,
    origin: Time,
) -> bool {
    &&& nested.len() == sources.len()
    &&& forall|j: int|
        0 <= j < sources.len() ==> {
            let t = sources[j] as int;
            &&& (#[trigger] nested[j]).id == new_ids[t]
            &&& nested[j].enabled == tracks[t].enabled
            &&& nested[j].unity_gain == tracks[t].unity_gain
            &&& nested[j].items@ == nested_items(tracks[t].items@, selected, kind, t, origin, tracks[t].items@.len() as int)
        }
}

/// Builds the tracks of the folded sequence for one kind.
fn nested_tracks(
    tracks: &Vec<Track>,
    sources: &Vec<usize>,
    new_ids: &Vec<u128>,
    selected: &Vec<ItemKey>,
    kind: TrackKind,
    origin: Time,
) -> (r: Vec<Track>)
    requires
        forall|j: int| 0 <= j < sources@.len() ==> #[trigger] sources@[j] < tracks@.len(),
        new_ids@.len() >= tracks@.len(),
    ensures
        nested_tracks_match(r@, tracks@, sources@, new_ids@, selected@, kind, origin),
{
    let mut r: Vec<Track> = Vec::new();
    let mut j: usize = 0;
    while j < sources.len()
        invariant
            j <= sources@.len(),
            forall|m: int| 0 <= m < sources@.len() ==> #[trigger] sources@[m] < tracks@.len(),
            new_ids@.len() >= tracks@.len(),
            nested_tracks_match(r@, tracks@, sources@.subrange(0, j as int), new_ids@, selected@, kind, origin),
        decreases sources@.len() - j,
    {
        let t = sources[j];
        let items = nested_track_items(&tracks[t], selected, kind, t, origin);
        r.push(Track { id: new_ids[t], enabled: tracks[t].enabled, unity_gain: tracks[t].unity_gain, items: items });
        proof {
            let s = sources@.subrange(0, j + 1);
            assert forall|m: int| 0 <= m < s.len() implies {
                let tt = s[m] as int;
                &&& (#[trigger] r@[m]).id == new_ids@[tt]
                &&& r@[m].enabled == tracks@[tt].enabled
                &&& r@[m].unity_gain == tracks@[tt].unity_gain
                &&& r@[m].items@ == nested_items(tracks@[tt].items@, selected@, kind, tt, origin, tracks@[tt].items@.len() as int)
            } by {
                if m < j {
                    assert(s[m] == sources@.subrange(0, j as int)[m]);
                }
            }
        }
        j = j + 1;
    }
    proof {
        assert(sources@.subrange(0, sources@.len() as int) == sources@);
    }
    r
}

/// The ids of the folded items of `kind`.
fn moved_ids(project: &Project, selected: &Vec<ItemKey>, kind: TrackKind) -> (r: Vec<u128>)
    ensures
        forall|id: u128| #[trigger] r@.contains(id) <==> moved_id(*project, selected@, kind, id),
{
    let mut r: Vec<u128> = Vec::new();
    let mut i: usize = 0;
    while i < selected.len()
        invariant
            i <= selected@.len(),
            forall|id: u128|
                #[trigger] r@.contains(id) <==> exists|m: int|
                    0 <= m < i && (#[trigger] selected@[m]).kind == kind && project.item_at(selected@[m]) is Some
                        && project.item_at(selected@[m]).unwrap().id == id,
        decreases selected@.len() - i,
    {
        let key = selected[i];
        let ghost before = r@;
        if key.kind == kind {
            match project.item_by_key(key) {
                Some(item) => {
                    r.push(item.id);
                },
                None => {},
            }
        }
        proof {
            assert forall|id: u128|
                #[trigger] r@.contains(id) <==> exists|m: int|
                    0 <= m < i + 1 && (#[trigger] selected@[m]).kind == kind && project.item_at(selected@[m]) is Some
                        && project.item_at(selected@[m]).unwrap().id == id by {
                if r@.contains(id) && !before.contains(id) {
                    assert(r@ == before.push(id) || r@ == before);
                    if r@ != before {
                        assert(r@.last() == id);
                    }
                    assert(selected@[i as int].kind == kind);
                }
                if before.contains(id) {
                    let k = choose|k: int| 0 <= k < before.len() && before[k] == id;
                    assert(r@[k] == id);
                }
                if exists|m: int|
                    0 <= m < i + 1 && (#[trigger] selected@[m]).kind == kind && project.item_at(selected@[m]) is Some
                        && project.item_at(selected@[m]).unwrap().id == id {
                    let m = choose|m: int|
                        0 <= m < i + 1 && (#[trigger] selected@[m]).kind == kind && project.item_at(selected@[m]) is Some
                            && project.item_at(selected@[m]).unwrap().id == id;
                    if m == i {
                        assert(r@.last() == id);
                        assert(r@[r@.len() - 1] == id);
                    }
                }
            }
        }
        i = i + 1;
    }
    r
}

/// Whether the id is among the ids.
fn has_id(ids: &Vec<u128>, id: u128) -> (r: bool)
    ensures
        r == ids@.contains(id),
{
    let mut k: usize = 0;
    while k < ids.len()
        invariant
            k <= ids@.len(),
            forall|m: int| 0 <= m < k ==> ids@[m] != id,
        decreases ids@.len() - k,
    {
        if ids[k] == id {
            return true;
        }
        k = k + 1;
    }
    false
}

/// Removes from every track the items whose id is among the ids.
fn remove_items_with_ids(tracks: &mut Vec<Track>, ids: &Vec<u128>)
    ensures
        final(tracks)@.len() == old(tracks)@.len(),
        forall|t: int|
            0 <= t < old(tracks)@.len() ==> {
                &&& (#[trigger] final(tracks)@[t]).id == old(tracks)@[t].id
                &&& final(tracks)@[t].enabled == old(tracks)@[t].enabled
                &&& final(tracks)@[t].unity_gain == old(tracks)@[t].unity_gain
                &&& final(tracks)@[t].items@ == old(tracks)@[t].items@.filter(|item: Item| !ids@.contains(item.id))
            },
{
    let ghost initial = tracks@;
    let ghost pred = |item: Item| !ids@.contains(item.id);
    let mut t: usize = 0;
    while t < tracks.len()
        invariant
            tracks@.len() == initial.len(),
            t <= tracks@.len(),
            pred == (|item: Item| !ids@.contains(item.id)),
            forall|j: int| t <= j < initial.len() ==> #[trigger] tracks@[j] == initial[j],
            forall|j: int|
                0 <= j < t ==> {
                    &&& (#[trigger] tracks@[j]).id == initial[j].id
                    &&& tracks@[j].enabled == initial[j].enabled
                    &&& tracks@[j].unity_gain == initial[j].unity_gain
                    &&& tracks@[j].items@ == initial[j].items@.filter(pred)
                },
        decreases tracks@.len() - t,
    {
        let mut kept: Vec<Item> = Vec::new();
        let mut i: usize = 0;
        while i < tracks[t].items.len()
            invariant
                t < tracks@.len(),
                tracks@[t as int] == initial[t as int],
                pred == (|item: Item| !ids@.contains(item.id)),
                i <= tracks@[t as int].items@.len(),
                kept@ == tracks@[t as int].items@.subrange(0, i as int).filter(pred),
            decreases tracks@[t as int].items@.len() - i,
        {
            let item = tracks[t].items[i];
            proof {
                reveal(Seq::filter);
                assert(tracks@[t as int].items@.subrange(0, i + 1).drop_last() == tracks@[t as int].items@.subrange(0, i as int));
                assert(tracks@[t as int].items@.subrange(0, i + 1).last() == item);
            }
            if !has_id(ids, item.id) {
                kept.push(item);
            }
            i = i + 1;
        }
        proof {
            assert(tracks@[t as int].items@.subrange(0, tracks@[t as int].items@.len() as int) == tracks@[t as int].items@);
        }
        let track = Track { id: tracks[t].id, enabled: tracks[t].enabled, unity_gain: tracks[t].unity_gain, items: kept };
        tracks.set(t, track);
        t = t + 1;
    }
}

// ----- where the folded item goes -----

/// Whether the item standing for a fold fits on a track: the track is
/// enabled where that is needed, plays at unity gain where that is needed,
/// and nothing on it overlaps `[start, end)`.
pub open spec fn proxy_fits(track: Track, needs_enabled: bool, needs_unity: bool, start: Time, end: Time) -> bool {
    &&& (!needs_enabled || track.enabled)
    &&& (!needs_unity || track.unity_gain)
    &&& !exists|i: int| 0 <= i < track.items@.len() && #[trigger] overlaps(track.items@[i], start, end)
}

/// The first of the first `k` candidate tracks where the item fits.
pub open spec fn first_fit(
    tracks: Seq<Track>,
    candidates: Seq<usize>,
    needs_enabled: bool,
    needs_unity: bool,
    start: Time,
    end: Time,
    k: int,
) -> Option<usize>
    decreases k,
{
    if k <= 0 {
        None
    } else {
        match first_fit(tracks, candidates, needs_enabled, needs_unity, start, end, k - 1) {
            Some(t) => Some(t),
            None => {
                let t = candidates[k - 1];
                if t < tracks.len() && proxy_fits(tracks[t as int], needs_enabled, needs_unity, start, end) {
                    Some(t)
                } else {
                    None
                }
            },
        }
    }
}

/// Whether the item fits on the track, checked item by item.
fn fits_on(track: &Track, needs_enabled: bool, needs_unity: bool, start: Time, end: Time) -> (r: bool)
    ensures
        r == proxy_fits(*track, needs_enabled, needs_unity, start, end),
{
    if needs_enabled && !track.enabled {
        return false;
    }
    if needs_unity && !track.unity_gain {
        return false;
    }
    let mut i: usize = 0;
    while i < track.items.len()
        invariant
            i <= track.items@.len(),
            forall|m: int| 0 <= m < i ==> !#[trigger] overlaps(track.items@[m], start, end),
        decreases track.items@.len() - i,
    {
        if track.items[i].start < end && track.items[i].end > start {
            proof {
                assert(overlaps(track.items@[i as int], start, end));
            }
            return false;
        }
        i = i + 1;
    }
    true
}

/// Where the item standing for a fold went: onto the first candidate track
/// where it fits, in order by start, or else onto a new track put in place
/// of the first candidate.
pub open spec fn proxy_placed(
    old: Seq<Track>,
    new: Seq<Track>,
    candidates: Seq<usize>,
    needs_enabled: bool,
    needs_unity: bool,
    proxy: Item,
    new_track_id: u128,
    key: (usize, usize),
) -> bool {
    match first_fit(old, candidates, needs_enabled, needs_unity, proxy.start, proxy.end, candidates.len() as int) {
        Some(t) => {
            &&& key == (t, first_item_after(old[t as int].items@, proxy.start) as usize)
            &&& new.len() == old.len()
            &&& forall|u: int| 0 <= u < old.len() && u != t ==> #[trigger] new[u] == old[u]
            &&& new[t as int].id == old[t as int].id
            &&& new[t as int].enabled == old[t as int].enabled
            &&& new[t as int].unity_gain == old[t as int].unity_gain
            &&& new[t as int].items@ == insert_item_sorted(old[t as int].items@, proxy)
        },
        None => {
            let at = candidates[0] as int;
            &&& key == (candidates[0], 0usize)
            &&& new.len() == old.len() + 1
            &&& forall|u: int| 0 <= u < at ==> #[trigger] new[u] == old[u]
            &&& new[at].id == new_track_id
            &&& new[at].enabled
            &&& new[at].unity_gain
            &&& new[at].items@ == seq![proxy]
            &&& forall|u: int| at < u <= old.len() ==> #[trigger] new[u] == old[u - 1]
        },
    }
}

/// Puts the item standing for a fold on the first candidate track where it
/// fits, or on a new track in place of the first candidate; returns its
/// track and item index.
fn place_proxy(
    tracks: &mut Vec<Track>,
    candidates: &Vec<usize>,
    needs_enabled: bool,
    needs_unity: bool,
    proxy: Item,
    new_track_id: u128,
) -> (key: (usize, usize))
    requires
        candidates@.len() > 0,
        forall|j: int| 0 <= j < candidates@.len() ==> #[trigger] candidates@[j] < old(tracks)@.len(),
    ensures
        proxy_placed(old(tracks)@, final(tracks)@, candidates@, needs_enabled, needs_unity, proxy, new_track_id, key),
{
    let mut j: usize = 0;
    while j < candidates.len()
        invariant
            tracks@ == old(tracks)@,
            j <= candidates@.len(),
            forall|m: int| 0 <= m < candidates@.len() ==> #[trigger] candidates@[m] < tracks@.len(),
            first_fit(tracks@, candidates@, needs_enabled, needs_unity, proxy.start, proxy.end, j as int) is None,
        decreases candidates@.len() - j,
    {
        let t = candidates[j];
        if fits_on(&tracks[t], needs_enabled, needs_unity, proxy.start, proxy.end) {
            proof {
                assert(first_fit(tracks@, candidates@, needs_enabled, needs_unity, proxy.start, proxy.end, j + 1) == Some(t));
                assert forall|k: int| j + 1 <= k <= candidates@.len() implies first_fit(
                    tracks@,
                    candidates@,
                    needs_enabled,
                    needs_unity,
                    proxy.start,
                    proxy.end,
                    k,
                ) == Some(t) by {
                    lemma_first_fit_stays(tracks@, candidates@, needs_enabled, needs_unity, proxy.start, proxy.end, j + 1, k);
                }
            }
            let ghost before = tracks@;
            let track = &mut tracks[t];
            let index = insert_sorted(&mut track.items, proxy);
            proof {
                assert forall|u: int| 0 <= u < before.len() && u != t implies #[trigger] tracks@[u] == before[u] by {
                }
            }
            return (t, index);
        }
        j = j + 1;
    }
    let at = candidates[0];
    let mut items: Vec<Item> = Vec::new();
    items.push(proxy);
    tracks.insert(at, Track { id: new_track_id, enabled: true, unity_gain: true, items: items });
    (at, 0)
}

proof fn lemma_first_fit_stays(
    tracks: Seq<Track>,
    candidates: Seq<usize>,
    needs_enabled: bool,
    needs_unity: bool,
    start: Time,
    end: Time,
    j: int,
    k: int,
)
    requires
        0 <= j <= k,
        first_fit(tracks, candidates, needs_enabled, needs_unity, start, end, j) is Some,
    ensures
        first_fit(tracks, candidates, needs_enabled, needs_unity, start, end, k) == first_fit(
            tracks,
            candidates,
            needs_enabled,
            needs_unity,
            start,
            end,
            j,
        ),
    decreases k - j,
{
    if k > j {
        lemma_first_fit_stays(tracks, candidates, needs_enabled, needs_unity, start, end, j, k - 1);
    }
}

// ----- folding -----

/// Whether some key is of `kind`.
pub open spec fn has_kind(selected: Seq<ItemKey>, kind: TrackKind) -> bool {
    exists|i: int| 0 <= i < selected.len() && (#[trigger] selected[i]).kind == kind
}

/// The source tracks are in increasing order, each one below `n` with a key
/// on it, and every track below `n` with a key on it is among them.
proof fn lemma_source_tracks(selected: Seq<ItemKey>, kind: TrackKind, n: int)
    requires
        n >= 0,
    ensures
        forall|j: int| 0 <= j < source_tracks(selected, kind, n).len() ==> {
            &&& #[trigger] source_tracks(selected, kind, n)[j] < n
            &&& is_source(selected, kind, source_tracks(selected, kind, n)[j] as int)
        },
        forall|t: int| 0 <= t < n && is_source(selected, kind, t) ==> source_tracks(selected, kind, n).contains(t as usize),
    decreases n,
{
    if n > 0 {
        lemma_source_tracks(selected, kind, n - 1);
        let prev = source_tracks(selected, kind, n - 1);
        let cur = source_tracks(selected, kind, n);
        assert forall|t: int| 0 <= t < n && is_source(selected, kind, t) implies cur.contains(t as usize) by {
            if t < n - 1 {
                let k = choose|k: int| 0 <= k < prev.len() && prev[k] == t as usize;
                assert(cur[k] == t as usize);
            } else {
                assert(cur[cur.len() - 1] == t as usize);
            }
        }
    }
}

/// With keys that fold, keys of `kind` exist exactly when some track of
/// that kind holds one.
proof fn lemma_sources_exist(project: Project, selected: Seq<ItemKey>, kind: TrackKind)
    requires
        fold_keys_valid(project, selected),
    ensures
        has_kind(selected, kind) <==> source_tracks(selected, kind, project.tracks_of(kind).len() as int).len() > 0,
{
    let n = project.tracks_of(kind).len() as int;
    lemma_source_tracks(selected, kind, n);
    if has_kind(selected, kind) {
        let i = choose|i: int| 0 <= i < selected.len() && (#[trigger] selected[i]).kind == kind;
        assert(foldable_key(project, selected[i]));
        assert(is_source(selected, kind, selected[i].track_index as int));
        assert(source_tracks(selected, kind, n).contains(selected[i].track_index));
    }
    if source_tracks(selected, kind, n).len() > 0 {
        let t = source_tracks(selected, kind, n)[0];
        assert(is_source(selected, kind, t as int));
        let i = choose|i: int| 0 <= i < selected.len() && (#[trigger] selected[i]).kind == kind && selected[i].track_index == t;
    }
}

/// Whether one of the source tracks is enabled.
pub open spec fn any_source_enabled(tracks: Seq<Track>, sources: Seq<usize>) -> bool {
    exists|j: int| 0 <= j < sources.len() && tracks[#[trigger] sources[j] as int].enabled
}

fn some_source_enabled(tracks: &Vec<Track>, sources: &Vec<usize>) -> (r: bool)
    requires
        forall|j: int| 0 <= j < sources@.len() ==> #[trigger] sources@[j] < tracks@.len(),
    ensures
        r == any_source_enabled(tracks@, sources@),
{
    let mut j: usize = 0;
    while j < sources.len()
        invariant
            j <= sources@.len(),
            forall|m: int| 0 <= m < sources@.len() ==> #[trigger] sources@[m] < tracks@.len(),
            forall|m: int| 0 <= m < j ==> !tracks@[#[trigger] sources@[m] as int].enabled,
        decreases sources@.len() - j,
    {
        if tracks[sources[j]].enabled {
            return true;
        }
        j = j + 1;
    }
    false
}

/// The fresh ids a fold gives out: for the sequence and the instance that
/// plays it, for the item and the possible new track of each kind, and one
/// for the nested copy of each track.
pub struct FoldIds {
    pub sequence_id: u128,
    pub instance_id: u128,
    pub video_item_id: u128,
    pub audio_item_id: u128,
    pub video_track_id: u128,
    pub audio_track_id: u128,
    pub nested_video_track_ids: Vec<u128>,
    pub nested_audio_track_ids: Vec<u128>,
}

/// The group id that a project hands out next.
pub open spec fn next_group_of(project: Project) -> u64 {
    choose|g: u64| is_next_group_id(project, g)
}

/// The item of `kind` that plays the folded sequence in place of the folded
/// items: it spans the fold, shares a new group with the other kind's item
/// where both kinds fold, and references the sequence.
pub open spec fn fold_proxy(project: Project, selected: Seq<ItemKey>, ids: FoldIds, kind: TrackKind) -> Item {
    let (origin, end) = fold_span(project, selected);
    let group_id = if has_kind(selected, TrackKind::Video) && has_kind(selected, TrackKind::Audio) {
        Some(next_group_of(project))
    } else {
        None
    };
    let reference = SequenceReference { sequence_id: ids.sequence_id, instance_id: ids.instance_id };
    if kind == TrackKind::Video {
        Item {
            id: ids.video_item_id,
            start: origin,
            end: end,
            group_id: group_id,
            payload: ItemPayload::Video(VideoItemContent::FoldedSequence(reference)),
        }
    } else {
        Item {
            id: ids.audio_item_id,
            start: origin,
            end: end,
            group_id: group_id,
            payload: ItemPayload::Audio(AudioSource::FoldedSequence(reference)),
        }
    }
}

/// The tracks of one kind once the folded items left them.
pub open spec fn tracks_staying(project: Project, selected: Seq<ItemKey>, kind: TrackKind, old: Seq<Track>, new: Seq<Track>) -> bool {
    &&& new.len() == old.len()
    &&& forall|t: int|
        0 <= t < old.len() ==> {
            &&& (#[trigger] new[t]).id == old[t].id
            &&& new[t].enabled == old[t].enabled
            &&& new[t].unity_gain == old[t].unity_gain
            &&& new[t].items@ == staying_items(project, selected, kind, old[t].items@)
        }
}

/// The tracks of one kind after the fold: the folded items gone, and where
/// items of the kind folded, the item that plays the sequence placed, at
/// `key`.
pub open spec fn kind_folded(
    project: Project,
    selected: Seq<ItemKey>,
    ids: FoldIds,
    kind: TrackKind,
    new: Seq<Track>,
    key: Option<(usize, usize)>,
) -> bool {
    let old = project.tracks_of(kind);
    let sources = source_tracks(selected, kind, old.len() as int);
    exists|staying: Seq<Track>|
        #[trigger] tracks_staying(project, selected, kind, old, staying) && match key {
            Some(k) => {
                &&& sources.len() > 0
                &&& proxy_placed(
                    staying,
                    new,
                    sources,
                    any_source_enabled(old, sources),
                    kind == TrackKind::Audio,
                    fold_proxy(project, selected, ids, kind),
                    if kind == TrackKind::Video { ids.video_track_id } else { ids.audio_track_id },
                    k,
                )
            },
            None => sources.len() == 0 && new == staying,
        }
}

/// The folded sequence holds, for each kind, a copy of each source track
/// with the folded items moved to start from zero.
pub open spec fn sequence_folded(project: Project, selected: Seq<ItemKey>, ids: FoldIds, sequence: FoldedSequence) -> bool {
    let origin = fold_span(project, selected).0;
    &&& sequence.id == ids.sequence_id
    &&& nested_tracks_match(
        sequence.video_tracks@,
        project.video_tracks@,
        source_tracks(selected, TrackKind::Video, project.video_tracks@.len() as int),
        ids.nested_video_track_ids@,
        selected,
        TrackKind::Video,
        origin,
    )
    &&& nested_tracks_match(
        sequence.audio_tracks@,
        project.audio_tracks@,
        source_tracks(selected, TrackKind::Audio, project.audio_tracks@.len() as int),
        ids.nested_audio_track_ids@,
        selected,
        TrackKind::Audio,
        origin,
    )
}

/// The keys of the items that play the sequence, video first.
pub open spec fn fold_selection(video: Option<(usize, usize)>, audio: Option<(usize, usize)>) -> Seq<ItemKey> {
    let first = match video {
        Some(k) => seq![ItemKey { kind: TrackKind::Video, track_index: k.0, item_index: k.1 }],
        None => Seq::empty(),
    };
    let second = match audio {
        Some(k) => seq![ItemKey { kind: TrackKind::Audio, track_index: k.0, item_index: k.1 }],
        None => Seq::empty(),
    };
    first + second
}

/// The project after a fold with the given ids, and the selection it
/// reports.
pub open spec fn folded(old: Project, new: Project, selected: Seq<ItemKey>, ids: FoldIds, selection: Seq<ItemKey>) -> bool {
    &&& new.canvas_size == old.canvas_size
    &&& new.fps == old.fps
    &&& new.caption_tracks@ == old.caption_tracks@
    &&& new.folded_sequences@.len() == old.folded_sequences@.len() + 1
    &&& new.folded_sequences@.subrange(0, old.folded_sequences@.len() as int) == old.folded_sequences@
    &&& sequence_folded(old, selected, ids, new.folded_sequences@.last())
    &&& exists|video: Option<(usize, usize)>, audio: Option<(usize, usize)>|
        #[trigger] fold_selection(video, audio) == selection
            && kind_folded(old, selected, ids, TrackKind::Video, new.video_tracks@, video)
            && kind_folded(old, selected, ids, TrackKind::Audio, new.audio_tracks@, audio)
}

/// Folds the selected video and audio items into a new folded sequence,
/// given the fresh ids to use. The items leave their tracks and move into
/// copies of those tracks inside the sequence, shifted to start at zero; in
/// their place one item per kind plays the sequence over the span they
/// covered, on the first of their tracks (by index) where it fits, or on a
/// new track. Where both kinds fold, the two items share a new group.
/// Returns the keys of those items; nothing happens, and the result is
/// `None`, unless at least two keys, each once, name video or audio items
/// that together cover some time.
pub fn fold_items_with_ids(project: &mut Project, selected: &Vec<ItemKey>, ids: &FoldIds) -> (r: Option<Vec<ItemKey>>)
    requires
        ids.nested_video_track_ids@.len() >= old(project).video_tracks@.len(),
        ids.nested_audio_track_ids@.len() >= old(project).audio_tracks@.len(),
    ensures
        r is Some <==> fold_ok(*old(project), selected@),
        r is None ==> *final(project) == *old(project),
        r matches Some(selection) ==> folded(*old(project), *final(project), selected@, *ids, selection@),
{
    let ghost before = *project;
    if !keys_fold(project, selected) {
        return None;
    }
    let (origin, end) = span_of_keys(project, selected);
    let duration = end.saturating_sub(origin);
    if duration == 0 {
        return None;
    }
    let reference = SequenceReference { sequence_id: ids.sequence_id, instance_id: ids.instance_id };
    let video_sources = source_track_indices(selected, TrackKind::Video, project.video_tracks.len());
    let audio_sources = source_track_indices(selected, TrackKind::Audio, project.audio_tracks.len());
    proof {
        lemma_source_tracks(selected@, TrackKind::Video, before.video_tracks@.len() as int);
        lemma_source_tracks(selected@, TrackKind::Audio, before.audio_tracks@.len() as int);
        lemma_sources_exist(before, selected@, TrackKind::Video);
        lemma_sources_exist(before, selected@, TrackKind::Audio);
        assert(before.tracks_of(TrackKind::Video) == before.video_tracks@);
        assert(before.tracks_of(TrackKind::Audio) == before.audio_tracks@);
    }
    let group_id = if video_sources.len() > 0 && audio_sources.len() > 0 {
        let g = next_group_id(project);
        proof {
            assert(is_next_group_id(before, g));
            lemma_next_group_id_unique(before, g, next_group_of(before));
        }
        Some(g)
    } else {
        None
    };
    let video_nested = nested_tracks(
        &project.video_tracks,
        &video_sources,
        &ids.nested_video_track_ids,
        selected,
        TrackKind::Video,
        origin,
    );
    let audio_nested = nested_tracks(
        &project.audio_tracks,
        &audio_sources,
        &ids.nested_audio_track_ids,
        selected,
        TrackKind::Audio,
        origin,
    );
    let video_enabled = some_source_enabled(&project.video_tracks, &video_sources);
    let audio_enabled = some_source_enabled(&project.audio_tracks, &audio_sources);
    let video_ids = moved_ids(project, selected, TrackKind::Video);
    let audio_ids = moved_ids(project, selected, TrackKind::Audio);
    remove_items_with_ids(&mut project.video_tracks, &video_ids);
    remove_items_with_ids(&mut project.audio_tracks, &audio_ids);
    let ghost video_staying = project.video_tracks@;
    let ghost audio_staying = project.audio_tracks@;
    proof {
        assert((|item: Item| !video_ids@.contains(item.id)) =~= (|item: Item| !moved_id(before, selected@, TrackKind::Video, item.id)));
        assert((|item: Item| !audio_ids@.contains(item.id)) =~= (|item: Item| !moved_id(before, selected@, TrackKind::Audio, item.id)));
        assert(tracks_staying(before, selected@, TrackKind::Video, before.video_tracks@, video_staying));
        assert(tracks_staying(before, selected@, TrackKind::Audio, before.audio_tracks@, audio_staying));
    }
    let sequence = FoldedSequence { id: ids.sequence_id, video_tracks: video_nested, audio_tracks: audio_nested };
    project.folded_sequences.push(sequence);
    let mut selection: Vec<ItemKey> = Vec::new();
    let ghost mut video_key: Option<(usize, usize)> = None;
    let ghost mut audio_key: Option<(usize, usize)> = None;
    if video_sources.len() > 0 {
        let proxy = Item {
            id: ids.video_item_id,
            start: origin,
            end: end,
            group_id: group_id,
            payload: ItemPayload::Video(VideoItemContent::FoldedSequence(reference)),
        };
        proof {
            assert(proxy == fold_proxy(before, selected@, *ids, TrackKind::Video));
        }
        let (t, i) = place_proxy(
            &mut project.video_tracks,
            &video_sources,
            video_enabled,
            false,
            proxy,
            ids.video_track_id,
        );
        selection.push(ItemKey { kind: TrackKind::Video, track_index: t, item_index: i });
        proof {
            video_key = Some((t, i));
        }
    }
    if audio_sources.len() > 0 {
        let proxy = Item {
            id: ids.audio_item_id,
            start: origin,
            end: end,
            group_id: group_id,
            payload: ItemPayload::Audio(AudioSource::FoldedSequence(reference)),
        };
        proof {
            assert(proxy == fold_proxy(before, selected@, *ids, TrackKind::Audio));
        }
        let (t, i) = place_proxy(
            &mut project.audio_tracks,
            &audio_sources,
            audio_enabled,
            true,
            proxy,
            ids.audio_track_id,
        );
        selection.push(ItemKey { kind: TrackKind::Audio, track_index: t, item_index: i });
        proof {
            audio_key = Some((t, i));
        }
    }
    proof {
        assert(kind_folded(before, selected@, *ids, TrackKind::Video, project.video_tracks@, video_key));
        assert(kind_folded(before, selected@, *ids, TrackKind::Audio, project.audio_tracks@, audio_key));
        assert(fold_selection(video_key, audio_key) == selection@);
        assert(project.folded_sequences@.subrange(0, before.folded_sequences@.len() as int) == before.folded_sequences@);
    }
    Some(selection)
}

/// Whether an id has the shape of a random version-4 UUID read as a number:
/// its version digit is 4 and its variant bits are `10`.
pub open spec fn random_id_shape(id: u128) -> bool {
    id & 0xF000_C000_0000_0000_0000u128 == 0x4000_8000_0000_0000_0000u128
}

/// Whether every id of a fold has the shape of a random version-4 UUID.
pub open spec fn fold_ids_random(ids: FoldIds) -> bool {
    &&& random_id_shape(ids.sequence_id)
    &&& random_id_shape(ids.instance_id)
    &&& random_id_shape(ids.video_item_id)
    &&& random_id_shape(ids.audio_item_id)
    &&& random_id_shape(ids.video_track_id)
    &&& random_id_shape(ids.audio_track_id)
    &&& forall|i: int| 0 <= i < ids.nested_video_track_ids@.len() ==> random_id_shape(#[trigger] ids.nested_video_track_ids@[i])
    &&& forall|i: int| 0 <= i < ids.nested_audio_track_ids@.len() ==> random_id_shape(#[trigger] ids.nested_audio_track_ids@[i])
}

/// Calls `uuid::Uuid::new_v4` and reads the UUID as a number: a random
/// version-4 UUID, so its version digit is 4 and its variant bits are `10`.
#[verifier::external_body]
fn new_id() -> (r: u128)
    ensures
        r & 0xF000_C000_0000_0000_0000u128 == 0x4000_8000_0000_0000_0000u128,
{
    uuid::Uuid::new_v4().as_u128()
}

/// `n` fresh random ids.
fn new_ids(n: usize) -> (r: Vec<u128>)
    ensures
        r@.len() == n,
        forall|i: int| 0 <= i < n ==> random_id_shape(#[trigger] r@[i]),
{
    let mut r: Vec<u128> = Vec::new();
    while r.len() < n
        invariant
            r@.len() <= n,
            forall|i: int| 0 <= i < r@.len() ==> random_id_shape(#[trigger] r@[i]),
        decreases n - r@.len(),
    {
        r.push(new_id());
    }
    r
}

/// Folds the selected video and audio items into a new folded sequence, as
/// `fold_items_with_ids` does, with fresh random ids: every id it hands out
/// has the shape of a random version-4 UUID.
pub fn fold_items(project: &mut Project, selected: &Vec<ItemKey>) -> (r: Option<Vec<ItemKey>>)
    ensures
        r is Some <==> fold_ok(*old(project), selected@),
        r is None ==> *final(project) == *old(project),
        r matches Some(selection) ==> exists|ids: FoldIds|
            #[trigger] folded(*old(project), *final(project), selected@, ids, selection@) && fold_ids_random(ids),
{
    let ids = FoldIds {
        sequence_id: new_id(),
        instance_id: new_id(),
        video_item_id: new_id(),
        audio_item_id: new_id(),
        video_track_id: new_id(),
        audio_track_id: new_id(),
        nested_video_track_ids: new_ids(project.video_tracks.len()),
        nested_audio_track_ids: new_ids(project.audio_tracks.len()),
    };
    fold_items_with_ids(project, selected, &ids)
}

} // verus!
