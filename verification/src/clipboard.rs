//! Copying items to the clipboard and laying pasted items out on tracks.

use vstd::prelude::*;

use crate::collections::{GroupMap, group_map_contents};
use crate::model::{Item, ItemAddress, ItemKey, Project, Time, find_track, find_track_from};
use crate::tracks::TrackAddress;

verus! {

/// Gives a copied group id its new id in the paste: the id already chosen
/// for it, or else the next free id, which is then taken.
pub fn remap_item_group_id(next_group_id: &mut u64, group_map: &mut GroupMap, group_id: Option<u64>) -> (r: Option<u64>)
    ensures
        group_id is None ==> r is None && *final(next_group_id) == *old(next_group_id) && group_map_contents(*final(group_map))
            == group_map_contents(*old(group_map)),
        group_id matches Some(g) ==> if group_map_contents(*old(group_map)).contains_key(g) {
            &&& r == Some(group_map_contents(*old(group_map))[g])
            &&& *final(next_group_id) == *old(next_group_id)
            &&& group_map_contents(*final(group_map)) == group_map_contents(*old(group_map))
        } else {
            &&& r == Some(*old(next_group_id))
            &&& *final(next_group_id) == old(next_group_id).saturating_add(1)
            &&& group_map_contents(*final(group_map)) == group_map_contents(*old(group_map)).insert(g, *old(next_group_id))
        },
{
    match group_id {
        None => None,
        Some(g) => match group_map.get(g) {
            Some(mapped) => Some(mapped),
            None => {
                let id = *next_group_id;
                *next_group_id = next_group_id.saturating_add(1);
                group_map.insert(g, id);
                Some(id)
            },
        },
    }
}

/// Where a pasted item lands relative to the lowest track it uses.
#[derive(Clone, Copy, Debug, PartialEq, Eq, Structural)]
pub struct TrackFootprintItem {
    pub track_offset: usize,
    pub start: Time,
    pub end: Time,
}

/// The smallest track index among the first `k` pasted items.
pub open spec fn lowest_track(items: Seq<(usize, Time, Time, Item)>, k: int) -> usize
    decreases k,
{
    if k <= 0 {
        usize::MAX
    } else {
        let prev = lowest_track(items, k - 1);
        if items[k - 1].0 < prev { items[k - 1].0 } else { prev }
    }
}

proof fn lemma_lowest_track(items: Seq<(usize, Time, Time, Item)>, k: int)
    requires
        0 <= k <= items.len(),
    ensures
        forall|m: int| 0 <= m < k ==> lowest_track(items, k) <= #[trigger] items[m].0,
        k > 0 ==> exists|m: int| 0 <= m < k && lowest_track(items, k) == #[trigger] items[m].0,
    decreases k,
{
    if k > 0 {
        lemma_lowest_track(items, k - 1);
        if items[k - 1].0 < lowest_track(items, k - 1) {
            assert(lowest_track(items, k) == items[k - 1].0);
        } else if k == 1 {
            assert(lowest_track(items, k) == items[0].0);
        } else {
            let m = choose|m: int| 0 <= m < k - 1 && lowest_track(items, k - 1) == #[trigger] items[m].0;
            assert(lowest_track(items, k) == items[m].0);
        }
    }
}

/// The lowest track of the pasted items (zero when there are none) and where
/// each item lands relative to it.
pub fn paste_footprint(items: &Vec<(usize, Time, Time, Item)>) -> (r: (usize, Vec<TrackFootprintItem>))
    ensures
        r.0 == if items@.len() == 0 { 0 } else { lowest_track(items@, items@.len() as int) },
        r.1@.len() == items@.len(),
        forall|m: int|
            0 <= m < items@.len() ==> #[trigger] r.1@[m] == (TrackFootprintItem {
                track_offset: (items@[m].0 - r.0) as usize,
                start: items@[m].1,
                end: items@[m].2,
            }),
{
    let mut base: usize = usize::MAX;
    let mut i: usize = 0;
    while i < items.len()
        invariant
            i <= items@.len(),
            base == lowest_track(items@, i as int),
        decreases items@.len() - i,
    {
        if items[i].0 < base {
            base = items[i].0;
        }
        i = i + 1;
    }
    if items.len() == 0 {
        base = 0;
    }
    proof {
        lemma_lowest_track(items@, items@.len() as int);
    }
    let mut footprint: Vec<TrackFootprintItem> = Vec::new();
    let mut j: usize = 0;
    while j < items.len()
        invariant
            j <= items@.len(),
            base == if items@.len() == 0 { 0 } else { lowest_track(items@, items@.len() as int) },
            forall|m: int| 0 <= m < items@.len() ==> base <= #[trigger] items@[m].0,
            footprint@.len() == j,
            forall|m: int|
                0 <= m < j ==> #[trigger] footprint@[m] == (TrackFootprintItem {
                    track_offset: (items@[m].0 - base) as usize,
                    start: items@[m].1,
                    end: items@[m].2,
                }),
        decreases items@.len() - j,
    {
        let (track, start, end, _) = items[j];
        footprint.push(TrackFootprintItem { track_offset: track - base, start: start, end: end });
        j = j + 1;
    }
    (base, footprint)
}

/// A default track: no id, enabled, holding nothing.
pub open spec fn is_default_track(track: crate::model::Track) -> bool {
    track.id == 0 && track.enabled && track.items@.len() == 0
}

/// Adds default tracks until there are at least `count`.
pub fn ensure_tracks(tracks: &mut Vec<crate::model::Track>, count: usize)
    ensures
        final(tracks)@.len() == if old(tracks)@.len() < count { count as int } else { old(tracks)@.len() as int },
        forall|t: int| 0 <= t < old(tracks)@.len() ==> #[trigger] final(tracks)@[t] == old(tracks)@[t],
        forall|t: int| old(tracks)@.len() <= t < final(tracks)@.len() ==> is_default_track(#[trigger] final(tracks)@[t]),
{
    let ghost start = tracks@;
    while tracks.len() < count
        invariant
            start.len() <= tracks@.len() <= if start.len() < count { count as int } else { start.len() as int },
            forall|t: int| 0 <= t < start.len() ==> #[trigger] tracks@[t] == start[t],
            forall|t: int| start.len() <= t < tracks@.len() ==> is_default_track(#[trigger] tracks@[t]),
        decreases count - tracks@.len(),
    {
        tracks.push(crate::model::Track { id: 0, enabled: true, unity_gain: true, items: Vec::new() });
    }
}

/// Adds a moved item to the selection, first moving down the selected items
/// of its track that sit at or after its index.
pub fn push_moved_selection(selection: &mut Vec<ItemKey>, key: ItemKey)
    requires
        forall|m: int|
            0 <= m < old(selection)@.len() ==> #[trigger] old(selection)@[m].item_index < usize::MAX,
    ensures
        final(selection)@.len() == old(selection)@.len() + 1,
        final(selection)@.last() == key,
        forall|m: int|
            0 <= m < old(selection)@.len() ==> #[trigger] final(selection)@[m] == {
                let s = old(selection)@[m];
                if s.kind == key.kind && s.track_index == key.track_index && s.item_index >= key.item_index {
                    ItemKey { item_index: (s.item_index + 1) as usize, ..s }
                } else {
                    s
                }
            },
{
    let ghost start = selection@;
    let mut i: usize = 0;
    while i < selection.len()
        invariant
            i <= selection@.len(),
            selection@.len() == start.len(),
            forall|m: int| 0 <= m < start.len() ==> #[trigger] start[m].item_index < usize::MAX,
            forall|m: int| i <= m < start.len() ==> #[trigger] selection@[m] == start[m],
            forall|m: int|
                0 <= m < i ==> #[trigger] selection@[m] == {
                    let s = start[m];
                    if s.kind == key.kind && s.track_index == key.track_index && s.item_index >= key.item_index {
                        ItemKey { item_index: (s.item_index + 1) as usize, ..s }
                    } else {
                        s
                    }
                },
        decreases selection@.len() - i,
    {
        let selected = selection[i];
        if selected.kind == key.kind && selected.track_index == key.track_index && selected.item_index >= key.item_index {
            selection.set(i, ItemKey { item_index: selected.item_index + 1, ..selected });
        }
        i = i + 1;
    }
    selection.push(key);
}

/// The index of a track among the tracks of its kind.
pub fn scoped_track_index(project: &Project, track: &TrackAddress) -> (r: Option<usize>)
    ensures
        r matches Some(t) ==> find_track_from(project.tracks_of(track.kind), track.track_id, 0) == Some(t as int),
        r is None ==> find_track_from(project.tracks_of(track.kind), track.track_id, 0) is None,
{
    find_track(project.tracks(track.kind), track.track_id)
}

/// An item on the clipboard: its track, its offset from the earliest copied
/// item, its duration and the item itself.
#[derive(Clone, Copy, Debug, PartialEq, Eq, Structural)]
pub struct CopiedItem {
    pub track_index: usize,
    pub start_offset: Time,
    pub duration: Time,
    pub item: Item,
}

/// Copied items, ready to paste.
#[derive(Clone, Debug)]
pub struct TimelineClipboard {
    pub items: Vec<CopiedItem>,
}

/// The earliest start among the first `k` items that the addresses name.
pub open spec fn earliest_start(project: Project, addresses: Seq<ItemAddress>, k: int) -> Time
    decreases k,
{
    if k <= 0 {
        u64::MAX
    } else {
        let prev = earliest_start(project, addresses, k - 1);
        let start = project.item_at_address(addresses[k - 1]).unwrap().start;
        if start < prev { start } else { prev }
    }
}

proof fn lemma_earliest_start(project: Project, addresses: Seq<ItemAddress>, k: int)
    requires
        0 <= k <= addresses.len(),
    ensures
        forall|m: int| 0 <= m < k ==> earliest_start(project, addresses, k) <= (#[trigger] project.item_at_address(addresses[m])).unwrap().start,
    decreases k,
{
    if k > 0 {
        lemma_earliest_start(project, addresses, k - 1);
    }
}

/// What the clipboard holds for the item that an address names.
pub open spec fn copied_item(project: Project, address: ItemAddress, origin: Time) -> CopiedItem {
    let item = project.item_at_address(address).unwrap();
    CopiedItem {
        track_index: project.key_of(address).unwrap().track_index,
        start_offset: (item.start - origin) as Time,
        duration: item.end.saturating_sub(item.start),
        item: item,
    }
}

/// Copies the selected items, with their places relative to the earliest of
/// them; nothing is copied when the selection is empty or names an item the
/// project does not hold.
pub fn copy_items(project: &Project, selected_items: &Vec<ItemAddress>) -> (r: Option<TimelineClipboard>)
    ensures
        r is None <==> (selected_items@.len() == 0 || exists|m: int|
            0 <= m < selected_items@.len() && #[trigger] project.item_at_address(selected_items@[m]) is None),
        r matches Some(clipboard) ==> {
            let origin = earliest_start(*project, selected_items@, selected_items@.len() as int);
            &&& clipboard.items@.len() == selected_items@.len()
            &&& forall|m: int|
                0 <= m < selected_items@.len() ==> #[trigger] clipboard.items@[m] == copied_item(
                    *project,
                    selected_items@[m],
                    origin,
                )
        },
{
    if selected_items.len() == 0 {
        return None;
    }
    let mut origin: Time = u64::MAX;
    let mut i: usize = 0;
    while i < selected_items.len()
        invariant
            i <= selected_items@.len(),
            forall|m: int| 0 <= m < i ==> #[trigger] project.item_at_address(selected_items@[m]) is Some,
            origin == earliest_start(*project, selected_items@, i as int),
        decreases selected_items@.len() - i,
    {
        match project.item(&selected_items[i]) {
            Some(item) => {
                if item.start < origin {
                    origin = item.start;
                }
            },
            None => {
                return None;
            },
        }
        i = i + 1;
    }
    proof {
        lemma_earliest_start(*project, selected_items@, selected_items@.len() as int);
    }
    let mut items: Vec<CopiedItem> = Vec::new();
    let mut j: usize = 0;
    while j < selected_items.len()
        invariant
            j <= selected_items@.len(),
            forall|m: int| 0 <= m < selected_items@.len() ==> #[trigger] project.item_at_address(selected_items@[m]) is Some,
            forall|m: int| 0 <= m < selected_items@.len() ==> origin <= (#[trigger] project.item_at_address(selected_items@[m])).unwrap().start,
            origin == earliest_start(*project, selected_items@, selected_items@.len() as int),
            items@.len() == j,
            forall|m: int| 0 <= m < j ==> #[trigger] items@[m] == copied_item(*project, selected_items@[m], origin),
        decreases selected_items@.len() - j,
    {
        let address = selected_items[j];
        let ghost found = project.item_at_address(address);
        let item = project.item(&address).unwrap();
        let key = project.item_key(&address).unwrap();
        proof {
            assert(project.item_at_address(selected_items@[j as int]) is Some);
        }
        items.push(CopiedItem {
            track_index: key.track_index,
            start_offset: item.start - origin,
            duration: item.end.saturating_sub(item.start),
            item: item,
        });
        j = j + 1;
    }
    Some(TimelineClipboard { items })
}

} // verus!
