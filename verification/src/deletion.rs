//! Deleting addressed items from the root timeline.

use vstd::prelude::*;

use crate::model::{Item, ItemAddress, Project, Track, TrackKind};

verus! {

/// Whether an item of the track with id `track_id` stays: no address of the
/// selection names it.
pub open spec fn item_kept(selection: Seq<ItemAddress>, kind: TrackKind, track_id: u128, item: Item) -> bool {
    !selection.contains(ItemAddress { kind: kind, track_id: track_id, item_id: item.id })
}

/// The items of a track that stay, in their order.
pub open spec fn kept_items(selection: Seq<ItemAddress>, kind: TrackKind, track: Track) -> Seq<Item> {
    track.items@.filter(|item: Item| item_kept(selection, kind, track.id, item))
}

/// Whether the selection names some item of the tracks.
pub open spec fn tracks_lose_items(tracks: Seq<Track>, selection: Seq<ItemAddress>, kind: TrackKind) -> bool {
    exists|t: int, i: int|
        0 <= t < tracks.len() && 0 <= i < tracks[t].items@.len() && !item_kept(
            selection,
            kind,
            tracks[t].id,
            #[trigger] tracks[t].items@[i],
        )
}

/// Whether the selection names an item of a track of `kind`.
pub open spec fn kind_loses_items(project: Project, selection: Seq<ItemAddress>, kind: TrackKind) -> bool {
    tracks_lose_items(project.tracks_of(kind), selection, kind)
}

/// Removes from a track the items that the selection names.
fn kept_track_items(track: &Track, kind: TrackKind, selection: &Vec<ItemAddress>) -> (r: (Vec<Item>, bool))
    ensures
        r.0@ == kept_items(selection@, kind, *track),
        r.1 == exists|i: int|
            0 <= i < track.items@.len() && !item_kept(selection@, kind, track.id, #[trigger] track.items@[i]),
{
    let mut kept: Vec<Item> = Vec::new();
    let mut removed = false;
    let mut i: usize = 0;
    let ghost pred = |item: Item| item_kept(selection@, kind, track.id, item);
    while i < track.items.len()
        invariant
            i <= track.items@.len(),
            pred == (|item: Item| item_kept(selection@, kind, track.id, item)),
            kept@ == track.items@.subrange(0, i as int).filter(pred),
            removed == exists|m: int| 0 <= m < i && !item_kept(selection@, kind, track.id, #[trigger] track.items@[m]),
        decreases track.items@.len() - i,
    {
        let item = track.items[i];
        let mut named = false;
        let mut k: usize = 0;
        while k < selection.len()
            invariant
                k <= selection@.len(),
                named == exists|m: int|
                    0 <= m < k && #[trigger] selection@[m] == (ItemAddress { kind: kind, track_id: track.id, item_id: item.id }),
            decreases selection@.len() - k,
        {
            if selection[k] == (ItemAddress { kind: kind, track_id: track.id, item_id: item.id }) {
                named = true;
            }
            k = k + 1;
        }
        proof {
            reveal(Seq::filter);
            assert(track.items@.subrange(0, i + 1).drop_last() == track.items@.subrange(0, i as int));
            assert(track.items@.subrange(0, i + 1).last() == item);
            assert(named == !item_kept(selection@, kind, track.id, item));
        }
        if named {
            removed = true;
        } else {
            kept.push(item);
        }
        i = i + 1;
    }
    proof {
        assert(track.items@.subrange(0, track.items@.len() as int) == track.items@);
    }
    (kept, removed)
}

/// Removes from every track of one kind the items that the selection names;
/// tells whether any went.
fn delete_from_tracks(tracks: &mut Vec<Track>, kind: TrackKind, selection: &Vec<ItemAddress>) -> (changed: bool)
    ensures
        final(tracks)@.len() == old(tracks)@.len(),
        forall|t: int|
            0 <= t < old(tracks)@.len() ==> {
                &&& (#[trigger] final(tracks)@[t]).id == old(tracks)@[t].id
                &&& final(tracks)@[t].enabled == old(tracks)@[t].enabled
                &&& final(tracks)@[t].unity_gain == old(tracks)@[t].unity_gain
                &&& final(tracks)@[t].items@ == kept_items(selection@, kind, old(tracks)@[t])
            },
        changed == tracks_lose_items(old(tracks)@, selection@, kind),
{
    let ghost initial = tracks@;
    let mut changed = false;
    let mut t: usize = 0;
    while t < tracks.len()
        invariant
            tracks@.len() == initial.len(),
            t <= tracks@.len(),
            forall|j: int| t <= j < initial.len() ==> #[trigger] tracks@[j] == initial[j],
            forall|j: int|
                0 <= j < t ==> {
                    &&& (#[trigger] tracks@[j]).id == initial[j].id
                    &&& tracks@[j].enabled == initial[j].enabled
                    &&& tracks@[j].unity_gain == initial[j].unity_gain
                    &&& tracks@[j].items@ == kept_items(selection@, kind, initial[j])
                },
            changed == exists|j: int, i: int|
                0 <= j < t && 0 <= i < initial[j].items@.len() && !item_kept(
                    selection@,
                    kind,
                    initial[j].id,
                    #[trigger] initial[j].items@[i],
                ),
        decreases tracks@.len() - t,
    {
        let (kept, removed) = kept_track_items(&tracks[t], kind, selection);
        let track = Track { id: tracks[t].id, enabled: tracks[t].enabled, unity_gain: tracks[t].unity_gain, items: kept };
        tracks.set(t, track);
        proof {
            let tt = t as int;
            if removed {
                let i = choose|i: int|
                    0 <= i < initial[tt].items@.len() && !item_kept(selection@, kind, initial[tt].id, #[trigger] initial[tt].items@[i]);
                assert(0 <= tt < t + 1 && 0 <= i < initial[tt].items@.len() && !item_kept(
                    selection@,
                    kind,
                    initial[tt].id,
                    initial[tt].items@[i],
                ));
            }
            if exists|j: int, i: int|
                0 <= j < t + 1 && 0 <= i < initial[j].items@.len() && !item_kept(
                    selection@,
                    kind,
                    initial[j].id,
                    #[trigger] initial[j].items@[i],
                ) {
                let (j, i) = choose|j: int, i: int|
                    0 <= j < t + 1 && 0 <= i < initial[j].items@.len() && !item_kept(
                        selection@,
                        kind,
                        initial[j].id,
                        #[trigger] initial[j].items@[i],
                    );
                if j == tt {
                    assert(removed);
                }
            }
        }
        changed = changed || removed;
        t = t + 1;
    }
    changed
}

/// Deletes the items that the selection names. Tells, for captions, video
/// and audio, whether items of that kind went; `None` when none did.
pub fn delete_item_addresses(project: &mut Project, selection: &Vec<ItemAddress>) -> (r: Option<(bool, bool, bool)>)
    ensures
        final(project).canvas_size == old(project).canvas_size,
        final(project).fps == old(project).fps,
        final(project).folded_sequences@ == old(project).folded_sequences@,
        forall|kind: TrackKind| #[trigger] final(project).tracks_of(kind).len() == old(project).tracks_of(kind).len(),
        forall|kind: TrackKind, t: int|
            0 <= t < old(project).tracks_of(kind).len() ==> {
                &&& (#[trigger] final(project).tracks_of(kind)[t]).id == old(project).tracks_of(kind)[t].id
                &&& final(project).tracks_of(kind)[t].enabled == old(project).tracks_of(kind)[t].enabled
                &&& final(project).tracks_of(kind)[t].unity_gain == old(project).tracks_of(kind)[t].unity_gain
                &&& final(project).tracks_of(kind)[t].items@ == kept_items(selection@, kind, old(project).tracks_of(kind)[t])
            },
        ({
            let captions = kind_loses_items(*old(project), selection@, TrackKind::Caption);
            let video = kind_loses_items(*old(project), selection@, TrackKind::Video);
            let audio = kind_loses_items(*old(project), selection@, TrackKind::Audio);
            r == if captions || video || audio {
                Some((captions, video, audio))
            } else {
                None::<(bool, bool, bool)>
            }
        }),
{
    let captions = delete_from_tracks(&mut project.caption_tracks, TrackKind::Caption, selection);
    let video = delete_from_tracks(&mut project.video_tracks, TrackKind::Video, selection);
    let audio = delete_from_tracks(&mut project.audio_tracks, TrackKind::Audio, selection);
    if captions || video || audio {
        Some((captions, video, audio))
    } else {
        None
    }
}

} // verus!
