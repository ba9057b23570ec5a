//! Looking up tracks and folded-sequence references.

use vstd::prelude::*;

use crate::model::{
    AudioSource, Item, ItemAddress, ItemKey, ItemPayload, Project, SequenceReference, Time, Track, TrackKey, TrackKind,
    VideoItemContent, find_track, find_track_from, lemma_find_track_from, payload_fits,
};

verus! {

/// Names a track of the root timeline by its kind and id.
#[derive(Clone, Copy, Debug, PartialEq, Eq, Structural)]
pub struct TrackAddress {
    pub kind: TrackKind,
    pub track_id: u128,
}

impl Project {
    /// The track that an address names, if the project holds it.
    pub open spec fn track_at_address(self, address: TrackAddress) -> Option<Track> {
        let tracks = self.tracks_of(address.kind);
        match find_track_from(tracks, address.track_id, 0) {
            Some(t) => Some(tracks[t]),
            None => None,
        }
    }

    /// Returns the track that an address names.
    pub fn track(&self, address: &TrackAddress) -> (r: Option<&Track>)
        ensures
            r matches Some(track) ==> self.track_at_address(*address) == Some(*track),
            r is None ==> self.track_at_address(*address) is None,
    {
        let tracks = self.tracks(address.kind);
        match find_track(tracks, address.track_id) {
            Some(t) => {
                proof {
                    lemma_find_track_from(tracks@, address.track_id, 0);
                }
                Some(&tracks[t])
            },
            None => None,
        }
    }
}

/// Whether an item overlaps the half-open range `[start, end)`.
pub open spec fn overlaps(item: Item, start: Time, end: Time) -> bool {
    item.start < end && item.end > start
}

/// The kind of track an item address lives on.
pub fn track_kind(address: &ItemAddress) -> (r: TrackKind)
    ensures
        r == address.kind,
{
    match address.kind {
        TrackKind::Caption => TrackKind::Caption,
        TrackKind::Video => TrackKind::Video,
        TrackKind::Audio => TrackKind::Audio,
    }
}

/// Whether the range `[start, end)` would collide on the track: some item of
/// it overlaps the range, or the track does not exist.
pub fn track_collides(project: &Project, track: &TrackAddress, start: Time, end: Time) -> (r: bool)
    ensures
        r == (match project.track_at_address(*track) {
            Some(t) => exists|i: int| 0 <= i < t.items@.len() && #[trigger] overlaps(t.items@[i], start, end),
            None => true,
        }),
{
    match project.track(track) {
        Some(t) => {
            let mut i: usize = 0;
            while i < t.items.len()
                invariant
                    i <= t.items@.len(),
                    project.track_at_address(*track) == Some(*t),
                    forall|k: int| 0 <= k < i ==> !#[trigger] overlaps(t.items@[k], start, end),
                decreases t.items@.len() - i,
            {
                if t.items[i].start < end && t.items[i].end > start {
                    proof {
                        assert(overlaps(t.items@[i as int], start, end));
                        assert(overlaps(project.track_at_address(*track).unwrap().items@[i as int], start, end));
                    }
                    return true;
                }
                i = i + 1;
            }
            proof {
                let tt = project.track_at_address(*track).unwrap();
                assert(tt.items@ == t.items@);
                assert(!(exists|i: int| 0 <= i < tt.items@.len() && #[trigger] overlaps(tt.items@[i], start, end)));
            }
            false
        },
        None => true,
    }
}

/// The number of items on the first `k` of the given tracks, counting none
/// for a track the project does not hold.
pub open spec fn clip_count(project: Project, tracks: Seq<TrackAddress>, k: int) -> int
    decreases k,
{
    if k <= 0 {
        0
    } else {
        clip_count(project, tracks, k - 1) + match project.track_at_address(tracks[k - 1]) {
            Some(t) => t.items@.len() as int,
            None => 0,
        }
    }
}

proof fn lemma_clip_count_monotonic(project: Project, tracks: Seq<TrackAddress>, j: int, k: int)
    requires
        0 <= j <= k,
    ensures
        clip_count(project, tracks, j) <= clip_count(project, tracks, k),
    decreases k - j,
{
    if j < k {
        lemma_clip_count_monotonic(project, tracks, j, k - 1);
    }
}

/// The number of items on the selected tracks.
pub fn selected_track_clip_count(project: &Project, selected_tracks: &Vec<TrackAddress>) -> (r: usize)
    requires
        clip_count(*project, selected_tracks@, selected_tracks@.len() as int) <= usize::MAX,
    ensures
        r == clip_count(*project, selected_tracks@, selected_tracks@.len() as int),
{
    let mut count: usize = 0;
    let mut k: usize = 0;
    while k < selected_tracks.len()
        invariant
            k <= selected_tracks@.len(),
            count == clip_count(*project, selected_tracks@, k as int),
            clip_count(*project, selected_tracks@, selected_tracks@.len() as int) <= usize::MAX,
        decreases selected_tracks@.len() - k,
    {
        proof {
            lemma_clip_count_monotonic(*project, selected_tracks@, k + 1, selected_tracks@.len() as int);
        }
        let n = match project.track(&selected_tracks[k]) {
            Some(t) => t.items.len(),
            None => 0,
        };
        count = count + n;
        k = k + 1;
    }
    count
}

/// The folded sequence that an item plays, if it is a folder.
pub open spec fn payload_reference(payload: ItemPayload) -> Option<SequenceReference> {
    match payload {
        ItemPayload::Video(VideoItemContent::FoldedSequence(reference)) => Some(reference),
        ItemPayload::Audio(AudioSource::FoldedSequence(reference)) => Some(reference),
        _ => None,
    }
}

/// The folded sequence that an item on a track of `kind` plays: a video item
/// on a video track or an audio item on an audio track that plays one.
pub open spec fn kind_reference(kind: TrackKind, payload: ItemPayload) -> Option<SequenceReference> {
    match (kind, payload) {
        (TrackKind::Video, ItemPayload::Video(VideoItemContent::FoldedSequence(reference))) => Some(reference),
        (TrackKind::Audio, ItemPayload::Audio(AudioSource::FoldedSequence(reference))) => Some(reference),
        _ => None,
    }
}

/// In a project whose items all hold payloads of the kind of their track,
/// the folded sequence of the item at a key is decided by its payload alone.
pub proof fn lemma_fitting_payload_reference(project: Project, key: ItemKey)
    requires
        project.payloads_fit(),
        project.item_at(key) is Some,
    ensures
        kind_reference(key.kind, project.item_at(key).unwrap().payload) == payload_reference(
            project.item_at(key).unwrap().payload,
        ),
{
    let tracks = project.tracks_of(key.kind);
    assert(payload_fits(key.kind, tracks[key.track_index as int].items@[key.item_index as int].payload));
}

fn item_reference(kind: TrackKind, item: &Item) -> (r: Option<SequenceReference>)
    ensures
        r == kind_reference(kind, item.payload),
{
    match (kind, item.payload) {
        (TrackKind::Video, ItemPayload::Video(VideoItemContent::FoldedSequence(reference))) => Some(reference),
        (TrackKind::Audio, ItemPayload::Audio(AudioSource::FoldedSequence(reference))) => Some(reference),
        _ => None,
    }
}

/// The folded sequence that the item at a key plays, if it is a folder; a
/// caption is never one.
pub fn reference(project: &Project, key: ItemKey) -> (r: Option<SequenceReference>)
    ensures
        r == (match project.item_at(key) {
            Some(item) => kind_reference(key.kind, item.payload),
            None => None,
        }),
{
    match project.item_by_key(key) {
        Some(item) => item_reference(key.kind, &item),
        None => None,
    }
}

/// The folded sequence that the item at an address plays, if it is a folder.
pub fn folder_reference(project: &Project, address: &ItemAddress) -> (r: Option<SequenceReference>)
    ensures
        r == (match project.item_at_address(*address) {
            Some(item) => kind_reference(address.kind, item.payload),
            None => None,
        }),
{
    match project.item(address) {
        Some(item) => item_reference(address.kind, &item),
        None => None,
    }
}

/// Whether the item at an address is a folder.
pub fn is_folder(project: &Project, address: &ItemAddress) -> (r: bool)
    ensures
        r == (match project.item_at_address(*address) {
            Some(item) => kind_reference(address.kind, item.payload) is Some,
            None => false,
        }),
{
    folder_reference(project, address).is_some()
}

/// A row of the timeline: the track it shows, its root key and its nesting
/// depth.
#[derive(Clone, Copy, Debug, PartialEq, Eq, Structural)]
pub struct TrackRow {
    pub address: TrackAddress,
    pub root_key: Option<TrackKey>,
    pub depth: usize,
}

/// The row of a root track.
pub open spec fn root_row(kind: TrackKind, tracks: Seq<Track>, track_index: int) -> TrackRow {
    TrackRow {
        address: TrackAddress { kind: kind, track_id: tracks[track_index].id },
        root_key: Some(TrackKey { kind: kind, track_index: track_index as usize }),
        depth: 0,
    }
}

/// The rows of the tracks of one kind, last track first.
pub open spec fn reversed_rows(kind: TrackKind, tracks: Seq<Track>) -> Seq<TrackRow> {
    Seq::new(tracks.len(), |j: int| root_row(kind, tracks, tracks.len() - 1 - j))
}

/// The rows of the tracks of one kind, first track first.
pub open spec fn forward_rows(kind: TrackKind, tracks: Seq<Track>) -> Seq<TrackRow> {
    Seq::new(tracks.len(), |j: int| root_row(kind, tracks, j))
}

/// The timeline rows from top to bottom: caption tracks and video tracks,
/// each from the last to the first, then audio tracks from the first.
pub open spec fn timeline_rows(project: Project) -> Seq<TrackRow> {
    reversed_rows(TrackKind::Caption, project.caption_tracks@) + reversed_rows(TrackKind::Video, project.video_tracks@)
        + forward_rows(TrackKind::Audio, project.audio_tracks@)
}

fn push_rows(rows: &mut Vec<TrackRow>, kind: TrackKind, tracks: &Vec<Track>, reversed: bool)
    ensures
        final(rows)@ == old(rows)@ + if reversed { reversed_rows(kind, tracks@) } else { forward_rows(kind, tracks@) },
{
    let ghost start = rows@;
    let ghost added = if reversed { reversed_rows(kind, tracks@) } else { forward_rows(kind, tracks@) };
    let n = tracks.len();
    let mut j: usize = 0;
    while j < n
        invariant
            n == tracks@.len(),
            j <= n,
            added == if reversed { reversed_rows(kind, tracks@) } else { forward_rows(kind, tracks@) },
            rows@ == start + added.subrange(0, j as int),
        decreases n - j,
    {
        let track_index = if reversed { n - 1 - j } else { j };
        rows.push(TrackRow {
            address: TrackAddress { kind: kind, track_id: tracks[track_index].id },
            root_key: Some(TrackKey { kind: kind, track_index: track_index }),
            depth: 0,
        });
        proof {
            assert(added.subrange(0, j + 1) == added.subrange(0, j as int).push(added[j as int]));
        }
        j = j + 1;
    }
    proof {
        assert(added.subrange(0, n as int) == added);
    }
}

/// Lists the timeline rows from top to bottom.
pub fn rows(project: &Project) -> (r: Vec<TrackRow>)
    ensures
        r@ == timeline_rows(*project),
{
    let mut rows: Vec<TrackRow> = Vec::new();
    push_rows(&mut rows, TrackKind::Caption, &project.caption_tracks, true);
    push_rows(&mut rows, TrackKind::Video, &project.video_tracks, true);
    push_rows(&mut rows, TrackKind::Audio, &project.audio_tracks, false);
    proof {
        assert(Seq::<TrackRow>::empty() + reversed_rows(TrackKind::Caption, project.caption_tracks@) == reversed_rows(
            TrackKind::Caption,
            project.caption_tracks@,
        ));
    }
    rows
}

/// The first row that shows the addressed track.
pub fn row_for_address(project: &Project, address: &TrackAddress) -> (r: Option<usize>)
    ensures
        r matches Some(row) ==> row < timeline_rows(*project).len() && timeline_rows(*project)[row as int].address
            == *address && forall|m: int| 0 <= m < row ==> (#[trigger] timeline_rows(*project)[m]).address != *address,
        r is None ==> forall|m: int|
            0 <= m < timeline_rows(*project).len() ==> (#[trigger] timeline_rows(*project)[m]).address != *address,
{
    let all = rows(project);
    let mut i: usize = 0;
    while i < all.len()
        invariant
            all@ == timeline_rows(*project),
            i <= all@.len(),
            forall|m: int| 0 <= m < i ==> (#[trigger] all@[m]).address != *address,
        decreases all@.len() - i,
    {
        if all[i].address == *address {
            return Some(i);
        }
        i = i + 1;
    }
    None
}

} // verus!
