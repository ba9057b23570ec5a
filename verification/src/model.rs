//! The timeline data model: times, track kinds, keys, items, tracks and the
//! project that holds them.

use vstd::prelude::*;

verus! {

/// A position or a length on the timeline, counted in nanoseconds.
pub type Time = u64;

/// A position on the timeline that may lie before zero, as a drag can put
/// an item there: signed nanoseconds.
pub type SignedTime = i128;

/// An exact signed time held within the range of signed times.
pub open spec fn clamp_signed(x: int) -> SignedTime {
    if x < i128::MIN {
        i128::MIN
    } else if x > i128::MAX {
        i128::MAX
    } else {
        x as i128
    }
}

/// Adds two signed times, holding the sum within the range of signed times.
pub fn add_signed(a: SignedTime, b: SignedTime) -> (r: SignedTime)
    ensures
        r == clamp_signed(a + b),
{
    if b > 0 && a > i128::MAX - b {
        i128::MAX
    } else if b < 0 && a < i128::MIN - b {
        i128::MIN
    } else {
        a + b
    }
}

/// Subtracts one signed time from another, holding the difference within
/// the range of signed times.
pub fn sub_signed(a: SignedTime, b: SignedTime) -> (r: SignedTime)
    ensures
        r == clamp_signed(a - b),
{
    if b < 0 && a > i128::MAX + b {
        i128::MAX
    } else if b > 0 && a < i128::MIN + b {
        i128::MIN
    } else {
        a - b
    }
}

/// The three kinds of timeline tracks.
#[derive(Clone, Copy, Debug, PartialEq, Eq, Structural)]
pub enum TrackKind {
    Caption,
    Video,
    Audio,
}

/// Names a track by its kind and its index among the tracks of that kind.
#[derive(Clone, Copy, Debug, PartialEq, Eq, Structural)]
pub struct TrackKey {
    pub kind: TrackKind,
    pub track_index: usize,
}

/// Names an item by its kind, its track index and its index within the track.
#[derive(Clone, Copy, Debug, PartialEq, Eq, Structural)]
pub struct ItemKey {
    pub kind: TrackKind,
    pub track_index: usize,
    pub item_index: usize,
}

/// Names an item of the root timeline by its kind, the id of its track and
/// its own id: it stays valid while items move within a track.
#[derive(Clone, Copy, Debug, PartialEq, Eq, Structural)]
pub struct ItemAddress {
    pub kind: TrackKind,
    pub track_id: u128,
    pub item_id: u128,
}

/// Names a folded sequence and the instance of it that an item plays.
#[derive(Clone, Copy, Debug, PartialEq, Eq, Structural)]
pub struct SequenceReference {
    pub sequence_id: u128,
    pub instance_id: u128,
}

/// What a visual item shows.
#[derive(Clone, Copy, Debug, PartialEq, Eq, Structural)]
pub enum VideoItemContent {
    Gif,
    Media,
    Image,
    Text,
    Shape,
    Paint,
    Background,
    Obj,
    Gaussian,
    Svg,
    Pdf,
    Manim,
    Blender,
    LayeredImage,
    FoldedSequence(SequenceReference),
}

/// Where an audio item's sound comes from.
#[derive(Clone, Copy, Debug, PartialEq, Eq, Structural)]
pub enum AudioSource {
    Media,
    Tts,
    Generator,
    FoldedSequence(SequenceReference),
}

/// The part of an item that depends on the kind of its track.
#[derive(Clone, Copy, Debug, PartialEq, Eq, Structural)]
pub enum ItemPayload {
    Caption,
    Video(VideoItemContent),
    Audio(AudioSource),
}

/// Whether a payload belongs on a track of `kind`: captions on caption
/// tracks, video on video tracks, audio on audio tracks.
pub open spec fn payload_fits(kind: TrackKind, payload: ItemPayload) -> bool {
    match (kind, payload) {
        (TrackKind::Caption, ItemPayload::Caption) => true,
        (TrackKind::Video, ItemPayload::Video(_)) => true,
        (TrackKind::Audio, ItemPayload::Audio(_)) => true,
        _ => false,
    }
}

/// An item placed on a track, covering the half-open time range `[start, end)`.
#[derive(Clone, Copy, Debug, PartialEq, Eq, Structural)]
pub struct Item {
    pub id: u128,
    pub start: Time,
    pub end: Time,
    pub group_id: Option<u64>,
    pub payload: ItemPayload,
}

/// A track: an ordered list of items. `unity_gain` tells that the track
/// plays its sound unchanged (a gain of 0 dB); it holds for every track that
/// has no gain of its own.
#[derive(Clone, Debug)]
pub struct Track {
    pub id: u128,
    pub enabled: bool,
    pub unity_gain: bool,
    pub items: Vec<Item>,
}

/// A folded sequence: the video and audio tracks that items folded together
/// now live on, played by the items that reference the sequence.
#[derive(Clone, Debug)]
pub struct FoldedSequence {
    pub id: u128,
    pub video_tracks: Vec<Track>,
    pub audio_tracks: Vec<Track>,
}

/// A frame rate or another ratio, as numerator and denominator.
#[derive(Clone, Copy, Debug, PartialEq, Eq, Structural)]
pub struct Fraction {
    pub numerator: i64,
    pub denominator: i64,
}

/// The size of the video canvas, in pixels.
#[derive(Clone, Copy, Debug, PartialEq, Eq, Structural)]
pub struct CanvasSize {
    pub width: u32,
    pub height: u32,
}

/// The root timeline of a project, with its canvas size and frame rate.
#[derive(Clone, Debug)]
pub struct Project {
    pub canvas_size: CanvasSize,
    pub fps: Fraction,
    pub caption_tracks: Vec<Track>,
    pub video_tracks: Vec<Track>,
    pub audio_tracks: Vec<Track>,
    pub folded_sequences: Vec<FoldedSequence>,
}

/// Items of a track are kept ordered by their start time.
pub open spec fn items_sorted(items: Seq<Item>) -> bool {
    forall|i: int, j: int| 0 <= i < j < items.len() ==> items[i].start <= items[j].start
}

impl Project {
    /// The tracks of one kind.
    pub open spec fn tracks_of(self, kind: TrackKind) -> Seq<Track> {
        match kind {
            TrackKind::Caption => self.caption_tracks@,
            TrackKind::Video => self.video_tracks@,
            TrackKind::Audio => self.audio_tracks@,
        }
    }

    /// The item that a key names, if there is one.
    pub open spec fn item_at(self, key: ItemKey) -> Option<Item> {
        let tracks = self.tracks_of(key.kind);
        if key.track_index < tracks.len() && key.item_index < tracks[key.track_index as int].items@.len() {
            Some(tracks[key.track_index as int].items@[key.item_index as int])
        } else {
            None
        }
    }

    /// Returns the tracks of one kind.
    pub fn tracks(&self, kind: TrackKind) -> (r: &Vec<Track>)
        ensures
            r@ == self.tracks_of(kind),
    {
        match kind {
            TrackKind::Caption => &self.caption_tracks,
            TrackKind::Video => &self.video_tracks,
            TrackKind::Audio => &self.audio_tracks,
        }
    }

    /// Returns the item that a key names, if there is one.
    pub fn item_by_key(&self, key: ItemKey) -> (r: Option<Item>)
        ensures
            r == self.item_at(key),
    {
        let tracks = self.tracks(key.kind);
        if key.track_index < tracks.len() && key.item_index < tracks[key.track_index].items.len() {
            Some(tracks[key.track_index].items[key.item_index])
        } else {
            None
        }
    }
}

/// The order in which kinds come: captions, then video, then audio.
pub open spec fn kind_rank(kind: TrackKind) -> u8 {
    match kind {
        TrackKind::Caption => 0,
        TrackKind::Video => 1,
        TrackKind::Audio => 2,
    }
}

/// A sort key for an item key: by kind, then track, then item.
pub fn item_key_sort_key(key: &ItemKey) -> (r: (u8, usize, usize))
    ensures
        r == (kind_rank(key.kind), key.track_index, key.item_index),
{
    let kind = match key.kind {
        TrackKind::Caption => 0u8,
        TrackKind::Video => 1u8,
        TrackKind::Audio => 2u8,
    };
    (kind, key.track_index, key.item_index)
}

/// A sort key for a track key: by kind, then track.
pub fn track_key_sort_key(key: &TrackKey) -> (r: (u8, usize))
    ensures
        r == (kind_rank(key.kind), key.track_index),
{
    let kind = match key.kind {
        TrackKind::Caption => 0u8,
        TrackKind::Video => 1u8,
        TrackKind::Audio => 2u8,
    };
    (kind, key.track_index)
}


/// The index of the first track with the given id, searching from `k`.
pub open spec fn find_track_from(tracks: Seq<Track>, id: u128, k: int) -> Option<int>
    decreases tracks.len() - k,
{
    if k < 0 || k >= tracks.len() {
        None
    } else if tracks[k].id == id {
        Some(k)
    } else {
        find_track_from(tracks, id, k + 1)
    }
}

/// The index of the first item with the given id, searching from `k`.
pub open spec fn find_item_from(items: Seq<Item>, id: u128, k: int) -> Option<int>
    decreases items.len() - k,
{
    if k < 0 || k >= items.len() {
        None
    } else if items[k].id == id {
        Some(k)
    } else {
        find_item_from(items, id, k + 1)
    }
}

/// A found index lies in range and names an element with the searched id;
/// none is found only where no element from `k` on has that id.
pub proof fn lemma_find_track_from(tracks: Seq<Track>, id: u128, k: int)
    requires
        0 <= k,
    ensures
        find_track_from(tracks, id, k) matches Some(i) ==> k <= i < tracks.len() && tracks[i].id == id
            && forall|m: int| k <= m < i ==> #[trigger] tracks[m].id != id,
        find_track_from(tracks, id, k) is None ==> forall|m: int| k <= m < tracks.len() ==> #[trigger] tracks[m].id != id,
    decreases tracks.len() - k,
{
    if k < tracks.len() && tracks[k].id != id {
        lemma_find_track_from(tracks, id, k + 1);
    }
}

/// A found index lies in range and names an element with the searched id;
/// none is found only where no element from `k` on has that id.
pub proof fn lemma_find_item_from(items: Seq<Item>, id: u128, k: int)
    requires
        0 <= k,
    ensures
        find_item_from(items, id, k) matches Some(i) ==> k <= i < items.len() && items[i].id == id
            && forall|m: int| k <= m < i ==> #[trigger] items[m].id != id,
        find_item_from(items, id, k) is None ==> forall|m: int| k <= m < items.len() ==> #[trigger] items[m].id != id,
    decreases items.len() - k,
{
    if k < items.len() && items[k].id != id {
        lemma_find_item_from(items, id, k + 1);
    }
}

/// Returns the index of the first track with the given id.
pub fn find_track(tracks: &Vec<Track>, id: u128) -> (r: Option<usize>)
    ensures
        r matches Some(i) ==> find_track_from(tracks@, id, 0) == Some(i as int),
        r is None ==> find_track_from(tracks@, id, 0) is None,
{
    let mut i: usize = 0;
    while i < tracks.len()
        invariant
            i <= tracks@.len(),
            find_track_from(tracks@, id, 0) == find_track_from(tracks@, id, i as int),
        decreases tracks@.len() - i,
    {
        if tracks[i].id == id {
            return Some(i);
        }
        i = i + 1;
    }
    None
}

/// Returns the index of the first item with the given id.
pub fn find_item(items: &Vec<Item>, id: u128) -> (r: Option<usize>)
    ensures
        r matches Some(i) ==> find_item_from(items@, id, 0) == Some(i as int),
        r is None ==> find_item_from(items@, id, 0) is None,
{
    let mut i: usize = 0;
    while i < items.len()
        invariant
            i <= items@.len(),
            find_item_from(items@, id, 0) == find_item_from(items@, id, i as int),
        decreases items@.len() - i,
    {
        if items[i].id == id {
            return Some(i);
        }
        i = i + 1;
    }
    None
}

impl Project {
    /// The key of the item that an address names, if the project holds it.
    pub open spec fn key_of(self, address: ItemAddress) -> Option<ItemKey> {
        let tracks = self.tracks_of(address.kind);
        match find_track_from(tracks, address.track_id, 0) {
            Some(t) => match find_item_from(tracks[t].items@, address.item_id, 0) {
                Some(i) => if t <= usize::MAX && i <= usize::MAX {
                    Some(ItemKey { kind: address.kind, track_index: t as usize, item_index: i as usize })
                } else {
                    None
                },
                None => None,
            },
            None => None,
        }
    }

    /// The item that an address names, if the project holds it.
    pub open spec fn item_at_address(self, address: ItemAddress) -> Option<Item> {
        match self.key_of(address) {
            Some(key) => self.item_at(key),
            None => None,
        }
    }

    /// The address of the item that a key names, if there is one.
    pub open spec fn address_of(self, key: ItemKey) -> Option<ItemAddress> {
        let tracks = self.tracks_of(key.kind);
        if key.track_index < tracks.len() && key.item_index < tracks[key.track_index as int].items@.len() {
            Some(ItemAddress {
                kind: key.kind,
                track_id: tracks[key.track_index as int].id,
                item_id: tracks[key.track_index as int].items@[key.item_index as int].id,
            })
        } else {
            None
        }
    }

    /// Returns the key of the item that an address names.
    pub fn item_key(&self, address: &ItemAddress) -> (r: Option<ItemKey>)
        ensures
            r == self.key_of(*address),
            r matches Some(key) ==> self.item_at(key) is Some,
    {
        let tracks = self.tracks(address.kind);
        match find_track(tracks, address.track_id) {
            Some(t) => {
                proof {
                    lemma_find_track_from(tracks@, address.track_id, 0);
                }
                match find_item(&tracks[t].items, address.item_id) {
                    Some(i) => {
                        proof {
                            lemma_find_item_from(tracks@[t as int].items@, address.item_id, 0);
                        }
                        Some(ItemKey { kind: address.kind, track_index: t, item_index: i })
                    },
                    None => None,
                }
            },
            None => None,
        }
    }

    /// Returns the item that an address names.
    pub fn item(&self, address: &ItemAddress) -> (r: Option<Item>)
        ensures
            r == self.item_at_address(*address),
    {
        match self.item_key(address) {
            Some(key) => self.item_by_key(key),
            None => None,
        }
    }

    /// Returns the address of the item that a key names.
    pub fn item_address(&self, key: ItemKey) -> (r: Option<ItemAddress>)
        ensures
            r == self.address_of(key),
    {
        let tracks = self.tracks(key.kind);
        if key.track_index < tracks.len() && key.item_index < tracks[key.track_index].items.len() {
            Some(ItemAddress {
                kind: key.kind,
                track_id: tracks[key.track_index].id,
                item_id: tracks[key.track_index].items[key.item_index].id,
            })
        } else {
            None
        }
    }
}


/// Two tracks hold the same id, flag and items.
pub open spec fn same_track(a: Track, b: Track) -> bool {
    a.id == b.id && a.enabled == b.enabled && a.unity_gain == b.unity_gain && a.items@ == b.items@
}

/// `new` is `old` with the items of track `t` replaced by `items`.
pub open spec fn tracks_with_items(old: Seq<Track>, new: Seq<Track>, t: int, items: Seq<Item>) -> bool {
    &&& new.len() == old.len()
    &&& 0 <= t < old.len()
    &&& forall|k: int| 0 <= k < old.len() && k != t ==> #[trigger] same_track(new[k], old[k])
    &&& new[t].id == old[t].id
    &&& new[t].enabled == old[t].enabled
    &&& new[t].unity_gain == old[t].unity_gain
    &&& new[t].items@ == items
}

/// Replaces the item at index `i` of track `t`.
pub fn set_track_item(tracks: &mut Vec<Track>, t: usize, i: usize, item: Item)
    requires
        t < old(tracks)@.len(),
        i < old(tracks)@[t as int].items@.len(),
    ensures
        tracks_with_items(old(tracks)@, final(tracks)@, t as int, old(tracks)@[t as int].items@.update(i as int, item)),
{
    let track = &mut tracks[t];
    track.items.set(i, item);
}


/// The same item with another group id.
pub open spec fn with_group(item: Item, group_id: Option<u64>) -> Item {
    Item { group_id: group_id, ..item }
}

/// Two projects have the same settings, the same folded sequences, the same
/// tracks and the same number of items on each, with the same ids in the
/// same places.
pub open spec fn same_layout(a: Project, b: Project) -> bool {
    &&& a.canvas_size == b.canvas_size
    &&& a.fps == b.fps
    &&& a.folded_sequences@ == b.folded_sequences@
    &&& forall|kind: TrackKind| #[trigger] same_track_layout(a.tracks_of(kind), b.tracks_of(kind))
}

/// Two track lists have the same tracks, holding items with the same ids.
pub open spec fn same_track_layout(a: Seq<Track>, b: Seq<Track>) -> bool {
    &&& a.len() == b.len()
    &&& forall|t: int|
        0 <= t < a.len() ==> {
            &&& (#[trigger] a[t]).id == b[t].id
            &&& a[t].enabled == b[t].enabled
            &&& a[t].unity_gain == b[t].unity_gain
            &&& a[t].items@.len() == b[t].items@.len()
            &&& forall|i: int| 0 <= i < a[t].items@.len() ==> (#[trigger] a[t].items@[i]).id == b[t].items@[i].id
        }
}

/// `new` is `old` with the group id of each item that one of `addresses`
/// names set to `group_id`, and every other item unchanged.
pub open spec fn regrouped(old: Project, new: Project, addresses: Seq<ItemAddress>, group_id: Option<u64>) -> bool {
    &&& same_layout(old, new)
    &&& forall|key: ItemKey|
        old.item_at(key) is Some ==> #[trigger] new.item_at(key) == if exists|j: int|
            0 <= j < addresses.len() && old.key_of(#[trigger] addresses[j]) == Some(key) {
            Some(with_group(old.item_at(key).unwrap(), group_id))
        } else {
            old.item_at(key)
        }
}

/// Searching tracks with the same ids finds the same index.
pub proof fn lemma_find_track_same_ids(a: Seq<Track>, b: Seq<Track>, id: u128, k: int)
    requires
        a.len() == b.len(),
        forall|t: int| 0 <= t < a.len() ==> (#[trigger] a[t]).id == b[t].id,
    ensures
        find_track_from(a, id, k) == find_track_from(b, id, k),
    decreases a.len() - k,
{
    if 0 <= k < a.len() {
        assert(a[k].id == b[k].id);
        lemma_find_track_same_ids(a, b, id, k + 1);
    }
}

/// Searching items with the same ids finds the same index.
pub proof fn lemma_find_item_same_ids(a: Seq<Item>, b: Seq<Item>, id: u128, k: int)
    requires
        a.len() == b.len(),
        forall|i: int| 0 <= i < a.len() ==> (#[trigger] a[i]).id == b[i].id,
    ensures
        find_item_from(a, id, k) == find_item_from(b, id, k),
    decreases a.len() - k,
{
    if 0 <= k < a.len() {
        assert(a[k].id == b[k].id);
        lemma_find_item_same_ids(a, b, id, k + 1);
    }
}

/// Projects with the same layout resolve addresses alike.
pub proof fn lemma_same_layout_key_of(a: Project, b: Project, address: ItemAddress)
    requires
        same_layout(a, b),
    ensures
        a.key_of(address) == b.key_of(address),
        a.address_of_key_eq(b),
{
    let ta = a.tracks_of(address.kind);
    let tb = b.tracks_of(address.kind);
    assert(same_track_layout(ta, tb));
    lemma_find_track_same_ids(ta, tb, address.track_id, 0);
    match find_track_from(ta, address.track_id, 0) {
        Some(t) => {
            lemma_find_track_from(ta, address.track_id, 0);
            assert(ta[t].id == tb[t].id);
            lemma_find_item_same_ids(ta[t].items@, tb[t].items@, address.item_id, 0);
        },
        None => {},
    }
    assert forall|key: ItemKey| a.address_of(key) == b.address_of(key) by {
        assert(same_track_layout(a.tracks_of(key.kind), b.tracks_of(key.kind)));
    }
}

impl Project {
    /// Every key names the same address in both projects.
    pub open spec fn address_of_key_eq(self, other: Project) -> bool {
        forall|key: ItemKey| #[trigger] self.address_of(key) == other.address_of(key)
    }

    /// Every item holds a payload of the kind of its track.
    pub open spec fn payloads_fit(self) -> bool {
        forall|kind: TrackKind, t: int, i: int|
            0 <= t < self.tracks_of(kind).len() && 0 <= i < self.tracks_of(kind)[t].items@.len() ==> payload_fits(
                kind,
                #[trigger] self.tracks_of(kind)[t].items@[i].payload,
            )
    }

    /// Sets the group id of the item at a key.
    pub fn set_group_at(&mut self, key: ItemKey, group_id: Option<u64>)
        requires
            old(self).item_at(key) is Some,
        ensures
            same_layout(*old(self), *final(self)),
            forall|k: ItemKey|
                old(self).item_at(k) is Some ==> #[trigger] final(self).item_at(k) == if k == key {
                    Some(with_group(old(self).item_at(k).unwrap(), group_id))
                } else {
                    old(self).item_at(k)
                },
    {
        let ghost before = *self;
        let item = self.tracks(key.kind)[key.track_index].items[key.item_index];
        let updated = Item { group_id: group_id, ..item };
        match key.kind {
            TrackKind::Caption => set_track_item(&mut self.caption_tracks, key.track_index, key.item_index, updated),
            TrackKind::Video => set_track_item(&mut self.video_tracks, key.track_index, key.item_index, updated),
            TrackKind::Audio => set_track_item(&mut self.audio_tracks, key.track_index, key.item_index, updated),
        }
        proof {
            assert forall|kind: TrackKind| #[trigger] same_track_layout(before.tracks_of(kind), self.tracks_of(kind)) by {
                if kind == key.kind {
                    let a = before.tracks_of(kind);
                    let b = self.tracks_of(kind);
                    assert forall|t: int| 0 <= t < a.len() implies {
                        &&& (#[trigger] a[t]).id == b[t].id
                        &&& a[t].enabled == b[t].enabled
                        &&& a[t].unity_gain == b[t].unity_gain
                        &&& a[t].items@.len() == b[t].items@.len()
                        &&& forall|i: int| 0 <= i < a[t].items@.len() ==> (#[trigger] a[t].items@[i]).id == b[t].items@[i].id
                    } by {
                        if t != key.track_index {
                            assert(same_track(b[t], a[t]));
                        }
                    }
                }
            }
            assert forall|k: ItemKey| before.item_at(k) is Some implies #[trigger] self.item_at(k) == if k == key {
                Some(with_group(before.item_at(k).unwrap(), group_id))
            } else {
                before.item_at(k)
            } by {
                if k.kind == key.kind && k.track_index != key.track_index {
                    assert(same_track(self.tracks_of(k.kind)[k.track_index as int], before.tracks_of(k.kind)[k.track_index as int]));
                }
            }
        }
    }
}

} // verus!
