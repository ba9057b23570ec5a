//! What the timeline shows for items and markers: icons, cursor names,
//! marker priorities, the played span of an item and change flags.

use vstd::prelude::*;

use crate::model::{ItemKey, Time, TrackKind, VideoItemContent};

verus! {

/// The pointer cursors that the timeline asks for.
#[derive(Clone, Copy, Debug, PartialEq, Eq, Structural)]
pub enum TimelineCursor {
    Default,
    ResizeStart,
    ResizeEnd,
    ResizeHorizontal,
    Crosshair,
}

/// The name of the toolkit cursor that shows a timeline cursor; none for the
/// default cursor.
pub fn gtk_cursor_name(cursor: TimelineCursor) -> (r: Option<&'static str>)
    ensures
        cursor == TimelineCursor::Default <==> r is None,
        cursor == TimelineCursor::ResizeStart ==> r == Some("w-resize"),
        cursor == TimelineCursor::ResizeEnd ==> r == Some("e-resize"),
        cursor == TimelineCursor::ResizeHorizontal ==> r == Some("ew-resize"),
        cursor == TimelineCursor::Crosshair ==> r == Some("crosshair"),
{
    match cursor {
        TimelineCursor::Default => None,
        TimelineCursor::ResizeStart => Some("w-resize"),
        TimelineCursor::ResizeEnd => Some("e-resize"),
        TimelineCursor::ResizeHorizontal => Some("ew-resize"),
        TimelineCursor::Crosshair => Some("crosshair"),
    }
}

/// The icon name drawn on a visual item, by what it shows.
pub open spec fn video_icon_name(content: VideoItemContent) -> &'static str {
    match content {
        VideoItemContent::Gif => "container3-symbolic",
        VideoItemContent::Media => "video-camera-symbolic",
        VideoItemContent::Image => "image-symbolic",
        VideoItemContent::Text => "draw-text-symbolic",
        VideoItemContent::Shape => "shapes-large-symbolic",
        VideoItemContent::Paint => "applications-graphics-symbolic",
        VideoItemContent::Background => "preferences-desktop-wallpaper-symbolic",
        VideoItemContent::Obj => "3d-object-symbolic",
        VideoItemContent::Gaussian => "3d-object-symbolic",
        VideoItemContent::Svg => "boxy-svg-symbolic",
        VideoItemContent::Pdf => "image-symbolic",
        VideoItemContent::Manim => "manim-symbolic",
        VideoItemContent::Blender => "blender-symbolic",
        VideoItemContent::LayeredImage => "image-symbolic",
        VideoItemContent::FoldedSequence(_) => "folder-symbolic",
    }
}

/// The icon name drawn on a visual item.
pub fn video_item_icon(content: &VideoItemContent) -> (r: &'static str)
    ensures
        r == video_icon_name(*content),
{
    match content {
        VideoItemContent::Gif => "container3-symbolic",
        VideoItemContent::Media => "video-camera-symbolic",
        VideoItemContent::Image => "image-symbolic",
        VideoItemContent::Text => "draw-text-symbolic",
        VideoItemContent::Shape => "shapes-large-symbolic",
        VideoItemContent::Paint => "applications-graphics-symbolic",
        VideoItemContent::Background => "preferences-desktop-wallpaper-symbolic",
        VideoItemContent::Obj => "3d-object-symbolic",
        VideoItemContent::Gaussian => "3d-object-symbolic",
        VideoItemContent::Svg => "boxy-svg-symbolic",
        VideoItemContent::Pdf => "image-symbolic",
        VideoItemContent::Manim => "manim-symbolic",
        VideoItemContent::Blender => "blender-symbolic",
        VideoItemContent::LayeredImage => "image-symbolic",
        VideoItemContent::FoldedSequence(_) => "folder-symbolic",
    }
}

/// The kinds of beat-grid markers.
#[derive(Clone, Copy, Debug, PartialEq, Eq, Structural)]
pub enum MarkerKind {
    Beat,
    Bar,
}

/// Bars take priority over beats where both fall at one time.
pub fn marker_priority(kind: MarkerKind) -> (r: u8)
    ensures
        r == (match kind {
            MarkerKind::Beat => 0u8,
            MarkerKind::Bar => 1u8,
        }),
{
    match kind {
        MarkerKind::Beat => 0,
        MarkerKind::Bar => 1,
    }
}

/// The times at which an item's media really plays, beside the item's own span.
#[derive(Clone, Copy, Debug, PartialEq, Eq, Structural)]
pub struct NaturalEndMarker {
    pub start: Time,
    pub end: Time,
    pub position: Option<Time>,
    pub repeat_interval: Option<Time>,
    pub real_start: Option<Time>,
    pub real_end: Option<Time>,
}

/// The part of the item's span in which its media really plays: the real
/// span, put in order and clipped to the item, when that part is not empty.
pub fn marker_real_span(marker: NaturalEndMarker) -> (r: Option<(Time, Time)>)
    ensures
        r == (match (marker.real_start, marker.real_end) {
            (Some(a), Some(b)) => {
                let lo = if a <= b { a } else { b };
                let hi = if a <= b { b } else { a };
                let start = if lo >= marker.start { lo } else { marker.start };
                let end = if hi <= marker.end { hi } else { marker.end };
                if start < end { Some((start, end)) } else { None }
            },
            _ => None,
        }),
{
    let real_start = match marker.real_start {
        Some(t) => t,
        None => return None,
    };
    let real_end = match marker.real_end {
        Some(t) => t,
        None => return None,
    };
    let lo = if real_start <= real_end { real_start } else { real_end };
    let hi = if real_start <= real_end { real_end } else { real_start };
    let start = if lo >= marker.start { lo } else { marker.start };
    let end = if hi <= marker.end { hi } else { marker.end };
    if start < end {
        Some((start, end))
    } else {
        None
    }
}

/// Which parts of the editor a project change touches.
#[derive(Clone, Copy, Debug, PartialEq, Eq, Structural)]
pub struct ProjectChange {
    pub duration: Option<Time>,
    pub captions: bool,
    pub video: bool,
    pub audio: bool,
    pub audio_beats: bool,
    pub audio_waveforms: bool,
    pub live_preview: bool,
    pub inspector: bool,
}

impl ProjectChange {
    /// A change that touches nothing.
    pub fn none() -> (r: ProjectChange)
        ensures
            r == (ProjectChange {
                duration: None,
                captions: false,
                video: false,
                audio: false,
                audio_beats: false,
                audio_waveforms: false,
                live_preview: false,
                inspector: false,
            }),
    {
        ProjectChange {
            duration: None,
            captions: false,
            video: false,
            audio: false,
            audio_beats: false,
            audio_waveforms: false,
            live_preview: false,
            inspector: false,
        }
    }
}

/// Marks the parts that an edit of a track of `kind` touches: captions,
/// video, or audio together with its waveforms.
pub fn mark_change(change: &mut ProjectChange, kind: TrackKind)
    ensures
        final(change).captions == (old(change).captions || kind == TrackKind::Caption),
        final(change).video == (old(change).video || kind == TrackKind::Video),
        final(change).audio == (old(change).audio || kind == TrackKind::Audio),
        final(change).audio_waveforms == (old(change).audio_waveforms || kind == TrackKind::Audio),
        final(change).duration == old(change).duration,
        final(change).audio_beats == old(change).audio_beats,
        final(change).live_preview == old(change).live_preview,
        final(change).inspector == old(change).inspector,
{
    match kind {
        TrackKind::Caption => change.captions = true,
        TrackKind::Video => change.video = true,
        TrackKind::Audio => {
            change.audio = true;
            change.audio_waveforms = true;
        },
    }
}

/// Whether the selection holds the item at the given place.
pub fn is_item_selected(selected_items: &Vec<ItemKey>, kind: TrackKind, track_index: usize, item_index: usize) -> (r: bool)
    ensures
        r == selected_items@.contains(ItemKey { kind: kind, track_index: track_index, item_index: item_index }),
{
    let key = ItemKey { kind, track_index, item_index };
    let mut i: usize = 0;
    while i < selected_items.len()
        invariant
            i <= selected_items@.len(),
            key == (ItemKey { kind: kind, track_index: track_index, item_index: item_index }),
            forall|k: int| 0 <= k < i ==> selected_items@[k] != key,
        decreases selected_items@.len() - i,
    {
        if selected_items[i] == key {
            proof {
                assert(selected_items@[i as int] == key);
                assert(selected_items@.contains(key));
            }
            return true;
        }
        i = i + 1;
    }
    proof {
        assert(!selected_items@.contains(key));
    }
    false
}

/// The two times, earlier first.
pub fn ordered_times(first: Time, second: Time) -> (r: (Time, Time))
    ensures
        r.0 <= r.1,
        (r.0 == first && r.1 == second) || (r.0 == second && r.1 == first),
{
    let lo = if first <= second { first } else { second };
    let hi = if first <= second { second } else { first };
    (lo, hi)
}

/// The part of `[start, end)` inside `range`, when there is a range and the
/// part is not empty.
pub fn intersect_range(range: Option<(Time, Time)>, start: Time, end: Time) -> (r: Option<(Time, Time)>)
    ensures
        r == (match range {
            Some((range_start, range_end)) => {
                let s = if start >= range_start { start } else { range_start };
                let e = if end <= range_end { end } else { range_end };
                if e > s { Some((s, e)) } else { None }
            },
            None => None,
        }),
{
    let (range_start, range_end) = match range {
        Some(r) => r,
        None => return None,
    };
    let s = if start >= range_start { start } else { range_start };
    let e = if end <= range_end { end } else { range_end };
    if e > s {
        Some((s, e))
    } else {
        None
    }
}

/// The index that a track has once new tracks are inserted at the given
/// (ordered) indices: each insertion at or before it pushes it down by one.
pub open spec fn final_index_after(track_index: int, new_indices: Seq<usize>, k: int) -> int
    decreases k,
{
    if k <= 0 {
        track_index
    } else {
        let index = final_index_after(track_index, new_indices, k - 1);
        if new_indices[k - 1] <= index {
            index + 1
        } else {
            index
        }
    }
}

/// The index that a track has once new tracks are inserted.
pub fn final_track_index(track_index: usize, new_indices: &Vec<usize>) -> (r: usize)
    requires
        track_index + new_indices@.len() <= usize::MAX,
    ensures
        r == final_index_after(track_index as int, new_indices@, new_indices@.len() as int),
{
    let mut index = track_index;
    let mut k: usize = 0;
    while k < new_indices.len()
        invariant
            k <= new_indices@.len(),
            track_index + new_indices@.len() <= usize::MAX,
            index == final_index_after(track_index as int, new_indices@, k as int),
            track_index <= index <= track_index + k,
        decreases new_indices@.len() - k,
    {
        if new_indices[k] <= index {
            index = index + 1;
        }
        k = k + 1;
    }
    index
}

} // verus!
