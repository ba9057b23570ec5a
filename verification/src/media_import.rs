//! Adopting the canvas size and frame rate of the first imported video.

use vstd::prelude::*;

use crate::model::{CanvasSize, Fraction, ItemKey, ItemPayload, Project, TrackKind, VideoItemContent};

verus! {

/// The kinds of visual media an import can hold.
#[derive(Clone, Copy, Debug, PartialEq, Eq, Structural)]
pub enum VisualMediaKind {
    Image,
    Video,
}

/// What an import inspection found out about a media file.
#[derive(Clone, Debug)]
pub struct MediaInfo {
    pub visual_kind: Option<VisualMediaKind>,
    pub video_sizes: Vec<(u32, u32)>,
    pub video_fps: Option<Fraction>,
}

/// Whether the project holds an item at the key.
pub open spec fn has_item(project: Project, key: ItemKey) -> bool {
    project.item_at(key) is Some
}

/// Whether the item at the key exists and, where only video media count,
/// is video media.
pub open spec fn item_counts(project: Project, key: ItemKey, only_video_media: bool) -> bool {
    match project.item_at(key) {
        Some(item) => !only_video_media || item.payload == ItemPayload::Video(VideoItemContent::Media),
        None => false,
    }
}

/// Whether the project holds a video media item.
pub open spec fn has_video_media(project: Project) -> bool {
    exists|key: ItemKey| key.kind == TrackKind::Video && #[trigger] item_counts(project, key, true)
}

fn kind_has_item(project: &Project, kind: TrackKind, only_video_media: bool) -> (r: bool)
    ensures
        r == exists|key: ItemKey| key.kind == kind && #[trigger] item_counts(*project, key, only_video_media),
{
    let tracks = project.tracks(kind);
    let mut t: usize = 0;
    while t < tracks.len()
        invariant
            tracks@ == project.tracks_of(kind),
            t <= tracks@.len(),
            forall|key: ItemKey|
                key.kind == kind && key.track_index < t ==> !#[trigger] item_counts(*project, key, only_video_media),
        decreases tracks@.len() - t,
    {
        let items = &tracks[t].items;
        let mut i: usize = 0;
        while i < items.len()
            invariant
                tracks@ == project.tracks_of(kind),
                t < tracks@.len(),
                items@ == tracks@[t as int].items@,
                i <= items@.len(),
                forall|key: ItemKey|
                    key.kind == kind && (key.track_index < t || (key.track_index == t && key.item_index < i)) ==> !#[trigger] item_counts(*project, key, only_video_media),
            decreases items@.len() - i,
        {
            let is_media = match items[i].payload {
                ItemPayload::Video(VideoItemContent::Media) => true,
                _ => false,
            };
            if !only_video_media || is_media {
                proof {
                    let key = ItemKey { kind: kind, track_index: t, item_index: i };
                    assert(project.item_at(key) == Some(items@[i as int]));
                    assert(item_counts(*project, key, only_video_media));
                }
                return true;
            }
            i = i + 1;
        }
        proof {
            assert forall|key: ItemKey| key.kind == kind && key.track_index < t + 1 implies !#[trigger] item_counts(*project, key, only_video_media) by {
                if key.track_index == t && project.item_at(key) is Some {
                    assert(key.item_index < items@.len());
                }
            }
        }
        t = t + 1;
    }
    proof {
        assert forall|key: ItemKey| key.kind == kind implies !#[trigger] item_counts(*project, key, only_video_media) by {
            if project.item_at(key) is Some {
                assert(key.track_index < tracks@.len());
            }
        }
    }
    false
}

/// Whether the project holds any item at all.
pub open spec fn has_timeline_items(project: Project) -> bool {
    exists|key: ItemKey| #[trigger] has_item(project, key)
}

/// The canvas size and frame rate that importing a video proposes: only for
/// a video, and only while the project holds no video media; the canvas size
/// of the first video stream where it is positive and differs, the frame rate
/// where the project is empty and it differs; none where neither applies.
pub open spec fn proposed_settings(project: Project, info: MediaInfo) -> Option<(Option<CanvasSize>, Option<Fraction>)> {
    if info.visual_kind != Some(VisualMediaKind::Video) || has_video_media(project) {
        None
    } else {
        let canvas = if info.video_sizes@.len() > 0 && info.video_sizes@[0].0 > 0 && info.video_sizes@[0].1 > 0 && (
        CanvasSize { width: info.video_sizes@[0].0, height: info.video_sizes@[0].1 }) != project.canvas_size {
            Some(CanvasSize { width: info.video_sizes@[0].0, height: info.video_sizes@[0].1 })
        } else {
            None
        };
        let fps = match info.video_fps {
            Some(fps) => if !has_timeline_items(project) && fps != project.fps { Some(fps) } else { None },
            None => None,
        };
        if canvas is Some || fps is Some { Some((canvas, fps)) } else { None }
    }
}

/// What importing a video proposes, in terms of the project and the media:
/// a proposal is made only for a video while the project holds no video
/// media item; a frame rate is proposed only when the project holds no item
/// at all, on any track, and the video's rate differs from the project's,
/// and then it always is; a canvas size is proposed exactly when the first
/// video stream has a positive size that differs from the project's.
pub proof fn law_import_proposals(project: Project, info: MediaInfo)
    ensures
        proposed_settings(project, info) is Some ==> info.visual_kind == Some(VisualMediaKind::Video) && forall|key: ItemKey|
            key.kind == TrackKind::Video && #[trigger] project.item_at(key) is Some ==> project.item_at(key).unwrap().payload
                != ItemPayload::Video(VideoItemContent::Media),
        proposed_settings(project, info) matches Some((_, Some(fps))) ==> {
            &&& info.video_fps == Some(fps)
            &&& fps != project.fps
            &&& forall|key: ItemKey| #[trigger] project.item_at(key) is None
        },
        proposed_settings(project, info) matches Some((Some(canvas), _)) ==> {
            &&& info.video_sizes@.len() > 0
            &&& canvas.width == info.video_sizes@[0].0 && canvas.width > 0
            &&& canvas.height == info.video_sizes@[0].1 && canvas.height > 0
            &&& canvas != project.canvas_size
        },
        ({
            &&& info.visual_kind == Some(VisualMediaKind::Video)
            &&& forall|key: ItemKey| #[trigger] project.item_at(key) is None
            &&& info.video_fps is Some
            &&& info.video_fps.unwrap() != project.fps
        }) ==> (proposed_settings(project, info) is Some && proposed_settings(project, info).unwrap().1 == info.video_fps),
        ({
            &&& info.visual_kind == Some(VisualMediaKind::Video)
            &&& forall|key: ItemKey|
                key.kind == TrackKind::Video && #[trigger] project.item_at(key) is Some ==> project.item_at(key).unwrap().payload
                    != ItemPayload::Video(VideoItemContent::Media)
            &&& info.video_sizes@.len() > 0 && info.video_sizes@[0].0 > 0 && info.video_sizes@[0].1 > 0
            &&& (CanvasSize { width: info.video_sizes@[0].0, height: info.video_sizes@[0].1 }) != project.canvas_size
        }) ==> (proposed_settings(project, info) is Some && proposed_settings(project, info).unwrap().0 == Some(
            CanvasSize { width: info.video_sizes@[0].0, height: info.video_sizes@[0].1 },
        )),
{
    if has_video_media(project) {
        let key = choose|key: ItemKey| key.kind == TrackKind::Video && #[trigger] item_counts(project, key, true);
        assert(project.item_at(key) is Some);
    }
    if has_timeline_items(project) {
        let key = choose|key: ItemKey| #[trigger] has_item(project, key);
        assert(project.item_at(key) is Some);
    }
    if forall|key: ItemKey| key.kind == TrackKind::Video && #[trigger] project.item_at(key) is Some ==> project.item_at(key).unwrap().payload
        != ItemPayload::Video(VideoItemContent::Media) {
        assert(!has_video_media(project)) by {
            if has_video_media(project) {
                let key = choose|key: ItemKey| key.kind == TrackKind::Video && #[trigger] item_counts(project, key, true);
                assert(project.item_at(key) is Some);
            }
        }
    }
    if forall|key: ItemKey| #[trigger] project.item_at(key) is None {
        assert(!has_timeline_items(project)) by {
            if has_timeline_items(project) {
                let key = choose|key: ItemKey| #[trigger] has_item(project, key);
                assert(project.item_at(key) is None);
            }
        }
        assert(!has_video_media(project)) by {
            if has_video_media(project) {
                let key = choose|key: ItemKey| key.kind == TrackKind::Video && #[trigger] item_counts(project, key, true);
                assert(project.item_at(key) is None);
            }
        }
    }
    if proposed_settings(project, info) is Some {
        assert forall|key: ItemKey|
            key.kind == TrackKind::Video && #[trigger] project.item_at(key) is Some implies project.item_at(key).unwrap().payload
                != ItemPayload::Video(VideoItemContent::Media) by {
            if project.item_at(key).unwrap().payload == ItemPayload::Video(VideoItemContent::Media) {
                assert(item_counts(project, key, true));
            }
        }
    }
    if proposed_settings(project, info) matches Some((_, Some(fps))) {
        assert forall|key: ItemKey| #[trigger] project.item_at(key) is None by {
            if project.item_at(key) is Some {
                assert(has_item(project, key));
            }
        }
    }
}

/// The canvas size and frame rate that importing a video proposes.
pub fn imported_video_setting_changes(project: &Project, info: &MediaInfo) -> (r: Option<(Option<CanvasSize>, Option<Fraction>)>)
    ensures
        r == proposed_settings(*project, *info),
        r matches Some((_, Some(fps))) ==> info.video_fps == Some(fps) && fps != project.fps && forall|key: ItemKey|
            #[trigger] project.item_at(key) is None,
        r is Some ==> info.visual_kind == Some(VisualMediaKind::Video),
{
    proof {
        law_import_proposals(*project, *info);
    }
    if info.visual_kind != Some(VisualMediaKind::Video) || kind_has_item(project, TrackKind::Video, true) {
        proof {
            if info.visual_kind == Some(VisualMediaKind::Video) {
                assert(has_video_media(*project));
            }
        }
        return None;
    }
    let canvas_size = if info.video_sizes.len() > 0 && info.video_sizes[0].0 > 0 && info.video_sizes[0].1 > 0 {
        let size = CanvasSize { width: info.video_sizes[0].0, height: info.video_sizes[0].1 };
        if size != project.canvas_size {
            Some(size)
        } else {
            None
        }
    } else {
        None
    };
    let has_items = kind_has_item(project, TrackKind::Caption, false) || kind_has_item(project, TrackKind::Video, false)
        || kind_has_item(project, TrackKind::Audio, false);
    proof {
        assert(has_items == has_timeline_items(*project)) by {
            if has_timeline_items(*project) {
                let key = choose|key: ItemKey| #[trigger] has_item(*project, key);
                assert(item_counts(*project, key, false));
                assert(key.kind == TrackKind::Caption || key.kind == TrackKind::Video || key.kind == TrackKind::Audio);
            }
            if has_items {
                if exists|key: ItemKey| key.kind == TrackKind::Caption && #[trigger] item_counts(*project, key, false) {
                    let key = choose|key: ItemKey| key.kind == TrackKind::Caption && #[trigger] item_counts(*project, key, false);
                    assert(has_item(*project, key));
                } else if exists|key: ItemKey| key.kind == TrackKind::Video && #[trigger] item_counts(*project, key, false) {
                    let key = choose|key: ItemKey| key.kind == TrackKind::Video && #[trigger] item_counts(*project, key, false);
                    assert(has_item(*project, key));
                } else {
                    let key = choose|key: ItemKey| key.kind == TrackKind::Audio && #[trigger] item_counts(*project, key, false);
                    assert(has_item(*project, key));
                }
            }
        }
    }
    let fps = match info.video_fps {
        Some(fps) => if !has_items && fps != project.fps {
            Some(fps)
        } else {
            None
        },
        None => None,
    };
    if canvas_size.is_some() || fps.is_some() {
        Some((canvas_size, fps))
    } else {
        None
    }
}

} // verus!
