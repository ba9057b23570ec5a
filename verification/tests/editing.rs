use timeline_editing::deletion::delete_item_addresses;
use timeline_editing::gaps::{delete_track_gap, track_gap_at, TrackGap};
use timeline_editing::model::{
    AudioSource, CanvasSize, Fraction, Item, ItemAddress, ItemPayload, Project, Track, TrackKey, TrackKind,
    VideoItemContent,
};
use timeline_editing::ripple::RippleInterval;
use timeline_editing::ripple_edit::{
    local_intervals, ripple_delete_item_addresses, ripple_delete_keeps_anchors, ripple_trim_item_addresses,
    ripple_trim_keeps_anchors, snapped,
};

fn video(id: u128, start: u64, end: u64) -> Item {
    Item { id, start, end, group_id: None, payload: ItemPayload::Video(VideoItemContent::Media) }
}

fn audio(id: u128, start: u64, end: u64) -> Item {
    Item { id, start, end, group_id: None, payload: ItemPayload::Audio(AudioSource::Media) }
}

fn caption(id: u128, start: u64, end: u64) -> Item {
    Item { id, start, end, group_id: None, payload: ItemPayload::Caption }
}

fn track(id: u128, items: Vec<Item>) -> Track {
    Track { id, enabled: true, unity_gain: true, items }
}

fn project(captions: Vec<Track>, videos: Vec<Track>, audios: Vec<Track>) -> Project {
    Project {
        canvas_size: CanvasSize { width: 1920, height: 1080 },
        fps: Fraction { numerator: 30, denominator: 1 },
        caption_tracks: captions,
        video_tracks: videos,
        audio_tracks: audios,
        folded_sequences: Vec::new(),
    }
}

fn address(kind: TrackKind, track_id: u128, item_id: u128) -> ItemAddress {
    ItemAddress { kind, track_id, item_id }
}

// ----- deletion -----

#[test]
fn deleting_addressed_items_reports_the_kinds() {
    let mut p = project(
        vec![track(10, vec![caption(1, 0, 5)])],
        vec![track(20, vec![video(2, 0, 10), video(3, 10, 20)])],
        vec![track(30, vec![audio(4, 0, 10)])],
    );
    let selection = vec![address(TrackKind::Video, 20, 2), address(TrackKind::Caption, 10, 1)];
    assert_eq!(delete_item_addresses(&mut p, &selection), Some((true, true, false)));
    assert!(p.caption_tracks[0].items.is_empty());
    assert_eq!(p.video_tracks[0].items, vec![video(3, 10, 20)]);
    assert_eq!(p.audio_tracks[0].items, vec![audio(4, 0, 10)]);
}

#[test]
fn deleting_nothing_that_exists_is_none() {
    let mut p = project(Vec::new(), vec![track(20, vec![video(2, 0, 10)])], Vec::new());
    let selection = vec![address(TrackKind::Video, 20, 99), address(TrackKind::Audio, 20, 2)];
    assert_eq!(delete_item_addresses(&mut p, &selection), None);
    assert_eq!(p.video_tracks[0].items, vec![video(2, 0, 10)]);
}

// ----- snapping to frames -----

#[test]
fn times_snap_to_the_nearest_frame() {
    assert_eq!(snapped(10, 4), 12);
    assert_eq!(snapped(9, 4), 8);
    assert_eq!(snapped(11, 4), 12);
    assert_eq!(snapped(12, 4), 12);
    assert_eq!(snapped(7, 0), 7);
    assert_eq!(snapped(u64::MAX, 4), u64::MAX - 3);
}

#[test]
fn local_intervals_snap_and_merge() {
    let intervals = vec![RippleInterval { start: 10, end: 20 }, RippleInterval { start: 21, end: 30 }];
    assert_eq!(local_intervals(&intervals, 4), vec![RippleInterval { start: 12, end: 32 }]);
    assert_eq!(local_intervals(&intervals, 0), intervals);
}

// ----- ripple deletion -----

fn ripple_project() -> Project {
    project(
        Vec::new(),
        vec![track(100, vec![video(1, 0, 10), video(2, 10, 20), video(3, 20, 30)])],
        vec![track(200, vec![audio(4, 0, 40), audio(5, 40, 50)])],
    )
}

#[test]
fn ripple_delete_closes_the_gap_where_tracks_allow() {
    let mut p = ripple_project();
    let result = ripple_delete_item_addresses(&mut p, &vec![address(TrackKind::Video, 100, 2)], 25, 0).unwrap();
    assert!(result.selection.is_empty());
    assert_eq!(result.shifted_position, 15);
    assert!(result.video);
    assert!(!result.audio);
    assert!(!result.captions);
    assert_eq!(p.video_tracks[0].items, vec![video(1, 0, 10), video(3, 10, 20)]);
    assert_eq!(p.audio_tracks[0].items, vec![audio(4, 0, 40), audio(5, 40, 50)]);
}

#[test]
fn ripple_delete_checks_the_other_tracks() {
    let p = ripple_project();
    assert!(ripple_delete_keeps_anchors(&p, &vec![address(TrackKind::Video, 100, 2)], 0));
    let mut blocked = ripple_project();
    blocked.audio_tracks[0].items = vec![audio(4, 0, 12), audio(5, 15, 20), audio(6, 5, 8)];
    assert!(!ripple_delete_keeps_anchors(&blocked, &vec![address(TrackKind::Video, 100, 2)], 0));
}

#[test]
fn ripple_delete_takes_whole_groups() {
    let mut p = ripple_project();
    p.video_tracks[0].items[1].group_id = Some(3);
    p.audio_tracks[0].items[1].group_id = Some(3);
    let result = ripple_delete_item_addresses(&mut p, &vec![address(TrackKind::Video, 100, 2)], 100, 0).unwrap();
    assert!(result.video && result.audio);
    assert_eq!(result.shifted_position, 80);
    assert_eq!(p.video_tracks[0].items, vec![video(1, 0, 10), video(3, 10, 20)]);
    assert_eq!(p.audio_tracks[0].items, vec![audio(4, 0, 40)]);
}

#[test]
fn ripple_delete_of_nothing_is_none() {
    let mut p = ripple_project();
    assert!(ripple_delete_item_addresses(&mut p, &vec![address(TrackKind::Video, 100, 77)], 25, 0).is_none());
    assert_eq!(p.video_tracks[0].items.len(), 3);
}

// ----- ripple trim -----

fn trim_project() -> Project {
    project(
        Vec::new(),
        vec![track(100, vec![video(1, 0, 10), video(2, 10, 30), video(3, 30, 40)])],
        vec![track(200, vec![audio(6, 50, 60)])],
    )
}

#[test]
fn ripple_trim_cuts_the_head_and_closes_it() {
    let mut p = trim_project();
    let selected = vec![address(TrackKind::Video, 100, 2)];
    assert!(ripple_trim_keeps_anchors(&p, &selected, 20, 0));
    let result = ripple_trim_item_addresses(&mut p, &selected, 20, 0).unwrap();
    assert_eq!(result.selection, selected);
    assert_eq!(result.shifted_position, 10);
    assert!(result.video && result.audio && !result.captions);
    assert_eq!(p.video_tracks[0].items, vec![video(1, 0, 10), video(2, 10, 20), video(3, 20, 30)]);
    assert_eq!(p.audio_tracks[0].items, vec![audio(6, 40, 50)]);
}

#[test]
fn ripple_trim_outside_the_item_is_none() {
    let mut p = trim_project();
    let selected = vec![address(TrackKind::Video, 100, 2)];
    assert!(ripple_trim_item_addresses(&mut p, &selected, 30, 0).is_none());
    assert!(ripple_trim_item_addresses(&mut p, &selected, 5, 0).is_none());
    assert_eq!(p.video_tracks[0].items[1], video(2, 10, 30));
}

#[test]
fn ripple_trim_that_would_push_a_fixed_item_is_refused() {
    let mut p = trim_project();
    p.audio_tracks[0].items = vec![audio(4, 0, 40), audio(5, 40, 50)];
    let selected = vec![address(TrackKind::Video, 100, 2)];
    assert!(!ripple_trim_keeps_anchors(&p, &selected, 20, 0));
}

// ----- gaps -----

fn gap_project() -> Project {
    project(Vec::new(), vec![track(100, vec![video(1, 5, 10), video(2, 20, 30), video(3, 35, 40)])], Vec::new())
}

#[test]
fn gaps_between_items() {
    let p = gap_project();
    let key = TrackKey { kind: TrackKind::Video, track_index: 0 };
    assert_eq!(track_gap_at(&p, key, 15), Some(TrackGap { track: key, start: 10, end: 20 }));
    assert_eq!(track_gap_at(&p, key, 2), Some(TrackGap { track: key, start: 0, end: 5 }));
    assert_eq!(track_gap_at(&p, key, 32), Some(TrackGap { track: key, start: 30, end: 35 }));
    assert_eq!(track_gap_at(&p, key, 7), None);
    assert_eq!(track_gap_at(&p, key, 50), None);
    assert_eq!(track_gap_at(&p, TrackKey { kind: TrackKind::Audio, track_index: 0 }, 15), None);
}

#[test]
fn deleting_a_gap_pulls_the_rest_back() {
    let mut p = gap_project();
    let key = TrackKey { kind: TrackKind::Video, track_index: 0 };
    let gap = TrackGap { track: key, start: 10, end: 20 };
    assert_eq!(delete_track_gap(&mut p, gap), Some((false, true, false)));
    assert_eq!(p.video_tracks[0].items, vec![video(1, 5, 10), video(2, 10, 20), video(3, 25, 30)]);
}

#[test]
fn deleting_a_gap_that_is_not_there_is_none() {
    let mut p = gap_project();
    let key = TrackKey { kind: TrackKind::Video, track_index: 0 };
    assert_eq!(delete_track_gap(&mut p, TrackGap { track: key, start: 10, end: 19 }), None);
    assert_eq!(delete_track_gap(&mut p, TrackGap { track: key, start: 12, end: 20 }), None);
    assert_eq!(p.video_tracks[0].items, gap_project().video_tracks[0].items);
}
