use timeline_editing::model::{ItemKey, SequenceReference, TrackKind, VideoItemContent};
use timeline_editing::presentation::{
    final_track_index, gtk_cursor_name, intersect_range, is_item_selected, mark_change, marker_priority,
    marker_real_span, ordered_times, video_item_icon, MarkerKind, NaturalEndMarker, ProjectChange, TimelineCursor,
};

#[test]
fn cursor_names_follow_the_toolkit() {
    assert_eq!(gtk_cursor_name(TimelineCursor::Default), None);
    assert_eq!(gtk_cursor_name(TimelineCursor::ResizeStart), Some("w-resize"));
    assert_eq!(gtk_cursor_name(TimelineCursor::ResizeEnd), Some("e-resize"));
    assert_eq!(gtk_cursor_name(TimelineCursor::ResizeHorizontal), Some("ew-resize"));
    assert_eq!(gtk_cursor_name(TimelineCursor::Crosshair), Some("crosshair"));
}

#[test]
fn video_icons_by_content() {
    assert_eq!(video_item_icon(&VideoItemContent::Media), "video-camera-symbolic");
    assert_eq!(video_item_icon(&VideoItemContent::Pdf), "image-symbolic");
    assert_eq!(video_item_icon(&VideoItemContent::Gaussian), "3d-object-symbolic");
    let reference = SequenceReference { sequence_id: 1, instance_id: 2 };
    assert_eq!(video_item_icon(&VideoItemContent::FoldedSequence(reference)), "folder-symbolic");
}

#[test]
fn bars_outrank_beats() {
    assert_eq!(marker_priority(MarkerKind::Beat), 0);
    assert_eq!(marker_priority(MarkerKind::Bar), 1);
    assert!(marker_priority(MarkerKind::Bar) > marker_priority(MarkerKind::Beat));
}

fn marker(real_start: Option<u64>, real_end: Option<u64>) -> NaturalEndMarker {
    NaturalEndMarker { start: 100, end: 200, position: None, repeat_interval: None, real_start, real_end }
}

#[test]
fn real_span_is_clipped_to_the_item() {
    assert_eq!(marker_real_span(marker(Some(50), Some(150))), Some((100, 150)));
    assert_eq!(marker_real_span(marker(Some(180), Some(120))), Some((120, 180)));
    assert_eq!(marker_real_span(marker(Some(0), Some(500))), Some((100, 200)));
}

#[test]
fn real_span_missing_or_outside_is_none() {
    assert_eq!(marker_real_span(marker(None, Some(150))), None);
    assert_eq!(marker_real_span(marker(Some(150), None)), None);
    assert_eq!(marker_real_span(marker(Some(210), Some(300))), None);
    assert_eq!(marker_real_span(marker(Some(20), Some(100))), None);
}

#[test]
fn change_flags_by_track_kind() {
    let mut change = ProjectChange::none();
    assert_eq!(change.duration, None);
    assert!(!change.captions && !change.video && !change.audio && !change.audio_waveforms);
    mark_change(&mut change, TrackKind::Audio);
    assert!(change.audio && change.audio_waveforms);
    assert!(!change.video && !change.captions && !change.audio_beats);
    mark_change(&mut change, TrackKind::Caption);
    assert!(change.captions && !change.video);
    mark_change(&mut change, TrackKind::Video);
    assert!(change.video);
}

#[test]
fn selection_lookup_by_key() {
    let selected = vec![
        ItemKey { kind: TrackKind::Video, track_index: 1, item_index: 2 },
        ItemKey { kind: TrackKind::Audio, track_index: 0, item_index: 0 },
    ];
    assert!(is_item_selected(&selected, TrackKind::Video, 1, 2));
    assert!(is_item_selected(&selected, TrackKind::Audio, 0, 0));
    assert!(!is_item_selected(&selected, TrackKind::Audio, 1, 2));
    assert!(!is_item_selected(&selected, TrackKind::Video, 1, 3));
    assert!(!is_item_selected(&Vec::new(), TrackKind::Video, 0, 0));
}

#[test]
fn times_in_order() {
    assert_eq!(ordered_times(7, 3), (3, 7));
    assert_eq!(ordered_times(3, 7), (3, 7));
    assert_eq!(ordered_times(5, 5), (5, 5));
}

#[test]
fn range_intersection() {
    assert_eq!(intersect_range(Some((10, 20)), 15, 30), Some((15, 20)));
    assert_eq!(intersect_range(Some((10, 20)), 0, 12), Some((10, 12)));
    assert_eq!(intersect_range(Some((10, 20)), 20, 30), None);
    assert_eq!(intersect_range(None, 0, 30), None);
}

#[test]
fn track_index_after_insertions() {
    assert_eq!(final_track_index(2, &vec![0, 5]), 3);
    assert_eq!(final_track_index(2, &vec![0, 0]), 4);
    assert_eq!(final_track_index(2, &vec![3]), 2);
    assert_eq!(final_track_index(2, &vec![2]), 3);
    assert_eq!(final_track_index(0, &Vec::new()), 0);
}
