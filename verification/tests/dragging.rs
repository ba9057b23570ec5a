use timeline_editing::drag_group::{
    group_track_bounds, item_identity, item_key_for_identity, set_track_offset, set_track_offsets,
    target_item_times, DragCollisionMode, DraggedGroup, DraggedGroupItem, ItemIdentity, TrackOffset,
};
use timeline_editing::folded_sequence::{update_drag, DragPreviewStatus, FoldedDrag, FoldedDragItem, FoldedDragKind};
use timeline_editing::model::{
    CanvasSize, Fraction, Item, ItemAddress, ItemKey, ItemPayload, Project, Track, TrackKind, VideoItemContent,
};
use timeline_editing::tracks::TrackAddress;

fn video(id: u128, start: u64, end: u64) -> Item {
    Item { id, start, end, group_id: None, payload: ItemPayload::Video(VideoItemContent::Media) }
}

fn track(id: u128, items: Vec<Item>) -> Track {
    Track { id, enabled: true, unity_gain: true, items }
}

fn project(videos: Vec<Track>, audios: Vec<Track>) -> Project {
    Project {
        canvas_size: CanvasSize { width: 640, height: 480 },
        fps: Fraction { numerator: 24, denominator: 1 },
        caption_tracks: Vec::new(),
        video_tracks: videos,
        audio_tracks: audios,
        folded_sequences: Vec::new(),
    }
}

fn key(kind: TrackKind, track_index: usize, item_index: usize) -> ItemKey {
    ItemKey { kind, track_index, item_index }
}

fn dragged(items: Vec<DraggedGroupItem>) -> DraggedGroup {
    DraggedGroup {
        grabbed: items[0].key,
        grabbed_start: items[0].start,
        target_start: items[0].start as i128,
        track_offsets: Vec::new(),
        new_tracks: Vec::new(),
        collision_mode: DragCollisionMode::Block,
        valid_drop: true,
        preview_status: DragPreviewStatus::Clear,
        items,
    }
}

#[test]
fn identities_find_items_again() {
    let p = project(vec![track(1, vec![video(7, 0, 5)]), track(2, vec![video(8, 0, 5), video(9, 5, 9)])], Vec::new());
    let identity = item_identity(&p, key(TrackKind::Video, 1, 1)).unwrap();
    assert_eq!(identity, ItemIdentity { kind: TrackKind::Video, id: 9 });
    assert_eq!(item_key_for_identity(&p, identity), Some(key(TrackKind::Video, 1, 1)));
    assert_eq!(item_identity(&p, key(TrackKind::Video, 3, 0)), None);
    assert_eq!(item_key_for_identity(&p, ItemIdentity { kind: TrackKind::Audio, id: 9 }), None);
    assert_eq!(item_key_for_identity(&p, ItemIdentity { kind: TrackKind::Video, id: 99 }), None);
}

#[test]
fn dragged_items_keep_their_length() {
    let item = DraggedGroupItem { key: key(TrackKind::Video, 0, 0), start: 100, end: 150 };
    let mut group = dragged(vec![item]);
    group.target_start = 130;
    assert_eq!(target_item_times(&group, &item), (130, 180));
    group.target_start = 20;
    let other = DraggedGroupItem { key: key(TrackKind::Video, 0, 1), start: 50, end: 60 };
    assert_eq!(target_item_times(&group, &other), (-30, -20));
}

#[test]
fn track_bounds_by_kind() {
    let group = dragged(vec![
        DraggedGroupItem { key: key(TrackKind::Video, 2, 0), start: 0, end: 1 },
        DraggedGroupItem { key: key(TrackKind::Audio, 1, 0), start: 0, end: 1 },
        DraggedGroupItem { key: key(TrackKind::Video, 0, 0), start: 0, end: 1 },
    ]);
    assert_eq!(group_track_bounds(&group, TrackKind::Video), Some((0, 2)));
    assert_eq!(group_track_bounds(&group, TrackKind::Audio), Some((1, 1)));
    assert_eq!(group_track_bounds(&group, TrackKind::Caption), None);
}

#[test]
fn one_offset_per_kind() {
    let mut group = dragged(vec![DraggedGroupItem { key: key(TrackKind::Video, 0, 0), start: 0, end: 1 }]);
    set_track_offset(&mut group, TrackKind::Video, 2);
    set_track_offset(&mut group, TrackKind::Audio, -1);
    set_track_offset(&mut group, TrackKind::Video, 3);
    assert_eq!(
        group.track_offsets,
        vec![TrackOffset { kind: TrackKind::Video, offset: 3 }, TrackOffset { kind: TrackKind::Audio, offset: -1 }]
    );
}

fn three_video_tracks() -> Project {
    project(vec![track(1, Vec::new()), track(2, Vec::new()), track(3, Vec::new())], vec![track(4, Vec::new())])
}

#[test]
fn dragging_past_the_last_track_opens_new_ones() {
    let p = three_video_tracks();
    let mut group = dragged(vec![
        DraggedGroupItem { key: key(TrackKind::Video, 1, 0), start: 0, end: 1 },
        DraggedGroupItem { key: key(TrackKind::Video, 2, 0), start: 0, end: 1 },
    ]);
    set_track_offsets(&p, &mut group, 2);
    assert_eq!(group.track_offsets, vec![TrackOffset { kind: TrackKind::Video, offset: 2 }]);
    assert_eq!(group.new_tracks, vec![(TrackKind::Video, 3), (TrackKind::Video, 4)]);
}

#[test]
fn dragging_before_the_first_track_opens_new_ones() {
    let p = three_video_tracks();
    let mut group = dragged(vec![
        DraggedGroupItem { key: key(TrackKind::Video, 1, 0), start: 0, end: 1 },
        DraggedGroupItem { key: key(TrackKind::Video, 2, 0), start: 0, end: 1 },
        DraggedGroupItem { key: key(TrackKind::Audio, 0, 0), start: 0, end: 1 },
    ]);
    set_track_offsets(&p, &mut group, -3);
    assert_eq!(
        group.track_offsets,
        vec![TrackOffset { kind: TrackKind::Video, offset: -1 }, TrackOffset { kind: TrackKind::Audio, offset: 0 }]
    );
    assert_eq!(group.new_tracks, vec![(TrackKind::Video, 0), (TrackKind::Video, 1), (TrackKind::Audio, 0)]);
}

#[test]
fn dragging_within_the_tracks_opens_none() {
    let p = three_video_tracks();
    let mut group = dragged(vec![DraggedGroupItem { key: key(TrackKind::Video, 0, 0), start: 0, end: 1 }]);
    set_track_offsets(&p, &mut group, 1);
    assert_eq!(group.track_offsets, vec![TrackOffset { kind: TrackKind::Video, offset: 1 }]);
    assert!(group.new_tracks.is_empty());
}

// ----- folded drags -----

fn folded_item(item_id: u128, start: u64, end: u64) -> FoldedDragItem {
    let address = ItemAddress { kind: TrackKind::Video, track_id: 1, item_id };
    FoldedDragItem {
        key: address,
        start,
        end,
        target_track: TrackAddress { kind: TrackKind::Video, track_id: 1 },
        target_start: start as i128,
        target_end: end as i128,
    }
}

fn folded_drag(kind: FoldedDragKind, items: Vec<FoldedDragItem>) -> FoldedDrag {
    FoldedDrag {
        key: items[0].key,
        target_track: TrackAddress { kind: TrackKind::Video, track_id: 1 },
        kind,
        start: items[0].start,
        end: items[0].end,
        target_start: items[0].start as i128,
        target_end: items[0].end as i128,
        items,
        cross_scope_preview_row: None,
        valid_drop: true,
        preview_status: DragPreviewStatus::Clear,
    }
}

#[test]
fn moving_a_folded_drag_keeps_items_at_or_after_zero() {
    let mut drag = folded_drag(FoldedDragKind::Move, vec![folded_item(1, 100, 150), folded_item(2, 80, 90)]);
    update_drag(&mut drag, 10, 5);
    assert_eq!((drag.target_start, drag.target_end), (20, 70));
    assert_eq!((drag.items[0].target_start, drag.items[0].target_end), (20, 70));
    assert_eq!((drag.items[1].target_start, drag.items[1].target_end), (0, 10));
    update_drag(&mut drag, 300, 5);
    assert_eq!((drag.target_start, drag.target_end), (300, 350));
    assert_eq!((drag.items[1].target_start, drag.items[1].target_end), (280, 290));
}

#[test]
fn resizing_keeps_the_minimum_length() {
    let mut drag = folded_drag(FoldedDragKind::ResizeStart, vec![folded_item(1, 100, 150), folded_item(2, 100, 110)]);
    update_drag(&mut drag, 120, 10);
    assert_eq!((drag.target_start, drag.target_end), (100, 150));
    update_drag(&mut drag, 60, 10);
    assert_eq!(drag.target_start, 60);
    assert_eq!((drag.items[1].target_start, drag.items[1].target_end), (60, 110));

    let mut drag = folded_drag(FoldedDragKind::ResizeEnd, vec![folded_item(1, 100, 150), folded_item(2, 100, 140)]);
    update_drag(&mut drag, 100, 10);
    assert_eq!(drag.target_end, 120);
    assert_eq!((drag.items[1].target_start, drag.items[1].target_end), (100, 110));
    update_drag(&mut drag, 170, 10);
    assert_eq!(drag.target_end, 170);
}

#[test]
fn previews_by_address() {
    let drag = folded_drag(FoldedDragKind::Move, vec![folded_item(1, 0, 10), folded_item(2, 10, 20)]);
    let second = ItemAddress { kind: TrackKind::Video, track_id: 1, item_id: 2 };
    assert_eq!(drag.preview(&second).map(|item| item.start), Some(10));
    assert_eq!(drag.preview_at(&second).map(|item| item.start), Some(10));
    let elsewhere = ItemAddress { kind: TrackKind::Video, track_id: 5, item_id: 2 };
    assert!(drag.preview(&elsewhere).is_none());
    assert!(drag.preview_at(&elsewhere).is_none());
}

#[test]
fn item_times_follow_the_anchor() {
    let mut drag = folded_drag(FoldedDragKind::Move, vec![folded_item(1, 100, 150), folded_item(2, 30, 40)]);
    drag.target_start = 60;
    drag.target_end = 110;
    drag.update_item_times();
    assert_eq!((drag.items[0].target_start, drag.items[0].target_end), (60, 110));
    assert_eq!((drag.items[1].target_start, drag.items[1].target_end), (-10, 0));

    let mut drag = folded_drag(FoldedDragKind::ResizeEnd, vec![folded_item(1, 100, 150), folded_item(2, 100, 140)]);
    drag.target_end = 170;
    drag.update_item_times();
    assert_eq!((drag.items[0].target_start, drag.items[0].target_end), (100, 170));
    assert_eq!((drag.items[1].target_start, drag.items[1].target_end), (100, 160));
}

#[test]
fn retimed_items_keep_the_signed_shift() {
    let mut drag = folded_drag(FoldedDragKind::Move, vec![folded_item(1, 10, 20), folded_item(2, 5, 8)]);
    drag.target_start = 0;
    drag.target_end = 10;
    drag.update_item_times();
    assert_eq!((drag.items[1].target_start, drag.items[1].target_end), (-5, -2));
}

#[test]
fn a_start_resize_keeps_the_minimum_duration() {
    let mut drag = folded_drag(FoldedDragKind::ResizeStart, vec![folded_item(1, 0, 1)]);
    update_drag(&mut drag, 0, 5);
    assert_eq!(drag.target_start, -4);
    assert_eq!((drag.items[0].target_start, drag.items[0].target_end), (-4, 1));
}
