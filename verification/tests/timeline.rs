use timeline_editing::clipboard::{
    copy_items, ensure_tracks, paste_footprint, push_moved_selection, remap_item_group_id, scoped_track_index,
    CopiedItem, TrackFootprintItem,
};
use timeline_editing::collections::GroupMap;
use timeline_editing::media_import::{imported_video_setting_changes, MediaInfo, VisualMediaKind};
use timeline_editing::model::{
    find_item, find_track, item_key_sort_key, track_key_sort_key, AudioSource, CanvasSize, Fraction, Item,
    ItemAddress, ItemKey, ItemPayload, Project, SequenceReference, Track, TrackKey, TrackKind, VideoItemContent,
};
use timeline_editing::natural_end::push_natural_end_times;
use timeline_editing::selection::{selected_item_addresses, timeline_cut};
use timeline_editing::tracks::{
    folder_reference, is_folder, reference, row_for_address, rows, selected_track_clip_count, track_collides,
    track_kind, TrackAddress,
};

fn video(id: u128, start: u64, end: u64) -> Item {
    Item { id, start, end, group_id: None, payload: ItemPayload::Video(VideoItemContent::Media) }
}

fn audio(id: u128, start: u64, end: u64) -> Item {
    Item { id, start, end, group_id: None, payload: ItemPayload::Audio(AudioSource::Media) }
}

fn caption(id: u128, start: u64, end: u64) -> Item {
    Item { id, start, end, group_id: None, payload: ItemPayload::Caption }
}

fn track(id: u128, items: Vec<Item>) -> Track {
    Track { id, enabled: true, unity_gain: true, items }
}

fn project(captions: Vec<Track>, videos: Vec<Track>, audios: Vec<Track>) -> Project {
    Project {
        canvas_size: CanvasSize { width: 1920, height: 1080 },
        fps: Fraction { numerator: 30, denominator: 1 },
        caption_tracks: captions,
        video_tracks: videos,
        audio_tracks: audios,
        folded_sequences: Vec::new(),
    }
}

fn sample() -> Project {
    project(
        vec![track(1, vec![caption(11, 0, 5)])],
        vec![track(2, vec![video(21, 0, 10), video(22, 10, 20)]), track(3, vec![video(31, 5, 15)])],
        vec![track(4, vec![audio(41, 0, 30)])],
    )
}

// ----- keys and lookups -----

#[test]
fn sort_keys_order_kinds_then_places() {
    assert_eq!(item_key_sort_key(&ItemKey { kind: TrackKind::Audio, track_index: 3, item_index: 4 }), (2, 3, 4));
    assert_eq!(item_key_sort_key(&ItemKey { kind: TrackKind::Caption, track_index: 1, item_index: 0 }), (0, 1, 0));
    assert_eq!(track_key_sort_key(&TrackKey { kind: TrackKind::Video, track_index: 5 }), (1, 5));
}

#[test]
fn lookups_by_id_and_address() {
    let p = sample();
    assert_eq!(find_track(&p.video_tracks, 3), Some(1));
    assert_eq!(find_track(&p.video_tracks, 9), None);
    assert_eq!(find_item(&p.video_tracks[0].items, 22), Some(1));
    assert_eq!(find_item(&p.video_tracks[0].items, 31), None);
    let address = ItemAddress { kind: TrackKind::Video, track_id: 3, item_id: 31 };
    assert_eq!(p.item_key(&address), Some(ItemKey { kind: TrackKind::Video, track_index: 1, item_index: 0 }));
    assert_eq!(p.item(&address), Some(video(31, 5, 15)));
    assert_eq!(p.item_address(ItemKey { kind: TrackKind::Video, track_index: 1, item_index: 0 }), Some(address));
    assert_eq!(p.item_address(ItemKey { kind: TrackKind::Audio, track_index: 1, item_index: 0 }), None);
    assert_eq!(p.item_by_key(ItemKey { kind: TrackKind::Audio, track_index: 0, item_index: 0 }), Some(audio(41, 0, 30)));
    assert_eq!(p.tracks(TrackKind::Video).len(), 2);
    assert_eq!(track_kind(&address), TrackKind::Video);
}

// ----- tracks -----

#[test]
fn collisions_on_a_track() {
    let p = sample();
    let second = TrackAddress { kind: TrackKind::Video, track_id: 2 };
    assert!(track_collides(&p, &second, 15, 25));
    assert!(!track_collides(&p, &second, 20, 25));
    assert!(track_collides(&p, &TrackAddress { kind: TrackKind::Video, track_id: 99 }, 100, 200));
    assert_eq!(p.track(&second).map(|t| t.items.len()), Some(2));
}

#[test]
fn clip_counts_of_selected_tracks() {
    let p = sample();
    let selected = vec![
        TrackAddress { kind: TrackKind::Video, track_id: 2 },
        TrackAddress { kind: TrackKind::Audio, track_id: 4 },
        TrackAddress { kind: TrackKind::Audio, track_id: 8 },
    ];
    assert_eq!(selected_track_clip_count(&p, &selected), 3);
    assert_eq!(selected_track_clip_count(&p, &Vec::new()), 0);
}

#[test]
fn folder_items_reference_their_sequence() {
    let mut p = sample();
    let reference_value = SequenceReference { sequence_id: 5, instance_id: 6 };
    p.video_tracks[1].items[0].payload = ItemPayload::Video(VideoItemContent::FoldedSequence(reference_value));
    let key = ItemKey { kind: TrackKind::Video, track_index: 1, item_index: 0 };
    assert_eq!(reference(&p, key), Some(reference_value));
    assert_eq!(reference(&p, ItemKey { kind: TrackKind::Video, track_index: 0, item_index: 0 }), None);
    let address = ItemAddress { kind: TrackKind::Video, track_id: 3, item_id: 31 };
    assert_eq!(folder_reference(&p, &address), Some(reference_value));
    assert!(is_folder(&p, &address));
    assert!(!is_folder(&p, &ItemAddress { kind: TrackKind::Video, track_id: 2, item_id: 21 }));
}

#[test]
fn a_folder_payload_on_a_track_of_another_kind_is_no_folder() {
    let mut p = sample();
    let reference_value = SequenceReference { sequence_id: 5, instance_id: 6 };
    p.audio_tracks[0].items[0].payload = ItemPayload::Video(VideoItemContent::FoldedSequence(reference_value));
    assert_eq!(reference(&p, ItemKey { kind: TrackKind::Audio, track_index: 0, item_index: 0 }), None);
}

#[test]
fn rows_run_from_captions_down_to_audio() {
    let p = sample();
    let all = rows(&p);
    let addresses: Vec<(TrackKind, u128)> = all.iter().map(|row| (row.address.kind, row.address.track_id)).collect();
    assert_eq!(addresses, vec![(TrackKind::Caption, 1), (TrackKind::Video, 3), (TrackKind::Video, 2), (TrackKind::Audio, 4)]);
    assert_eq!(all[1].root_key, Some(TrackKey { kind: TrackKind::Video, track_index: 1 }));
    assert_eq!(row_for_address(&p, &TrackAddress { kind: TrackKind::Video, track_id: 2 }), Some(2));
    assert_eq!(row_for_address(&p, &TrackAddress { kind: TrackKind::Audio, track_id: 2 }), None);
}

// ----- selection -----

#[test]
fn rectangle_selection_by_rows_and_time() {
    let p = sample();
    let hits = vec![false, true, true, false];
    let selected = selected_item_addresses(&p, 12, 9, &hits);
    assert_eq!(
        selected,
        vec![
            ItemAddress { kind: TrackKind::Video, track_id: 3, item_id: 31 },
            ItemAddress { kind: TrackKind::Video, track_id: 2, item_id: 21 },
            ItemAddress { kind: TrackKind::Video, track_id: 2, item_id: 22 },
        ]
    );
    assert!(selected_item_addresses(&p, 0, 100, &Vec::new()).is_empty());
}

#[test]
fn a_cut_takes_the_item_and_its_group() {
    let mut p = sample();
    p.video_tracks[0].items[1].group_id = Some(1);
    p.audio_tracks[0].items[0].group_id = Some(1);
    let key = ItemAddress { kind: TrackKind::Video, track_id: 2, item_id: 22 };
    let cut = timeline_cut(&p, &Vec::new(), key, 15);
    assert_eq!(cut.key, key);
    assert_eq!(cut.time, 15);
    assert_eq!(cut.keys, vec![key, ItemAddress { kind: TrackKind::Audio, track_id: 4, item_id: 41 }]);
    let alone = ItemAddress { kind: TrackKind::Video, track_id: 3, item_id: 31 };
    let selection = vec![alone, ItemAddress { kind: TrackKind::Video, track_id: 2, item_id: 21 }];
    let cut = timeline_cut(&p, &selection, alone, 7);
    assert_eq!(cut.keys, vec![ItemAddress { kind: TrackKind::Video, track_id: 2, item_id: 21 }, alone]);
}

// ----- clipboard -----

#[test]
fn group_ids_are_remapped_once_each() {
    let mut next = 10;
    let mut map = GroupMap::new();
    assert_eq!(remap_item_group_id(&mut next, &mut map, Some(3)), Some(10));
    assert_eq!(remap_item_group_id(&mut next, &mut map, Some(4)), Some(11));
    assert_eq!(remap_item_group_id(&mut next, &mut map, Some(3)), Some(10));
    assert_eq!(remap_item_group_id(&mut next, &mut map, None), None);
    assert_eq!(next, 12);
    assert_eq!(map.lookup(4), Some(11));
    assert_eq!(map.lookup(5), None);
}

#[test]
fn footprint_is_relative_to_the_lowest_track() {
    let items = vec![(3, 10, 20, caption(1, 0, 1)), (1, 5, 6, caption(2, 0, 1))];
    let (base, footprint) = paste_footprint(&items);
    assert_eq!(base, 1);
    assert_eq!(
        footprint,
        vec![
            TrackFootprintItem { track_offset: 2, start: 10, end: 20 },
            TrackFootprintItem { track_offset: 0, start: 5, end: 6 },
        ]
    );
    assert_eq!(paste_footprint(&Vec::new()), (0, Vec::new()));
}

#[test]
fn tracks_are_added_up_to_a_count() {
    let mut tracks = vec![track(7, vec![caption(1, 0, 1)])];
    ensure_tracks(&mut tracks, 3);
    assert_eq!(tracks.len(), 3);
    assert_eq!(tracks[0].id, 7);
    assert!(tracks[1].items.is_empty() && tracks[2].enabled && tracks[2].id == 0);
    ensure_tracks(&mut tracks, 1);
    assert_eq!(tracks.len(), 3);
}

#[test]
fn moved_selection_makes_room_for_the_new_item() {
    let mut selection = vec![
        ItemKey { kind: TrackKind::Video, track_index: 0, item_index: 2 },
        ItemKey { kind: TrackKind::Video, track_index: 0, item_index: 0 },
        ItemKey { kind: TrackKind::Video, track_index: 1, item_index: 5 },
    ];
    push_moved_selection(&mut selection, ItemKey { kind: TrackKind::Video, track_index: 0, item_index: 1 });
    assert_eq!(
        selection,
        vec![
            ItemKey { kind: TrackKind::Video, track_index: 0, item_index: 3 },
            ItemKey { kind: TrackKind::Video, track_index: 0, item_index: 0 },
            ItemKey { kind: TrackKind::Video, track_index: 1, item_index: 5 },
            ItemKey { kind: TrackKind::Video, track_index: 0, item_index: 1 },
        ]
    );
}

#[test]
fn copying_keeps_places_relative_to_the_earliest() {
    let p = sample();
    assert_eq!(scoped_track_index(&p, &TrackAddress { kind: TrackKind::Video, track_id: 3 }), Some(1));
    assert_eq!(scoped_track_index(&p, &TrackAddress { kind: TrackKind::Caption, track_id: 3 }), None);
    let selection = vec![
        ItemAddress { kind: TrackKind::Video, track_id: 2, item_id: 22 },
        ItemAddress { kind: TrackKind::Video, track_id: 3, item_id: 31 },
    ];
    let clipboard = copy_items(&p, &selection).unwrap();
    assert_eq!(
        clipboard.items,
        vec![
            CopiedItem { track_index: 0, start_offset: 5, duration: 10, item: video(22, 10, 20) },
            CopiedItem { track_index: 1, start_offset: 0, duration: 10, item: video(31, 5, 15) },
        ]
    );
    assert!(copy_items(&p, &Vec::new()).is_none());
    let with_missing = vec![selection[0], ItemAddress { kind: TrackKind::Video, track_id: 3, item_id: 99 }];
    assert!(copy_items(&p, &with_missing).is_none());
}

// ----- importing media -----

#[test]
fn first_video_proposes_its_settings() {
    let empty = project(Vec::new(), vec![track(2, Vec::new())], Vec::new());
    let info = MediaInfo {
        visual_kind: Some(VisualMediaKind::Video),
        video_sizes: vec![(1280, 720)],
        video_fps: Some(Fraction { numerator: 25, denominator: 1 }),
    };
    assert_eq!(
        imported_video_setting_changes(&empty, &info),
        Some((Some(CanvasSize { width: 1280, height: 720 }), Some(Fraction { numerator: 25, denominator: 1 })))
    );
    let with_items = project(vec![track(1, vec![caption(1, 0, 1)])], Vec::new(), Vec::new());
    assert_eq!(
        imported_video_setting_changes(&with_items, &info),
        Some((Some(CanvasSize { width: 1280, height: 720 }), None))
    );
}

#[test]
fn no_proposal_once_video_media_is_there() {
    let p = sample();
    let info = MediaInfo {
        visual_kind: Some(VisualMediaKind::Video),
        video_sizes: vec![(1280, 720)],
        video_fps: Some(Fraction { numerator: 25, denominator: 1 }),
    };
    assert_eq!(imported_video_setting_changes(&p, &info), None);
    let image = MediaInfo { visual_kind: Some(VisualMediaKind::Image), video_sizes: vec![(10, 10)], video_fps: None };
    assert_eq!(imported_video_setting_changes(&project(Vec::new(), Vec::new(), Vec::new()), &image), None);
    let same = MediaInfo {
        visual_kind: Some(VisualMediaKind::Video),
        video_sizes: vec![(1920, 1080), (0, 0)],
        video_fps: Some(Fraction { numerator: 30, denominator: 1 }),
    };
    assert_eq!(imported_video_setting_changes(&project(Vec::new(), Vec::new(), Vec::new()), &same), None);
}

// ----- natural ends -----

#[test]
fn natural_ends_repeat_inside_the_item() {
    let mut edges = vec![1];
    push_natural_end_times(&mut edges, 100, 200, Some(130), Some(30));
    assert_eq!(edges, vec![1, 130, 160, 190]);
    let mut edges = Vec::new();
    push_natural_end_times(&mut edges, 100, 200, Some(20), Some(30));
    assert_eq!(edges, vec![110, 140, 170]);
    let mut edges = Vec::new();
    push_natural_end_times(&mut edges, 100, 200, Some(260), Some(30));
    assert_eq!(edges, vec![110, 140, 170]);
}

#[test]
fn a_single_natural_end_or_none() {
    let mut edges = Vec::new();
    push_natural_end_times(&mut edges, 100, 200, Some(150), None);
    assert_eq!(edges, vec![150]);
    push_natural_end_times(&mut edges, 100, 200, Some(100), None);
    push_natural_end_times(&mut edges, 100, 200, Some(200), None);
    push_natural_end_times(&mut edges, 100, 200, None, Some(10));
    push_natural_end_times(&mut edges, 100, 200, Some(150), Some(0));
    assert_eq!(edges, vec![150]);
}
