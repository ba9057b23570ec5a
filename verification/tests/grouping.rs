use timeline_editing::folding::{fold_items, fold_items_with_ids, FoldIds};
use timeline_editing::grouping::{
    expand_grouped_item_addresses, expand_grouped_selection, group_item_addresses, group_selected_item_addresses,
    item_address_group_id, item_group_id, next_group_id, set_item_address_group_id, ungroup_item_addresses,
    ungroup_selected_item_addresses,
};
use timeline_editing::model::{
    AudioSource, CanvasSize, Fraction, Item, ItemAddress, ItemKey, ItemPayload, Project, SequenceReference, Track,
    TrackKind, VideoItemContent,
};

fn video(id: u128, start: u64, end: u64, group_id: Option<u64>) -> Item {
    Item { id, start, end, group_id, payload: ItemPayload::Video(VideoItemContent::Media) }
}

fn audio(id: u128, start: u64, end: u64, group_id: Option<u64>) -> Item {
    Item { id, start, end, group_id, payload: ItemPayload::Audio(AudioSource::Media) }
}

fn track(id: u128, items: Vec<Item>) -> Track {
    Track { id, enabled: true, unity_gain: true, items }
}

fn project(videos: Vec<Track>, audios: Vec<Track>) -> Project {
    Project {
        canvas_size: CanvasSize { width: 1280, height: 720 },
        fps: Fraction { numerator: 25, denominator: 1 },
        caption_tracks: Vec::new(),
        video_tracks: videos,
        audio_tracks: audios,
        folded_sequences: Vec::new(),
    }
}

fn address(kind: TrackKind, track_id: u128, item_id: u128) -> ItemAddress {
    ItemAddress { kind, track_id, item_id }
}

fn sample() -> Project {
    project(
        vec![track(10, vec![video(1, 0, 10, None), video(2, 10, 20, Some(4))])],
        vec![track(20, vec![audio(3, 0, 10, None), audio(4, 10, 20, Some(4))])],
    )
}

#[test]
fn group_ids_of_items() {
    let p = sample();
    assert_eq!(item_address_group_id(&p, &address(TrackKind::Video, 10, 2)), Some(4));
    assert_eq!(item_address_group_id(&p, &address(TrackKind::Video, 10, 1)), None);
    assert_eq!(item_address_group_id(&p, &address(TrackKind::Video, 99, 2)), None);
    assert_eq!(item_group_id(&p, ItemKey { kind: TrackKind::Audio, track_index: 0, item_index: 1 }), Some(4));
    assert_eq!(item_group_id(&p, ItemKey { kind: TrackKind::Audio, track_index: 0, item_index: 5 }), None);
}

#[test]
fn next_group_id_follows_the_largest() {
    assert_eq!(next_group_id(&sample()), 5);
    assert_eq!(next_group_id(&project(vec![track(1, vec![video(1, 0, 1, None)])], Vec::new())), 0);
    let at_top = project(vec![track(1, vec![video(1, 0, 1, Some(u64::MAX)), video(2, 1, 2, Some(7))])], Vec::new());
    assert_eq!(next_group_id(&at_top), u64::MAX);
}

#[test]
fn setting_a_group_id() {
    let mut p = sample();
    assert!(set_item_address_group_id(&mut p, &address(TrackKind::Video, 10, 1), Some(9)));
    assert_eq!(p.video_tracks[0].items[0].group_id, Some(9));
    assert!(!set_item_address_group_id(&mut p, &address(TrackKind::Video, 10, 77), Some(9)));
}

#[test]
fn expansion_takes_in_group_partners() {
    let p = sample();
    let expanded = expand_grouped_item_addresses(&p, &vec![address(TrackKind::Video, 10, 2)]);
    assert_eq!(expanded, vec![address(TrackKind::Video, 10, 2), address(TrackKind::Audio, 20, 4)]);
    let single = expand_grouped_item_addresses(&p, &vec![address(TrackKind::Video, 10, 1), address(TrackKind::Video, 10, 1)]);
    assert_eq!(single, vec![address(TrackKind::Video, 10, 1)]);
    let missing = expand_grouped_item_addresses(&p, &vec![address(TrackKind::Video, 10, 55)]);
    assert!(missing.is_empty());
    let ordered = expand_grouped_item_addresses(&p, &vec![address(TrackKind::Audio, 20, 4), address(TrackKind::Video, 10, 1)]);
    assert_eq!(
        ordered,
        vec![address(TrackKind::Video, 10, 2), address(TrackKind::Audio, 20, 4), address(TrackKind::Video, 10, 1)]
    );
}

#[test]
fn expansion_of_keys() {
    let p = sample();
    let keys = expand_grouped_selection(&p, &vec![ItemKey { kind: TrackKind::Audio, track_index: 0, item_index: 1 }]);
    assert_eq!(
        keys,
        vec![
            ItemKey { kind: TrackKind::Video, track_index: 0, item_index: 1 },
            ItemKey { kind: TrackKind::Audio, track_index: 0, item_index: 1 },
        ]
    );
}

#[test]
fn grouping_gives_a_fresh_group() {
    let mut p = sample();
    let selection = vec![address(TrackKind::Video, 10, 1), address(TrackKind::Audio, 20, 3), address(TrackKind::Audio, 20, 3)];
    let grouped = group_item_addresses(&mut p, &selection).unwrap();
    assert_eq!(grouped, vec![address(TrackKind::Video, 10, 1), address(TrackKind::Audio, 20, 3)]);
    assert_eq!(p.video_tracks[0].items[0].group_id, Some(5));
    assert_eq!(p.audio_tracks[0].items[0].group_id, Some(5));
    assert_eq!(p.video_tracks[0].items[1].group_id, Some(4));
}

#[test]
fn grouping_one_item_does_nothing() {
    let mut p = sample();
    let selection = vec![address(TrackKind::Video, 10, 1), address(TrackKind::Video, 10, 1), address(TrackKind::Video, 10, 9)];
    assert!(group_item_addresses(&mut p, &selection).is_none());
    assert_eq!(p.video_tracks[0].items[0].group_id, None);
}

#[test]
fn ungrouping_clears_the_whole_group() {
    let mut p = sample();
    let ungrouped = ungroup_item_addresses(&mut p, &vec![address(TrackKind::Audio, 20, 4)]).unwrap();
    assert_eq!(ungrouped.len(), 2);
    assert_eq!(p.video_tracks[0].items[1].group_id, None);
    assert_eq!(p.audio_tracks[0].items[1].group_id, None);
    assert!(ungroup_item_addresses(&mut p, &vec![address(TrackKind::Audio, 20, 4)]).is_none());
}

#[test]
fn grouping_by_selection_needs_a_first_item() {
    let mut p = sample();
    assert!(group_selected_item_addresses(&mut p, &Vec::new()).is_none());
    let missing_first = vec![address(TrackKind::Video, 10, 99), address(TrackKind::Video, 10, 1), address(TrackKind::Audio, 20, 3)];
    assert!(group_selected_item_addresses(&mut p, &missing_first).is_none());
    assert_eq!(p.video_tracks[0].items[0].group_id, None);
    let selection = vec![address(TrackKind::Video, 10, 1), address(TrackKind::Audio, 20, 3)];
    assert!(group_selected_item_addresses(&mut p, &selection).is_some());
    assert_eq!(p.audio_tracks[0].items[0].group_id, Some(5));
    assert!(ungroup_selected_item_addresses(&mut p, &selection).is_some());
    assert_eq!(p.audio_tracks[0].items[0].group_id, None);
    assert!(ungroup_selected_item_addresses(&mut p, &Vec::new()).is_none());
}

// ----- folding -----

fn fold_ids() -> FoldIds {
    FoldIds {
        sequence_id: 1000,
        instance_id: 1001,
        video_item_id: 2000,
        audio_item_id: 2001,
        video_track_id: 3000,
        audio_track_id: 3001,
        nested_video_track_ids: vec![4000, 4001],
        nested_audio_track_ids: vec![5000, 5001],
    }
}

fn fold_project() -> Project {
    project(vec![track(10, vec![video(1, 10, 20, None)])], vec![track(20, vec![audio(2, 15, 30, None)])])
}

fn keys() -> Vec<ItemKey> {
    vec![
        ItemKey { kind: TrackKind::Video, track_index: 0, item_index: 0 },
        ItemKey { kind: TrackKind::Audio, track_index: 0, item_index: 0 },
    ]
}

#[test]
fn folding_moves_items_into_a_sequence() {
    let mut p = fold_project();
    let selection = fold_items_with_ids(&mut p, &keys(), &fold_ids()).unwrap();
    assert_eq!(selection, keys());
    assert_eq!(p.folded_sequences.len(), 1);
    let sequence = &p.folded_sequences[0];
    assert_eq!(sequence.id, 1000);
    assert_eq!(sequence.video_tracks.len(), 1);
    assert_eq!(sequence.video_tracks[0].id, 4000);
    assert_eq!(sequence.video_tracks[0].items, vec![video(1, 0, 10, None)]);
    assert_eq!(sequence.audio_tracks[0].id, 5000);
    assert_eq!(sequence.audio_tracks[0].items, vec![audio(2, 5, 20, None)]);
    let reference = SequenceReference { sequence_id: 1000, instance_id: 1001 };
    assert_eq!(
        p.video_tracks[0].items,
        vec![Item {
            id: 2000,
            start: 10,
            end: 30,
            group_id: Some(0),
            payload: ItemPayload::Video(VideoItemContent::FoldedSequence(reference)),
        }]
    );
    assert_eq!(
        p.audio_tracks[0].items,
        vec![Item {
            id: 2001,
            start: 10,
            end: 30,
            group_id: Some(0),
            payload: ItemPayload::Audio(AudioSource::FoldedSequence(reference)),
        }]
    );
}

#[test]
fn folding_opens_a_track_where_the_span_is_taken() {
    let mut p = project(
        vec![track(10, vec![video(1, 10, 20, None), video(3, 20, 25, None)])],
        vec![track(20, vec![audio(2, 15, 30, None)])],
    );
    let selection = fold_items_with_ids(&mut p, &keys(), &fold_ids()).unwrap();
    assert_eq!(selection, keys());
    assert_eq!(p.video_tracks.len(), 2);
    assert_eq!(p.video_tracks[0].id, 3000);
    assert_eq!(p.video_tracks[0].items.len(), 1);
    assert_eq!(p.video_tracks[0].items[0].id, 2000);
    assert_eq!(p.video_tracks[1].id, 10);
    assert_eq!(p.video_tracks[1].items, vec![video(3, 20, 25, None)]);
}

#[test]
fn folding_one_kind_makes_no_group() {
    let mut p = project(vec![track(10, vec![video(1, 10, 20, None), video(3, 30, 35, None)])], Vec::new());
    let selected = vec![
        ItemKey { kind: TrackKind::Video, track_index: 0, item_index: 1 },
        ItemKey { kind: TrackKind::Video, track_index: 0, item_index: 0 },
    ];
    let selection = fold_items_with_ids(&mut p, &selected, &fold_ids()).unwrap();
    assert_eq!(selection, vec![ItemKey { kind: TrackKind::Video, track_index: 0, item_index: 0 }]);
    assert_eq!(p.video_tracks[0].items.len(), 1);
    assert_eq!(p.video_tracks[0].items[0].start, 10);
    assert_eq!(p.video_tracks[0].items[0].end, 35);
    assert_eq!(p.video_tracks[0].items[0].group_id, None);
    assert_eq!(p.folded_sequences[0].video_tracks[0].items, vec![video(1, 0, 10, None), video(3, 20, 25, None)]);
}

#[test]
fn folding_refuses_bad_selections() {
    let mut p = fold_project();
    let one = vec![ItemKey { kind: TrackKind::Video, track_index: 0, item_index: 0 }];
    assert!(fold_items_with_ids(&mut p, &one, &fold_ids()).is_none());
    let twice = vec![one[0], one[0]];
    assert!(fold_items_with_ids(&mut p, &twice, &fold_ids()).is_none());
    let missing = vec![one[0], ItemKey { kind: TrackKind::Audio, track_index: 3, item_index: 0 }];
    assert!(fold_items_with_ids(&mut p, &missing, &fold_ids()).is_none());
    let caption = vec![one[0], ItemKey { kind: TrackKind::Caption, track_index: 0, item_index: 0 }];
    assert!(fold_items_with_ids(&mut p, &caption, &fold_ids()).is_none());
    assert!(p.folded_sequences.is_empty());
    assert_eq!(p.video_tracks[0].items, vec![video(1, 10, 20, None)]);
}

#[test]
fn folding_needs_some_time_covered() {
    let mut p = project(vec![track(10, vec![video(1, 10, 10, None), video(2, 10, 10, None)])], Vec::new());
    let selected = vec![
        ItemKey { kind: TrackKind::Video, track_index: 0, item_index: 0 },
        ItemKey { kind: TrackKind::Video, track_index: 0, item_index: 1 },
    ];
    assert!(fold_items_with_ids(&mut p, &selected, &fold_ids()).is_none());
}

#[test]
fn folding_with_fresh_ids() {
    let mut p = fold_project();
    let selection = fold_items(&mut p, &keys()).unwrap();
    assert_eq!(selection, keys());
    let proxy = p.video_tracks[0].items[0];
    assert_ne!(proxy.id, 1);
    assert_eq!((proxy.start, proxy.end), (10, 30));
    match proxy.payload {
        ItemPayload::Video(VideoItemContent::FoldedSequence(reference)) => {
            assert_eq!(reference.sequence_id, p.folded_sequences[0].id);
        },
        _ => panic!("the folded item plays the sequence"),
    }
}

#[test]
fn setting_a_group_changes_only_that_item() {
    let mut p = sample();
    p.set_group_at(ItemKey { kind: TrackKind::Audio, track_index: 0, item_index: 0 }, Some(9));
    assert_eq!(p.audio_tracks[0].items[0], audio(3, 0, 10, Some(9)));
    assert_eq!(p.audio_tracks[0].items[1], audio(4, 10, 20, Some(4)));
    assert_eq!(p.video_tracks[0].items[1], video(2, 10, 20, Some(4)));
    p.set_group_at(ItemKey { kind: TrackKind::Video, track_index: 0, item_index: 1 }, None);
    assert_eq!(p.video_tracks[0].items[1], video(2, 10, 20, None));
}
