use timeline_editing::model::{
    AudioSource, CanvasSize, Fraction, Item, ItemKey, ItemPayload, Project, Track, TrackKey, TrackKind,
    VideoItemContent,
};
use timeline_editing::transcription::{
    absorb_short_chunks, chunk_intervals, continuous_intervals, cut_points, selected_audio_project, snap_segments_to_cuts,
    snap_time_to_cut, TranscribedSegment,
};

#[test]
fn cut_points_are_sorted_and_unique() {
    assert_eq!(cut_points(vec![(10, 20), (5, 10), (30, 40)]), vec![5, 10, 20, 30, 40]);
    assert_eq!(cut_points(Vec::new()), Vec::<u64>::new());
}

#[test]
fn chunks_merge_overlapping_intervals() {
    let chunks = chunk_intervals(vec![(30, 40), (10, 20), (15, 25), (25, 28), (50, 50)]);
    assert_eq!(chunks, vec![(10, 25), (25, 28), (30, 40)]);
}

#[test]
fn continuous_runs_join_touching_chunks() {
    assert_eq!(continuous_intervals(vec![(10, 25), (25, 28), (30, 40)]), vec![(10, 28), (30, 40)]);
    assert_eq!(continuous_intervals(Vec::new()), Vec::<(u64, u64)>::new());
}

#[test]
fn times_snap_to_the_closest_cut_within_tolerance() {
    let cuts = vec![100, 105, 200];
    assert_eq!(snap_time_to_cut(103, &cuts, 5), 105);
    assert_eq!(snap_time_to_cut(150, &cuts, 5), 150);
    assert_eq!(snap_time_to_cut(100, &vec![98, 102], 5), 98);
    assert_eq!(snap_time_to_cut(100, &Vec::new(), 5), 100);
}

#[test]
fn segments_snap_both_ends() {
    let mut segments = vec![
        TranscribedSegment { start: 98, end: 151, text: String::from("hello") },
        TranscribedSegment { start: 300, end: 310, text: String::from("world") },
    ];
    snap_segments_to_cuts(&mut segments, &vec![100, 150], 3);
    assert_eq!((segments[0].start, segments[0].end), (100, 150));
    assert_eq!((segments[1].start, segments[1].end), (300, 310));
    assert_eq!(segments[0].text, "hello");
    snap_segments_to_cuts(&mut segments, &vec![300], 0);
    assert_eq!((segments[1].start, segments[1].end), (300, 310));
    snap_segments_to_cuts(&mut segments, &vec![302], 2);
    assert_eq!((segments[1].start, segments[1].end), (302, 310));
}

#[test]
fn short_chunks_join_a_neighbour() {
    assert_eq!(absorb_short_chunks(vec![(0, 10), (10, 12), (12, 30)], 15), vec![(0, 12), (12, 30)]);
    assert_eq!(absorb_short_chunks(vec![(0, 4), (4, 6), (6, 9)], 5), vec![(0, 4), (4, 9)]);
    assert_eq!(absorb_short_chunks(vec![(0, 10), (10, 12), (12, 30)], 5), vec![(0, 10), (10, 12), (12, 30)]);
    assert_eq!(absorb_short_chunks(vec![(0, 1), (2, 3)], 0), vec![(0, 1), (2, 3)]);
    assert_eq!(absorb_short_chunks(vec![(0, 1)], 10), vec![(0, 1)]);
}

fn audio(id: u128, start: u64, end: u64) -> Item {
    Item { id, start, end, group_id: None, payload: ItemPayload::Audio(AudioSource::Media) }
}

fn track(id: u128, items: Vec<Item>) -> Track {
    Track { id, enabled: true, unity_gain: true, items }
}

fn project() -> Project {
    Project {
        canvas_size: CanvasSize { width: 1920, height: 1080 },
        fps: Fraction { numerator: 30, denominator: 1 },
        caption_tracks: Vec::new(),
        video_tracks: vec![track(9, vec![Item {
            id: 90,
            start: 0,
            end: 100,
            group_id: None,
            payload: ItemPayload::Video(VideoItemContent::Media),
        }])],
        audio_tracks: vec![track(1, vec![audio(10, 0, 10), audio(11, 20, 30)]), track(2, vec![audio(20, 5, 15)])],
        folded_sequences: Vec::new(),
    }
}

#[test]
fn selected_audio_items_are_transcribed() {
    let selected = vec![ItemKey { kind: TrackKind::Audio, track_index: 0, item_index: 1 }];
    let result = selected_audio_project(&project(), &selected, &Vec::new()).unwrap();
    assert_eq!((result.start, result.end), (20, 30));
    assert_eq!(result.chunks, vec![(20, 30)]);
    assert_eq!(result.audio_cut_points, vec![20, 30]);
    assert_eq!(result.video_cut_points, vec![0, 100]);
    assert_eq!(result.project.audio_tracks.len(), 2);
    assert_eq!(result.project.audio_tracks[0].items, vec![audio(11, 20, 30)]);
    assert!(result.project.audio_tracks[1].items.is_empty());
    assert!(result.project.video_tracks.is_empty());
}

#[test]
fn selected_audio_tracks_take_all_their_items() {
    let tracks = vec![TrackKey { kind: TrackKind::Audio, track_index: 1 }, TrackKey { kind: TrackKind::Video, track_index: 0 }];
    let items = vec![ItemKey { kind: TrackKind::Audio, track_index: 0, item_index: 0 }];
    let result = selected_audio_project(&project(), &items, &tracks).unwrap();
    assert_eq!((result.start, result.end), (5, 15));
    assert!(result.project.audio_tracks[0].items.is_empty());
    assert_eq!(result.project.audio_tracks[1].items, vec![audio(20, 5, 15)]);
}

#[test]
fn nothing_selected_is_none() {
    assert!(selected_audio_project(&project(), &Vec::new(), &Vec::new()).is_none());
    let video_only = vec![ItemKey { kind: TrackKind::Video, track_index: 0, item_index: 0 }];
    assert!(selected_audio_project(&project(), &video_only, &Vec::new()).is_none());
}

#[test]
fn continuous_runs_are_separated_and_settled() {
    let runs = continuous_intervals(vec![(0, 5), (5, 8), (7, 9), (10, 12)]);
    assert_eq!(runs, vec![(0, 9), (10, 12)]);
    assert_eq!(continuous_intervals(runs.clone()), runs);
}

#[test]
fn absorbed_chunks_keep_their_cover() {
    let absorbed = absorb_short_chunks(vec![(0, 2), (2, 3), (3, 20), (30, 31)], 5);
    assert_eq!(absorbed, vec![(0, 3), (3, 20), (30, 31)]);
}
