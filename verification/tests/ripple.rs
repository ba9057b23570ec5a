use timeline_editing::collections::IndexSet;
use timeline_editing::model::{Item, ItemPayload};
use timeline_editing::ripple::{
    kept_segment_index, ripple_intervals_from_ranges, ripple_position_shift, ripple_total_shift,
    ripple_track_items, ripple_track_ranges, ripple_track_shift_limit, RippleInterval,
};
use timeline_editing::sorting::{insert_sorted, sort_pairs_by_start, sort_pairs_lex};

fn item(id: u128, start: u64, end: u64) -> Item {
    Item { id, start, end, group_id: None, payload: ItemPayload::Caption }
}

fn interval(start: u64, end: u64) -> RippleInterval {
    RippleInterval { start, end }
}

#[test]
fn ranges_merge_into_separated_intervals() {
    let ranges = vec![(40, 50), (10, 20), (15, 30), (50, 60), (70, 70)];
    let intervals = ripple_intervals_from_ranges(&ranges);
    assert_eq!(intervals, vec![interval(10, 30), interval(40, 60)]);
}

#[test]
fn empty_and_reversed_ranges_vanish() {
    assert!(ripple_intervals_from_ranges(&vec![(5, 5), (9, 3)]).is_empty());
    assert!(ripple_intervals_from_ranges(&Vec::new()).is_empty());
}

#[test]
fn position_shift_counts_removed_time_before() {
    let intervals = vec![interval(10, 30), interval(40, 60)];
    assert_eq!(ripple_position_shift(&intervals, 5), 0);
    assert_eq!(ripple_position_shift(&intervals, 10), 0);
    assert_eq!(ripple_position_shift(&intervals, 20), 10);
    assert_eq!(ripple_position_shift(&intervals, 35), 20);
    assert_eq!(ripple_position_shift(&intervals, 50), 30);
    assert_eq!(ripple_position_shift(&intervals, 100), 40);
}

#[test]
fn position_shift_never_exceeds_the_total() {
    let intervals = vec![interval(10, 30), interval(40, 60)];
    let total = ripple_total_shift(&intervals);
    assert_eq!(total, 40);
    let mut previous = 0;
    for position in [0u64, 10, 15, 30, 45, 60, 1000] {
        let shift = ripple_position_shift(&intervals, position);
        assert!(shift <= total);
        assert!(shift >= previous);
        previous = shift;
    }
    assert_eq!(ripple_total_shift(&Vec::new()), 0);
}

#[test]
fn kept_segments_are_counted_from_the_start() {
    let intervals = vec![interval(10, 30), interval(40, 60)];
    assert_eq!(kept_segment_index(&intervals, 5), 0);
    assert_eq!(kept_segment_index(&intervals, 29), 0);
    assert_eq!(kept_segment_index(&intervals, 30), 1);
    assert_eq!(kept_segment_index(&intervals, 59), 1);
    assert_eq!(kept_segment_index(&intervals, 60), 2);
}

#[test]
fn unselected_ranges_of_a_track() {
    let items = vec![item(1, 0, 10), item(2, 10, 20), item(3, 20, 30)];
    let selected = IndexSet::from_indices(&vec![1]);
    assert!(selected.has(1));
    assert!(!selected.has(0));
    assert_eq!(ripple_track_ranges(&items, &selected), vec![(0, 10), (20, 30)]);
}

#[test]
fn deleting_an_item_closes_its_gap() {
    let mut items = vec![item(1, 0, 10), item(2, 10, 20), item(3, 20, 30), item(4, 40, 50)];
    let selected = IndexSet::from_indices(&vec![1]);
    let intervals = vec![interval(10, 20)];
    let limit = ripple_track_shift_limit(&items, &selected, &intervals, 10);
    assert_eq!(limit, 10);
    let changed = ripple_track_items(&mut items, &selected, &intervals, limit);
    assert!(changed);
    assert_eq!(items, vec![item(1, 0, 10), item(3, 10, 20), item(4, 30, 40)]);
}

#[test]
fn the_limit_stops_at_an_item_that_stays() {
    let mut items = vec![item(1, 0, 10), item(2, 12, 30)];
    let none = IndexSet::from_indices(&Vec::new());
    let intervals = vec![interval(5, 25)];
    let limit = ripple_track_shift_limit(&items, &none, &intervals, 20);
    assert_eq!(limit, 2);
    let changed = ripple_track_items(&mut items, &none, &intervals, limit);
    assert!(changed);
    assert_eq!(items, vec![item(1, 0, 10), item(2, 10, 28)]);
}

#[test]
fn nothing_to_move_means_no_change() {
    let mut items = vec![item(1, 0, 10), item(2, 12, 30)];
    let none = IndexSet::from_indices(&Vec::new());
    let intervals = vec![interval(40, 50)];
    let limit = ripple_track_shift_limit(&items, &none, &intervals, 10);
    assert_eq!(limit, 10);
    assert!(!ripple_track_items(&mut items, &none, &intervals, limit));
    assert_eq!(items, vec![item(1, 0, 10), item(2, 12, 30)]);
}

#[test]
fn sorting_helpers_keep_order() {
    assert_eq!(sort_pairs_by_start(&vec![(5, 1), (2, 9), (5, 0), (1, 1)]), vec![(1, 1), (2, 9), (5, 1), (5, 0)]);
    assert_eq!(sort_pairs_lex(&vec![(5, 1), (2, 9), (5, 0), (1, 1)]), vec![(1, 1), (2, 9), (5, 0), (5, 1)]);
    let mut items = vec![item(1, 0, 5), item(2, 10, 15)];
    assert_eq!(insert_sorted(&mut items, item(3, 10, 12)), 2);
    assert_eq!(insert_sorted(&mut items, item(4, 3, 4)), 1);
    assert_eq!(items, vec![item(1, 0, 5), item(4, 3, 4), item(2, 10, 15), item(3, 10, 12)]);
}

#[test]
fn position_shift_walks_unordered_intervals_as_given() {
    let intervals = vec![interval(20, 30), interval(5, 10)];
    assert_eq!(ripple_position_shift(&intervals, 25), 5);
    assert_eq!(ripple_position_shift(&intervals, 40), 15);
    assert_eq!(ripple_position_shift(&intervals, 10), 0);
}

#[test]
fn total_shift_skips_reversed_intervals_and_saturates() {
    assert_eq!(ripple_total_shift(&vec![interval(10, 5), interval(0, 3)]), 3);
    assert_eq!(ripple_total_shift(&vec![interval(0, u64::MAX), interval(0, 10)]), u64::MAX);
}
