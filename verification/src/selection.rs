//! Cutting the items under the pointer, with their groups.

use vstd::prelude::*;

use crate::grouping::{expand_grouped_item_addresses, in_expansion};
use crate::model::{ItemAddress, Project, Time, Track, TrackKind};
use crate::tracks::{TrackRow, rows, timeline_rows};

verus! {

/// A pending cut: the item under the pointer, the time, and every item the
/// cut splits, ordered by track and item id.
#[derive(Clone, Debug)]
pub struct TimelineCut {
    pub key: ItemAddress,
    pub time: Time,
    pub keys: Vec<ItemAddress>,
}

/// Addresses ordered by track id, then item id.
pub open spec fn address_le(a: ItemAddress, b: ItemAddress) -> bool {
    a.track_id < b.track_id || (a.track_id == b.track_id && a.item_id <= b.item_id)
}

/// Addresses in order of track id, then item id.
pub open spec fn addresses_ordered(s: Seq<ItemAddress>) -> bool {
    forall|i: int, j: int| 0 <= i < j < s.len() ==> address_le(#[trigger] s[i], #[trigger] s[j])
}

/// Inserts an address after every address that does not come after it.
fn insert_ordered(list: &mut Vec<ItemAddress>, address: ItemAddress)
    requires
        addresses_ordered(old(list)@),
    ensures
        addresses_ordered(final(list)@),
        forall|a: ItemAddress| #[trigger] final(list)@.contains(a) <==> (old(list)@.contains(a) || a == address),
        final(list)@.len() == old(list)@.len() + 1,
        final(list)@.to_multiset() == old(list)@.to_multiset().insert(address),
{
    let mut p: usize = 0;
    while p < list.len() && (list[p].track_id < address.track_id || (list[p].track_id == address.track_id
        && list[p].item_id <= address.item_id))
        invariant
            p <= list@.len(),
            list@ == old(list)@,
            forall|k: int| 0 <= k < p ==> address_le(#[trigger] list@[k], address),
        decreases list@.len() - p,
    {
        p = p + 1;
    }
    let ghost prev = list@;
    list.insert(p, address);
    proof {
        assert(list@ == prev.insert(p as int, address));
        crate::sorting::lemma_insert_multiset(prev, p as int, address);
        assert forall|i: int, j: int| 0 <= i < j < list@.len() implies address_le(#[trigger] list@[i], #[trigger] list@[j]) by {
            if j < p {
            } else if j == p {
            } else if i < p {
                assert(list@[j] == prev[j - 1]);
                assert(!address_le(prev[p as int], address));
                assert(address_le(prev[p as int], prev[j - 1]));
            } else if i == p {
                assert(list@[j] == prev[j - 1]);
                assert(!address_le(prev[p as int], address));
                assert(address_le(prev[p as int], prev[j - 1]));
            } else {
            }
        }
        assert forall|a: ItemAddress| #[trigger] list@.contains(a) <==> (prev.contains(a) || a == address) by {
            if list@.contains(a) {
                let k = choose|k: int| 0 <= k < list@.len() && list@[k] == a;
                if k < p {
                    assert(prev[k] == a);
                } else if k > p {
                    assert(prev[k - 1] == a);
                }
            }
            if prev.contains(a) {
                let k = choose|k: int| 0 <= k < prev.len() && prev[k] == a;
                if k < p {
                    assert(list@[k] == a);
                } else {
                    assert(list@[k + 1] == a);
                }
            }
            if a == address {
                assert(list@[p as int] == a);
            }
        }
    }
}

/// The items a cut at `key` splits: where the selection holds `key`, the
/// selection with its groups; else `key` with its group.
pub open spec fn cut_seed(selected: Seq<ItemAddress>, key: ItemAddress) -> Seq<ItemAddress> {
    if selected.contains(key) { selected } else { seq![key] }
}

/// Prepares a cut at `key`: the item and every item grouped with it (or, where
/// the selection holds it, the whole selection with its groups), each once,
/// ordered by track id and item id.
pub fn timeline_cut(project: &Project, selected_items: &Vec<ItemAddress>, key: ItemAddress, time: Time) -> (r: TimelineCut)
    requires
        project.item_at_address(key) is Some,
    ensures
        r.key == key,
        r.time == time,
        addresses_ordered(r.keys@),
        r.keys@.no_duplicates(),
        forall|a: ItemAddress|
            #[trigger] r.keys@.contains(a) <==> (a == key || in_expansion(*project, cut_seed(selected_items@, key), a)),
{
    let mut seed: Vec<ItemAddress> = Vec::new();
    let mut contains_key = false;
    let mut i: usize = 0;
    while i < selected_items.len()
        invariant
            i <= selected_items@.len(),
            contains_key == exists|m: int| 0 <= m < i && selected_items@[m] == key,
        decreases selected_items@.len() - i,
    {
        if selected_items[i] == key {
            contains_key = true;
        }
        i = i + 1;
    }
    let expanded = if contains_key {
        expand_grouped_item_addresses(project, selected_items)
    } else {
        seed.push(key);
        proof {
            assert(seed@ == seq![key]);
        }
        expand_grouped_item_addresses(project, &seed)
    };
    proof {
        assert(contains_key == selected_items@.contains(key));
    }
    let mut keys: Vec<ItemAddress> = Vec::new();
    proof {
        assert(keys@ =~= expanded@.subrange(0, 0));
    }
    let mut j: usize = 0;
    while j < expanded.len()
        invariant
            j <= expanded@.len(),
            expanded@.no_duplicates(),
            addresses_ordered(keys@),
            keys@.to_multiset() == expanded@.subrange(0, j as int).to_multiset(),
            forall|a: ItemAddress| #[trigger] keys@.contains(a) <==> expanded@.subrange(0, j as int).contains(a),
        decreases expanded@.len() - j,
    {
        let ghost prior = keys@;
        insert_ordered(&mut keys, expanded[j]);
        proof {
            expanded@.subrange(0, j as int).to_multiset_ensures();
            let pre = expanded@.subrange(0, j as int);
            let post = expanded@.subrange(0, j + 1);
            assert(post == pre.push(expanded@[j as int]));
            assert forall|a: ItemAddress| #[trigger] keys@.contains(a) <==> post.contains(a) by {
                if post.contains(a) {
                    let k = choose|k: int| 0 <= k < post.len() && post[k] == a;
                    if k < j {
                        assert(pre[k] == a);
                        assert(prior.contains(a));
                    }
                }
                if pre.contains(a) {
                    let k = choose|k: int| 0 <= k < pre.len() && pre[k] == a;
                    assert(post[k] == a);
                }
                assert(post[j as int] == expanded@[j as int]);
            }
        }
        j = j + 1;
    }
    proof {
        assert(expanded@.subrange(0, expanded@.len() as int) == expanded@);
    }
    let mut has_key = false;
    let mut m: usize = 0;
    while m < expanded.len()
        invariant
            m <= expanded@.len(),
            has_key == exists|q: int| 0 <= q < m && expanded@[q] == key,
        decreases expanded@.len() - m,
    {
        if expanded[m] == key {
            has_key = true;
        }
        m = m + 1;
    }
    proof {
        assert(has_key == expanded@.contains(key));
    }
    let ghost before = keys@;
    if !has_key {
        insert_ordered(&mut keys, key);
        proof {
            before.to_multiset_ensures();
            expanded@.to_multiset_ensures();
            assert(expanded@.push(key).no_duplicates()) by {
                assert forall|x: int, y: int| 0 <= x < y < expanded@.push(key).len() implies expanded@.push(key)[x]
                    != expanded@.push(key)[y] by {
                    if y == expanded@.len() {
                        assert(expanded@.contains(expanded@[x]));
                    }
                }
            }
            assert(keys@.to_multiset() == expanded@.push(key).to_multiset());
        }
    }
    proof {
        // Keys hold the same multiset as a list without duplicates.
        let source = if has_key { expanded@ } else { expanded@.push(key) };
        if has_key {
            assert(keys@.to_multiset() == expanded@.to_multiset());
        } else {
            assert(source.no_duplicates()) by {
                assert forall|x: int, y: int| 0 <= x < y < source.len() implies source[x] != source[y] by {
                    if y == expanded@.len() {
                        assert(expanded@.contains(expanded@[x]));
                    }
                }
            }
        }
        assert(keys@.to_multiset() == source.to_multiset());
        lemma_no_duplicates_from_multiset(keys@, source);
    }
    TimelineCut { key, time, keys }
}

/// A list with the same multiset as a list without duplicates has none.
proof fn lemma_no_duplicates_from_multiset(a: Seq<ItemAddress>, b: Seq<ItemAddress>)
    requires
        a.to_multiset() == b.to_multiset(),
        b.no_duplicates(),
    ensures
        a.no_duplicates(),
{
    b.unique_seq_to_set();
    a.to_multiset_ensures();
    b.to_multiset_ensures();
    assert forall|x: int, y: int| 0 <= x < y < a.len() implies a[x] != a[y] by {
        if a[x] == a[y] {
            let v = a[x];
            assert(a.remove(x).contains(v)) by {
                assert(a.remove(x)[y - 1] == v);
            }
            a.remove(x).to_multiset_ensures();
            assert(a.to_multiset().count(v) >= 2) by {
                assert(a.remove(x).to_multiset() == a.to_multiset().remove(v));
                assert(a.remove(x).to_multiset().count(v) > 0);
            }
            assert(b.to_multiset().count(v) <= 1) by {
                lemma_count_no_dup(b, v);
            }
        }
    }
}

proof fn lemma_count_no_dup(b: Seq<ItemAddress>, v: ItemAddress)
    requires
        b.no_duplicates(),
    ensures
        b.to_multiset().count(v) <= 1,
    decreases b.len(),
{
    broadcast use vstd::multiset::group_multiset_axioms;
    if b.len() == 0 {
        b.to_multiset_ensures();
        assert(b.to_multiset().len() == 0);
    }
    if b.len() > 0 {
        let d = b.drop_last();
        assert(d.no_duplicates()) by {
            assert forall|x: int, y: int| 0 <= x < y < d.len() implies d[x] != d[y] by {
                assert(d[x] == b[x] && d[y] == b[y]);
            }
        }
        lemma_count_no_dup(d, v);
        d.to_multiset_ensures();
        assert(b == d.push(b.last()));
        if b.last() == v {
            assert(!d.contains(v)) by {
                if d.contains(v) {
                    let k = choose|k: int| 0 <= k < d.len() && d[k] == v;
                    assert(b[k] == b[b.len() - 1]);
                }
            }
        }
    }
}

// ----- rectangle selection -----

/// The addresses of the items of a track that touch the closed range
/// `[low, high]`, among its first `k` items, in track order.
pub open spec fn touching_addresses(kind: TrackKind, track: Track, low: Time, high: Time, k: int) -> Seq<ItemAddress>
    decreases k,
{
    if k <= 0 {
        Seq::empty()
    } else {
        let prev = touching_addresses(kind, track, low, high, k - 1);
        let item = track.items@[k - 1];
        if item.start <= high && item.end >= low {
            prev.push(ItemAddress { kind: kind, track_id: track.id, item_id: item.id })
        } else {
            prev
        }
    }
}

/// The addresses that a rectangle over the rows `hits` (by row number)
/// spanning `[low, high]` selects, among the first `k` rows: row by row from
/// the top, the touching items of each row's track.
pub open spec fn rectangle_addresses(project: Project, rows: Seq<TrackRow>, hits: Seq<bool>, low: Time, high: Time, k: int) -> Seq<ItemAddress>
    decreases k,
{
    if k <= 0 {
        Seq::empty()
    } else {
        let prev = rectangle_addresses(project, rows, hits, low, high, k - 1);
        let row = rows[k - 1];
        if k - 1 < hits.len() && hits[k - 1] && row.root_key is Some {
            let key = row.root_key.unwrap();
            let tracks = project.tracks_of(key.kind);
            if key.track_index < tracks.len() {
                let track = tracks[key.track_index as int];
                prev + touching_addresses(key.kind, track, low, high, track.items@.len() as int)
            } else {
                prev
            }
        } else {
            prev
        }
    }
}

/// Whether row `j` is hit, shows a root track, and item `i` of that track has
/// the address `a` and reaches into the closed span `[low, high]`: it starts
/// no later than `high` and ends no earlier than `low`.
pub open spec fn row_item_in_span(
    project: Project,
    rows: Seq<TrackRow>,
    hits: Seq<bool>,
    low: Time,
    high: Time,
    j: int,
    i: int,
    a: ItemAddress,
) -> bool {
    &&& 0 <= j < rows.len()
    &&& j < hits.len()
    &&& hits[j]
    &&& rows[j].root_key matches Some(key) && {
        let tracks = project.tracks_of(key.kind);
        &&& key.track_index < tracks.len()
        &&& 0 <= i < tracks[key.track_index as int].items@.len()
        &&& a == ItemAddress {
            kind: key.kind,
            track_id: tracks[key.track_index as int].id,
            item_id: tracks[key.track_index as int].items@[i].id,
        }
        &&& tracks[key.track_index as int].items@[i].start <= high
        &&& tracks[key.track_index as int].items@[i].end >= low
    }
}

proof fn lemma_touching_members(kind: TrackKind, track: Track, low: Time, high: Time, k: int)
    requires
        0 <= k <= track.items@.len(),
    ensures
        forall|a: ItemAddress|
            #[trigger] touching_addresses(kind, track, low, high, k).contains(a) <==> exists|i: int|
                0 <= i < k && a == (ItemAddress { kind: kind, track_id: track.id, item_id: track.items@[i].id })
                    && #[trigger] track.items@[i].start <= high && track.items@[i].end >= low,
    decreases k,
{
    if k > 0 {
        lemma_touching_members(kind, track, low, high, k - 1);
        let prev = touching_addresses(kind, track, low, high, k - 1);
        let item = track.items@[k - 1];
        let x = ItemAddress { kind: kind, track_id: track.id, item_id: item.id };
        assert forall|a: ItemAddress|
            #[trigger] touching_addresses(kind, track, low, high, k).contains(a) <==> exists|i: int|
                0 <= i < k && a == (ItemAddress { kind: kind, track_id: track.id, item_id: track.items@[i].id })
                    && #[trigger] track.items@[i].start <= high && track.items@[i].end >= low by {
            if item.start <= high && item.end >= low {
                assert(touching_addresses(kind, track, low, high, k) == prev.push(x));
                if prev.push(x).contains(a) && a != x {
                    let m = choose|m: int| 0 <= m < prev.push(x).len() && prev.push(x)[m] == a;
                    assert(prev[m] == a);
                }
                if prev.contains(a) {
                    let m = choose|m: int| 0 <= m < prev.len() && prev[m] == a;
                    assert(prev.push(x)[m] == a);
                }
                assert(prev.push(x)[prev.len() as int] == x);
            }
        }
    }
}

proof fn lemma_rectangle_members(project: Project, rows: Seq<TrackRow>, hits: Seq<bool>, low: Time, high: Time, k: int)
    requires
        0 <= k <= rows.len(),
    ensures
        forall|a: ItemAddress|
            #[trigger] rectangle_addresses(project, rows, hits, low, high, k).contains(a) <==> exists|j: int, i: int|
                j < k && #[trigger] row_item_in_span(project, rows, hits, low, high, j, i, a),
    decreases k,
{
    if k > 0 {
        lemma_rectangle_members(project, rows, hits, low, high, k - 1);
        let prev = rectangle_addresses(project, rows, hits, low, high, k - 1);
        let row = rows[k - 1];
        let out = rectangle_addresses(project, rows, hits, low, high, k);
        assert forall|a: ItemAddress|
            #[trigger] out.contains(a) <==> exists|j: int, i: int|
                j < k && #[trigger] row_item_in_span(project, rows, hits, low, high, j, i, a) by {
            let added = k - 1 < hits.len() && hits[k - 1] && row.root_key is Some && row.root_key.unwrap().track_index
                < project.tracks_of(row.root_key.unwrap().kind).len();
            if added {
                let key = row.root_key.unwrap();
                let track = project.tracks_of(key.kind)[key.track_index as int];
                let more = touching_addresses(key.kind, track, low, high, track.items@.len() as int);
                lemma_touching_members(key.kind, track, low, high, track.items@.len() as int);
                assert(out == prev + more);
                if out.contains(a) {
                    let m = choose|m: int| 0 <= m < out.len() && out[m] == a;
                    if m < prev.len() {
                        assert(prev[m] == a);
                        assert(prev.contains(a));
                    } else {
                        assert(more[m - prev.len()] == a);
                        assert(more.contains(a));
                        let i = choose|i: int|
                            0 <= i < track.items@.len() && a == (ItemAddress { kind: key.kind, track_id: track.id, item_id: track.items@[i].id })
                                && #[trigger] track.items@[i].start <= high && track.items@[i].end >= low;
                        assert(row_item_in_span(project, rows, hits, low, high, k - 1, i, a));
                    }
                }
                if exists|j: int, i: int| j < k && #[trigger] row_item_in_span(project, rows, hits, low, high, j, i, a) {
                    let (j, i) = choose|j: int, i: int| j < k && #[trigger] row_item_in_span(project, rows, hits, low, high, j, i, a);
                    if j < k - 1 {
                        assert(prev.contains(a));
                        let m = choose|m: int| 0 <= m < prev.len() && prev[m] == a;
                        assert(out[m] == a);
                    } else {
                        assert(track.items@[i].start <= high);
                        assert(more.contains(a));
                        let m = choose|m: int| 0 <= m < more.len() && more[m] == a;
                        assert(out[prev.len() + m] == a);
                    }
                }
            } else {
                assert(out == prev);
                if exists|j: int, i: int| j < k && #[trigger] row_item_in_span(project, rows, hits, low, high, j, i, a) {
                    let (j, i) = choose|j: int, i: int| j < k && #[trigger] row_item_in_span(project, rows, hits, low, high, j, i, a);
                    assert(j != k - 1);
                }
            }
        }
    }
}

/// A rectangle selection takes exactly the items on the rows it crosses that
/// reach into its time span: an item is selected if and only if its row is
/// hit and it starts no later than the later edge of the rectangle and ends
/// no earlier than the earlier edge.
pub proof fn law_rectangle_selects_the_items_in_its_span(
    project: Project,
    selection_start: Time,
    selection_end: Time,
    hits: Seq<bool>,
    a: ItemAddress,
)
    ensures
        rectangle_addresses(
            project,
            timeline_rows(project),
            hits,
            span_low(selection_start, selection_end),
            span_high(selection_start, selection_end),
            timeline_rows(project).len() as int,
        ).contains(a) <==> exists|j: int, i: int|
            #[trigger] row_item_in_span(
                project,
                timeline_rows(project),
                hits,
                span_low(selection_start, selection_end),
                span_high(selection_start, selection_end),
                j,
                i,
                a,
            ),
{
    let low = span_low(selection_start, selection_end);
    let high = span_high(selection_start, selection_end);
    let all = timeline_rows(project);
    lemma_rectangle_members(project, all, hits, low, high, all.len() as int);
    assert(rectangle_addresses(project, all, hits, low, high, all.len() as int).contains(a) <==> exists|j: int, i: int|
        j < all.len() && #[trigger] row_item_in_span(project, all, hits, low, high, j, i, a));
    if exists|j: int, i: int| #[trigger] row_item_in_span(project, all, hits, low, high, j, i, a) {
        let (j, i) = choose|j: int, i: int| #[trigger] row_item_in_span(project, all, hits, low, high, j, i, a);
        assert(j < all.len() && row_item_in_span(project, all, hits, low, high, j, i, a));
    }
}

/// The earlier edge of a selection span.
pub open spec fn span_low(selection_start: Time, selection_end: Time) -> Time {
    if selection_start <= selection_end { selection_start } else { selection_end }
}

/// The later edge of a selection span.
pub open spec fn span_high(selection_start: Time, selection_end: Time) -> Time {
    if selection_start <= selection_end { selection_end } else { selection_start }
}

/// Appends the addresses of the items of a track that touch `[low, high]`.
fn push_touching(selected: &mut Vec<ItemAddress>, kind: TrackKind, track: &Track, low: Time, high: Time)
    ensures
        final(selected)@ == old(selected)@ + touching_addresses(kind, *track, low, high, track.items@.len() as int),
        forall|a: ItemAddress|
            #[trigger] final(selected)@.contains(a) <==> old(selected)@.contains(a) || exists|i: int|
                0 <= i < track.items@.len() && a == (ItemAddress { kind: kind, track_id: track.id, item_id: track.items@[i].id })
                    && #[trigger] track.items@[i].start <= high && track.items@[i].end >= low,
{
    let ghost start = selected@;
    let mut i: usize = 0;
    while i < track.items.len()
        invariant
            i <= track.items@.len(),
            selected@ == start + touching_addresses(kind, *track, low, high, i as int),
        decreases track.items@.len() - i,
    {
        let item = track.items[i];
        if item.start <= high && item.end >= low {
            selected.push(ItemAddress { kind: kind, track_id: track.id, item_id: item.id });
        }
        i = i + 1;
    }
    proof {
        let more = touching_addresses(kind, *track, low, high, track.items@.len() as int);
        lemma_touching_members(kind, *track, low, high, track.items@.len() as int);
        assert forall|a: ItemAddress| #[trigger] selected@.contains(a) <==> start.contains(a) || more.contains(a) by {
            if selected@.contains(a) {
                let m = choose|m: int| 0 <= m < selected@.len() && selected@[m] == a;
                if m < start.len() {
                    assert(start[m] == a);
                } else {
                    assert(more[m - start.len()] == a);
                }
            }
            if start.contains(a) {
                let m = choose|m: int| 0 <= m < start.len() && start[m] == a;
                assert(selected@[m] == a);
            }
            if more.contains(a) {
                let m = choose|m: int| 0 <= m < more.len() && more[m] == a;
                assert(selected@[start.len() + m] == a);
            }
        }
    }
}

/// The items that a rectangle selection takes: on each row that the
/// rectangle crosses (`row_hits`, by row number from the top), the items
/// that touch the time span between `selection_start` and `selection_end`,
/// row by row from the top.
pub fn selected_item_addresses(project: &Project, selection_start: Time, selection_end: Time, row_hits: &Vec<bool>) -> (r: Vec<ItemAddress>)
    ensures
        ({
            let low = if selection_start <= selection_end { selection_start } else { selection_end };
            let high = if selection_start <= selection_end { selection_end } else { selection_start };
            let all = timeline_rows(*project);
            r@ == rectangle_addresses(*project, all, row_hits@, low, high, all.len() as int)
        }),
        forall|a: ItemAddress|
            #[trigger] r@.contains(a) <==> exists|j: int, i: int|
                #[trigger] row_item_in_span(
                    *project,
                    timeline_rows(*project),
                    row_hits@,
                    span_low(selection_start, selection_end),
                    span_high(selection_start, selection_end),
                    j,
                    i,
                    a,
                ),
{
    let low = if selection_start <= selection_end { selection_start } else { selection_end };
    let high = if selection_start <= selection_end { selection_end } else { selection_start };
    let all = rows(project);
    let mut selected: Vec<ItemAddress> = Vec::new();
    let mut k: usize = 0;
    while k < all.len()
        invariant
            all@ == timeline_rows(*project),
            k <= all@.len(),
            selected@ == rectangle_addresses(*project, all@, row_hits@, low, high, k as int),
        decreases all@.len() - k,
    {
        let row = all[k];
        if k < row_hits.len() && row_hits[k] {
            match row.root_key {
                Some(key) => {
                    let tracks = project.tracks(key.kind);
                    if key.track_index < tracks.len() {
                        push_touching(&mut selected, key.kind, &tracks[key.track_index], low, high);
                    }
                },
                None => {},
            }
        }
        k = k + 1;
    }
    proof {
        assert forall|a: ItemAddress| #[trigger] selected@.contains(a) <==> exists|j: int, i: int|
            #[trigger] row_item_in_span(
                *project,
                timeline_rows(*project),
                row_hits@,
                span_low(selection_start, selection_end),
                span_high(selection_start, selection_end),
                j,
                i,
                a,
            ) by {
            law_rectangle_selects_the_items_in_its_span(*project, selection_start, selection_end, row_hits@, a);
        }
    }
    selected
}

} // verus!
