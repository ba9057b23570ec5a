//! Groups of items that move, cut and delete together.

use vstd::prelude::*;

use crate::collections::{IdentitySet, identity_set_contents};
use crate::model::{
    ItemAddress, ItemKey, Project, Track, TrackKind, kind_rank, lemma_same_layout_key_of, regrouped,
    same_track_layout, with_group,
};

verus! {

/// The group id of the item that an address names; none where there is no
/// such item.
pub open spec fn group_of(project: Project, address: ItemAddress) -> Option<u64> {
    match project.item_at_address(address) {
        Some(item) => item.group_id,
        None => None,
    }
}

/// Returns the group id of the item that an address names.
pub fn item_address_group_id(project: &Project, address: &ItemAddress) -> (r: Option<u64>)
    ensures
        r == group_of(*project, *address),
{
    match project.item(address) {
        Some(item) => item.group_id,
        None => None,
    }
}

/// Returns the group id of the item at a key, found through its address.
pub fn item_group_id(project: &Project, key: ItemKey) -> (r: Option<u64>)
    ensures
        r == (match project.address_of(key) {
            Some(address) => group_of(*project, address),
            None => None,
        }),
{
    match project.item_address(key) {
        Some(address) => item_address_group_id(project, &address),
        None => None,
    }
}

/// Sets the group id of the item that an address names; tells whether there
/// was such an item.
pub fn set_item_address_group_id(project: &mut Project, address: &ItemAddress, group_id: Option<u64>) -> (r: bool)
    ensures
        r == old(project).key_of(*address) is Some,
        regrouped(*old(project), *final(project), seq![*address], group_id),
{
    let ghost before = *project;
    match project.item_key(address) {
        Some(key) => {
            project.set_group_at(key, group_id);
            proof {
                let addresses = seq![*address];
                assert forall|k: ItemKey| before.item_at(k) is Some implies #[trigger] project.item_at(k) == if exists|j: int|
                    0 <= j < addresses.len() && before.key_of(#[trigger] addresses[j]) == Some(k) {
                    Some(with_group(before.item_at(k).unwrap(), group_id))
                } else {
                    before.item_at(k)
                } by {
                    if k == key {
                        assert(before.key_of(addresses[0]) == Some(k));
                    }
                }
            }
            true
        },
        None => {
            proof {
                assert forall|kind: TrackKind| #[trigger] same_track_layout(before.tracks_of(kind), project.tracks_of(kind)) by {}
            }
            false
        },
    }
}

/// Whether the item at `key` exists and belongs to group `g`.
pub open spec fn has_group(project: Project, key: ItemKey, g: u64) -> bool {
    match project.item_at(key) {
        Some(item) => item.group_id == Some(g),
        None => false,
    }
}

/// Whether `n` is one more than a group id in use, or the largest id that is
/// in use at the top of the range.
pub open spec fn next_group_witness(project: Project, n: u64) -> bool {
    exists|key: ItemKey, g: u64| #[trigger] has_group(project, key, g) && (g + 1 == n || (g == u64::MAX && n == u64::MAX))
}

/// A group id that no item holds: one more than the largest group id in use
/// (saturating), or zero where no item is grouped. This models the timeline
/// core's rule for new group ids, which this library writes out itself: the
/// crate that holds that rule is not among its dependencies, so nothing here
/// checks the two against each other.
pub fn next_group_id(project: &Project) -> (r: u64)
    ensures
        forall|key: ItemKey, g: u64| #[trigger] has_group(*project, key, g) ==> (g < r || (g == u64::MAX && r == u64::MAX)),
        r == 0 || next_group_witness(*project, r),
        r == 0 ==> forall|key: ItemKey, g: u64| !#[trigger] has_group(*project, key, g),
{
    let mut next: u64 = 0;
    let mut kind_index: usize = 0;
    while kind_index < 3
        invariant
            kind_index <= 3,
            forall|key: ItemKey, g: u64|
                kind_rank(key.kind) < kind_index && #[trigger] has_group(*project, key, g) ==> (g < next || (g == u64::MAX && next == u64::MAX)),
            next == 0 || next_group_witness(*project, next),
            next == 0 ==> forall|key: ItemKey, g: u64|
                kind_rank(key.kind) < kind_index ==> !#[trigger] has_group(*project, key, g),
        decreases 3 - kind_index,
    {
        let kind = if kind_index == 0 {
            TrackKind::Caption
        } else if kind_index == 1 {
            TrackKind::Video
        } else {
            TrackKind::Audio
        };
        let tracks = project.tracks(kind);
        let mut t: usize = 0;
        while t < tracks.len()
            invariant
                kind_index < 3,
                kind_rank(kind) == kind_index,
                tracks@ == project.tracks_of(kind),
                t <= tracks@.len(),
                forall|key: ItemKey, g: u64|
                    (kind_rank(key.kind) < kind_index || (key.kind == kind && key.track_index < t)) && #[trigger] has_group(
                        *project,
                        key,
                        g,
                    ) ==> (g < next || (g == u64::MAX && next == u64::MAX)),
                next == 0 || next_group_witness(*project, next),
                next == 0 ==> forall|key: ItemKey, g: u64|
                    (kind_rank(key.kind) < kind_index || (key.kind == kind && key.track_index < t)) ==> !#[trigger] has_group(
                        *project,
                        key,
                        g,
                    ),
            decreases tracks@.len() - t,
        {
            let items = &tracks[t].items;
            let mut i: usize = 0;
            while i < items.len()
                invariant
                    kind_index < 3,
                    kind_rank(kind) == kind_index,
                    tracks@ == project.tracks_of(kind),
                    t < tracks@.len(),
                    items@ == tracks@[t as int].items@,
                    i <= items@.len(),
                    forall|key: ItemKey, g: u64|
                        (kind_rank(key.kind) < kind_index || (key.kind == kind && key.track_index < t) || (key.kind == kind
                            && key.track_index == t && key.item_index < i)) && #[trigger] has_group(*project, key, g) ==> (g
                            < next || (g == u64::MAX && next == u64::MAX)),
                    next == 0 || next_group_witness(*project, next),
                    next == 0 ==> forall|key: ItemKey, g: u64|
                        (kind_rank(key.kind) < kind_index || (key.kind == kind && key.track_index < t) || (key.kind == kind
                            && key.track_index == t && key.item_index < i)) ==> !#[trigger] has_group(*project, key, g),
                decreases items@.len() - i,
            {
                if let Some(g) = items[i].group_id {
                    let candidate = g.saturating_add(1);
                    proof {
                        let key = ItemKey { kind: kind, track_index: t, item_index: i };
                        assert(project.item_at(key) == Some(items@[i as int]));
                        assert(has_group(*project, key, g));
                    }
                    if candidate > next {
                        next = candidate;
                    }
                }
                i = i + 1;
            }
            t = t + 1;
        }
        kind_index = kind_index + 1;
    }
    proof {
        assert forall|key: ItemKey, g: u64| #[trigger] has_group(*project, key, g) implies (g < next || (g == u64::MAX && next == u64::MAX)) by {
            assert(kind_rank(key.kind) < 3);
        }
        if next == 0 {
            assert forall|key: ItemKey, g: u64| !#[trigger] has_group(*project, key, g) by {
                assert(kind_rank(key.kind) < 3);
            }
        }
    }
    next
}

/// The identity under which a set records an address.
pub open spec fn identity(address: ItemAddress) -> (u8, u128, u128) {
    (kind_rank(address.kind), address.track_id, address.item_id)
}

proof fn lemma_identity_injective(a: ItemAddress, b: ItemAddress)
    ensures
        identity(a) == identity(b) ==> a == b,
{
}

fn address_identity(address: &ItemAddress) -> (r: (u8, u128, u128))
    ensures
        r == identity(*address),
{
    let kind = match address.kind {
        TrackKind::Caption => 0u8,
        TrackKind::Video => 1u8,
        TrackKind::Audio => 2u8,
    };
    (kind, address.track_id, address.item_id)
}

/// The set records exactly the addresses of the list.
pub open spec fn seen_matches(seen: IdentitySet, list: Seq<ItemAddress>) -> bool {
    forall|a: ItemAddress| #[trigger] identity_set_contents(seen).contains(identity(a)) <==> list.contains(a)
}

/// Whether some item of a track of `kind` has the address `a`.
pub open spec fn in_kind_scope(project: Project, kind: TrackKind, a: ItemAddress) -> bool {
    exists|key: ItemKey| key.kind == kind && #[trigger] project.address_of(key) == Some(a)
}

/// Whether some item of the project has the address `a`.
pub open spec fn in_scope(project: Project, a: ItemAddress) -> bool {
    exists|key: ItemKey| #[trigger] project.address_of(key) == Some(a)
}

/// The list with `a` added at its end, unless it already holds `a`.
pub open spec fn push_new(list: Seq<ItemAddress>, a: ItemAddress) -> Seq<ItemAddress> {
    if list.contains(a) {
        list
    } else {
        list.push(a)
    }
}

/// Walks the first `i` items of a track of `kind`, adding to the list, once
/// each, the addresses that name a member of group `g`.
pub open spec fn track_members_walk(
    project: Project,
    list: Seq<ItemAddress>,
    kind: TrackKind,
    track: Track,
    g: u64,
    i: int,
) -> Seq<ItemAddress>
    decreases i,
{
    if i <= 0 {
        list
    } else {
        let prev = track_members_walk(project, list, kind, track, g, i - 1);
        let a = ItemAddress { kind: kind, track_id: track.id, item_id: track.items@[i - 1].id };
        if group_of(project, a) == Some(g) {
            push_new(prev, a)
        } else {
            prev
        }
    }
}

/// Walks the first `t` tracks of `kind` in order, each from its first item.
pub open spec fn kind_members_walk(project: Project, list: Seq<ItemAddress>, kind: TrackKind, g: u64, t: int) -> Seq<
    ItemAddress,
>
    decreases t,
{
    if t <= 0 {
        list
    } else {
        let track = project.tracks_of(kind)[t - 1];
        track_members_walk(
            project,
            kind_members_walk(project, list, kind, g, t - 1),
            kind,
            track,
            g,
            track.items@.len() as int,
        )
    }
}

/// Adds the members of group `g` once each: the caption tracks first, then
/// the video tracks, then the audio tracks.
pub open spec fn group_members_walk(project: Project, list: Seq<ItemAddress>, g: u64) -> Seq<ItemAddress> {
    let captions = kind_members_walk(
        project,
        list,
        TrackKind::Caption,
        g,
        project.tracks_of(TrackKind::Caption).len() as int,
    );
    let video = kind_members_walk(project, captions, TrackKind::Video, g, project.tracks_of(TrackKind::Video).len() as int);
    kind_members_walk(project, video, TrackKind::Audio, g, project.tracks_of(TrackKind::Audio).len() as int)
}

/// The expansion of the first `j` selected addresses, in the order in which
/// it is built: a grouped address brings in its whole group, an address of
/// an item without a group brings in itself, and nothing comes in twice.
pub open spec fn expansion_walk(project: Project, selected: Seq<ItemAddress>, j: int) -> Seq<ItemAddress>
    decreases j,
{
    if j <= 0 {
        Seq::empty()
    } else {
        let prev = expansion_walk(project, selected, j - 1);
        let a = selected[j - 1];
        match group_of(project, a) {
            Some(g) => group_members_walk(project, prev, g),
            None => if project.item_at_address(a) is Some {
                push_new(prev, a)
            } else {
                prev
            },
        }
    }
}

/// Adds to the list, once each, the addresses of the items of one kind that
/// belong to group `g`.
fn collect_group_members_of_kind(
    project: &Project,
    kind: TrackKind,
    g: u64,
    expanded: &mut Vec<ItemAddress>,
    seen: &mut IdentitySet,
)
    requires
        seen_matches(*old(seen), old(expanded)@),
        old(expanded)@.no_duplicates(),
    ensures
        seen_matches(*final(seen), final(expanded)@),
        final(expanded)@.no_duplicates(),
        forall|a: ItemAddress|
            #[trigger] final(expanded)@.contains(a) <==> (old(expanded)@.contains(a) || (in_kind_scope(*project, kind, a)
                && group_of(*project, a) == Some(g))),
        final(expanded)@ == kind_members_walk(*project, old(expanded)@, kind, g, project.tracks_of(kind).len() as int),
{
    let ghost start = expanded@;
    let tracks = project.tracks(kind);
    let mut t: usize = 0;
    while t < tracks.len()
        invariant
            tracks@ == project.tracks_of(kind),
            t <= tracks@.len(),
            seen_matches(*seen, expanded@),
            expanded@.no_duplicates(),
            expanded@ == kind_members_walk(*project, start, kind, g, t as int),
            forall|a: ItemAddress|
                #[trigger] expanded@.contains(a) <==> (start.contains(a) || ((exists|key: ItemKey|
                    key.kind == kind && key.track_index < t && #[trigger] project.address_of(key) == Some(a)) && group_of(
                    *project,
                    a,
                ) == Some(g))),
        decreases tracks@.len() - t,
    {
        let n = tracks[t].items.len();
        let mut i: usize = 0;
        while i < n
            invariant
                tracks@ == project.tracks_of(kind),
                t < tracks@.len(),
                n == tracks@[t as int].items@.len(),
                i <= n,
                seen_matches(*seen, expanded@),
                expanded@.no_duplicates(),
                expanded@ == track_members_walk(
                    *project,
                    kind_members_walk(*project, start, kind, g, t as int),
                    kind,
                    tracks@[t as int],
                    g,
                    i as int,
                ),
                forall|a: ItemAddress|
                    #[trigger] expanded@.contains(a) <==> (start.contains(a) || ((exists|key: ItemKey|
                        key.kind == kind && (key.track_index < t || (key.track_index == t && key.item_index < i))
                            && #[trigger] project.address_of(key) == Some(a)) && group_of(*project, a) == Some(g))),
            decreases n - i,
        {
            let key = ItemKey { kind: kind, track_index: t, item_index: i };
            let address = project.item_address(key).unwrap();
            let ghost before = expanded@;
            let group = item_address_group_id(project, &address);
            let mut added = false;
            if group == Some(g) {
                let identity_key = address_identity(&address);
                if seen.insert(identity_key) {
                    expanded.push(address);
                    added = true;
                    proof {
                        assert(!before.contains(address));
                        assert forall|x: int, y: int| 0 <= x < y < expanded@.len() implies expanded@[x] != expanded@[y] by {
                            if y == before.len() {
                                assert(before.contains(before[x]) || x == y);
                            }
                        }
                        assert forall|a: ItemAddress| #[trigger] identity_set_contents(*seen).contains(identity(a)) <==> expanded@.contains(a) by {
                            lemma_identity_injective(a, address);
                            if expanded@.contains(a) && a != address {
                                let k = choose|k: int| 0 <= k < expanded@.len() && expanded@[k] == a;
                                assert(before[k] == a);
                            }
                            if before.contains(a) {
                                let k = choose|k: int| 0 <= k < before.len() && before[k] == a;
                                assert(expanded@[k] == a);
                            }
                            assert(expanded@[before.len() as int] == address);
                        }
                    }
                } else {
                    proof {
                        assert(before.contains(address));
                    }
                }
            }
            proof {
                assert(project.address_of(key) == Some(address));
                assert forall|a: ItemAddress| #[trigger] expanded@.contains(a) <==> (start.contains(a) || ((exists|k: ItemKey|
                    k.kind == kind && (k.track_index < t || (k.track_index == t && k.item_index < i + 1))
                        && #[trigger] project.address_of(k) == Some(a)) && group_of(*project, a) == Some(g))) by {
                    if added {
                        if expanded@.contains(a) && a != address {
                            let k = choose|k: int| 0 <= k < expanded@.len() && expanded@[k] == a;
                            assert(before[k] == a);
                        }
                        if before.contains(a) {
                            let k = choose|k: int| 0 <= k < before.len() && before[k] == a;
                            assert(expanded@[k] == a);
                        }
                        assert(expanded@[before.len() as int] == address);
                    }
                    if exists|k: ItemKey|
                        k.kind == kind && (k.track_index < t || (k.track_index == t && k.item_index < i + 1))
                            && #[trigger] project.address_of(k) == Some(a) {
                        let k = choose|k: ItemKey|
                            k.kind == kind && (k.track_index < t || (k.track_index == t && k.item_index < i + 1))
                                && #[trigger] project.address_of(k) == Some(a);
                        if k.track_index == t && k.item_index == i {
                            assert(k == key);
                        }
                    }
                }
            }
            i = i + 1;
        }
        proof {
            assert forall|a: ItemAddress| #[trigger] expanded@.contains(a) <==> (start.contains(a) || ((exists|k: ItemKey|
                k.kind == kind && k.track_index < t + 1 && #[trigger] project.address_of(k) == Some(a)) && group_of(
                *project,
                a,
            ) == Some(g))) by {
                if exists|k: ItemKey| k.kind == kind && k.track_index < t + 1 && #[trigger] project.address_of(k) == Some(a) {
                    let k = choose|k: ItemKey| k.kind == kind && k.track_index < t + 1 && #[trigger] project.address_of(k) == Some(a);
                    if k.track_index == t {
                        assert(k.item_index < n);
                    }
                }
            }
        }
        t = t + 1;
    }
    proof {
        assert forall|a: ItemAddress| #[trigger] expanded@.contains(a) <==> (start.contains(a) || (in_kind_scope(*project, kind, a)
            && group_of(*project, a) == Some(g))) by {
            if in_kind_scope(*project, kind, a) {
                let k = choose|k: ItemKey| k.kind == kind && #[trigger] project.address_of(k) == Some(a);
                assert(k.track_index < t);
            }
        }
    }
}

/// Whether expanding the selection to whole groups takes in `a`: a selected
/// item without a group, or any item of the project that shares the group of
/// a selected item.
pub open spec fn in_expansion(project: Project, selected: Seq<ItemAddress>, a: ItemAddress) -> bool {
    ||| (selected.contains(a) && project.item_at_address(a) is Some && group_of(project, a) is None)
    ||| (in_scope(project, a) && exists|j: int|
        0 <= j < selected.len() && group_of(project, #[trigger] selected[j]) is Some && group_of(project, selected[j])
            == group_of(project, a))
}

/// Expands a selection to whole groups: every selected item, and every item
/// that shares a group with one, each listed once.
pub fn expand_grouped_item_addresses(project: &Project, selected_items: &Vec<ItemAddress>) -> (r: Vec<ItemAddress>)
    ensures
        r@.no_duplicates(),
        forall|a: ItemAddress| #[trigger] r@.contains(a) <==> in_expansion(*project, selected_items@, a),
        r@ == expansion_walk(*project, selected_items@, selected_items@.len() as int),
{
    let mut expanded: Vec<ItemAddress> = Vec::new();
    let mut seen = IdentitySet::empty();
    let mut j: usize = 0;
    while j < selected_items.len()
        invariant
            j <= selected_items@.len(),
            seen_matches(seen, expanded@),
            expanded@.no_duplicates(),
            expanded@ == expansion_walk(*project, selected_items@, j as int),
            forall|a: ItemAddress|
                #[trigger] expanded@.contains(a) <==> in_expansion(*project, selected_items@.subrange(0, j as int), a),
        decreases selected_items@.len() - j,
    {
        let address = selected_items[j];
        let ghost before = expanded@;
        let ghost pre = selected_items@.subrange(0, j as int);
        let ghost post = selected_items@.subrange(0, j + 1);
        proof {
            assert(post == pre.push(address));
        }
        match item_address_group_id(project, &address) {
            Some(g) => {
                collect_group_members_of_kind(project, TrackKind::Caption, g, &mut expanded, &mut seen);
                collect_group_members_of_kind(project, TrackKind::Video, g, &mut expanded, &mut seen);
                collect_group_members_of_kind(project, TrackKind::Audio, g, &mut expanded, &mut seen);
                proof {
                    assert forall|a: ItemAddress| #[trigger] expanded@.contains(a) <==> in_expansion(*project, post, a) by {
                        assert(in_scope(*project, a) <==> (in_kind_scope(*project, TrackKind::Caption, a) || in_kind_scope(
                            *project,
                            TrackKind::Video,
                            a,
                        ) || in_kind_scope(*project, TrackKind::Audio, a))) by {
                            if in_scope(*project, a) {
                                let k = choose|k: ItemKey| #[trigger] project.address_of(k) == Some(a);
                                assert(k.kind == TrackKind::Caption || k.kind == TrackKind::Video || k.kind == TrackKind::Audio);
                            }
                        }
                        assert(post[j as int] == address);
                        if in_expansion(*project, post, a) {
                            if post.contains(a) && !pre.contains(a) {
                                assert(a == address);
                            }
                            if exists|m: int| 0 <= m < post.len() && group_of(*project, #[trigger] post[m]) is Some
                                && group_of(*project, post[m]) == group_of(*project, a) {
                                let m = choose|m: int| 0 <= m < post.len() && group_of(*project, #[trigger] post[m]) is Some
                                    && group_of(*project, post[m]) == group_of(*project, a);
                                if m < j {
                                    assert(pre[m] == post[m]);
                                }
                            }
                        }
                        if in_expansion(*project, pre, a) {
                            if pre.contains(a) {
                                let m = choose|m: int| 0 <= m < pre.len() && pre[m] == a;
                                assert(post[m] == a);
                            }
                            if exists|m: int| 0 <= m < pre.len() && group_of(*project, #[trigger] pre[m]) is Some
                                && group_of(*project, pre[m]) == group_of(*project, a) {
                                let m = choose|m: int| 0 <= m < pre.len() && group_of(*project, #[trigger] pre[m]) is Some
                                    && group_of(*project, pre[m]) == group_of(*project, a);
                                assert(post[m] == pre[m]);
                            }
                        }
                    }
                }
            },
            None => {
                if project.item(&address).is_some() {
                    let identity_key = address_identity(&address);
                    if seen.insert(identity_key) {
                        expanded.push(address);
                        proof {
                            assert(!before.contains(address));
                            assert forall|x: int, y: int| 0 <= x < y < expanded@.len() implies expanded@[x] != expanded@[y] by {
                                if y == before.len() {
                                    assert(before.contains(before[x]) || x == y);
                                }
                            }
                            assert forall|a: ItemAddress| #[trigger] identity_set_contents(seen).contains(identity(a)) <==> expanded@.contains(a) by {
                                lemma_identity_injective(a, address);
                                if expanded@.contains(a) && a != address {
                                    let k = choose|k: int| 0 <= k < expanded@.len() && expanded@[k] == a;
                                    assert(before[k] == a);
                                }
                                if before.contains(a) {
                                    let k = choose|k: int| 0 <= k < before.len() && before[k] == a;
                                    assert(expanded@[k] == a);
                                }
                                assert(expanded@[before.len() as int] == address);
                            }
                        }
                    } else {
                        proof {
                            assert(before.contains(address));
                        }
                    }
                }
                proof {
                    assert forall|a: ItemAddress| #[trigger] expanded@.contains(a) <==> in_expansion(*project, post, a) by {
                        assert(post[j as int] == address);
                        if expanded@.contains(a) && !before.contains(a) {
                            let k = choose|k: int| 0 <= k < expanded@.len() && expanded@[k] == a;
                            assert(k == before.len());
                            assert(a == address);
                            assert(post.contains(a));
                        }
                        if before.contains(a) {
                            let k = choose|k: int| 0 <= k < before.len() && before[k] == a;
                            assert(expanded@[k] == a);
                        }
                        if in_expansion(*project, post, a) {
                            if post.contains(a) && !pre.contains(a) {
                                assert(a == address);
                                if project.item_at_address(a) is Some {
                                    assert(expanded@.contains(a));
                                }
                            }
                            if exists|m: int| 0 <= m < post.len() && group_of(*project, #[trigger] post[m]) is Some
                                && group_of(*project, post[m]) == group_of(*project, a) {
                                let m = choose|m: int| 0 <= m < post.len() && group_of(*project, #[trigger] post[m]) is Some
                                    && group_of(*project, post[m]) == group_of(*project, a);
                                if m < j {
                                    assert(pre[m] == post[m]);
                                }
                            }
                        }
                        if in_expansion(*project, pre, a) {
                            if pre.contains(a) {
                                let m = choose|m: int| 0 <= m < pre.len() && pre[m] == a;
                                assert(post[m] == a);
                            }
                            if exists|m: int| 0 <= m < pre.len() && group_of(*project, #[trigger] pre[m]) is Some
                                && group_of(*project, pre[m]) == group_of(*project, a) {
                                let m = choose|m: int| 0 <= m < pre.len() && group_of(*project, #[trigger] pre[m]) is Some
                                    && group_of(*project, pre[m]) == group_of(*project, a);
                                assert(post[m] == pre[m]);
                            }
                        }
                    }
                }
            },
        }
        j = j + 1;
    }
    proof {
        assert(selected_items@.subrange(0, selected_items@.len() as int) == selected_items@);
    }
    expanded
}

proof fn lemma_regrouped_none(p: Project, g: Option<u64>)
    ensures
        regrouped(p, p, Seq::<ItemAddress>::empty(), g),
{
    assert forall|kind: TrackKind| #[trigger] same_track_layout(p.tracks_of(kind), p.tracks_of(kind)) by {}
}

proof fn lemma_regrouped_compose(p0: Project, p1: Project, p2: Project, addresses: Seq<ItemAddress>, a: ItemAddress, g: Option<u64>)
    requires
        regrouped(p0, p1, addresses, g),
        regrouped(p1, p2, seq![a], g),
    ensures
        regrouped(p0, p2, addresses.push(a), g),
{
    let all = addresses.push(a);
    assert forall|kind: TrackKind| #[trigger] same_track_layout(p0.tracks_of(kind), p2.tracks_of(kind)) by {
        assert(same_track_layout(p0.tracks_of(kind), p1.tracks_of(kind)));
        assert(same_track_layout(p1.tracks_of(kind), p2.tracks_of(kind)));
        let x = p0.tracks_of(kind);
        let y = p1.tracks_of(kind);
        let z = p2.tracks_of(kind);
        assert forall|t: int| 0 <= t < x.len() implies {
            &&& (#[trigger] x[t]).id == z[t].id
            &&& x[t].enabled == z[t].enabled
            &&& x[t].unity_gain == z[t].unity_gain
            &&& x[t].items@.len() == z[t].items@.len()
            &&& forall|i: int| 0 <= i < x[t].items@.len() ==> (#[trigger] x[t].items@[i]).id == z[t].items@[i].id
        } by {
            assert(x[t].id == y[t].id);
            assert forall|i: int| 0 <= i < x[t].items@.len() implies (#[trigger] x[t].items@[i]).id == z[t].items@[i].id by {
                assert(x[t].items@[i].id == y[t].items@[i].id);
            }
        }
    }
    lemma_same_layout_key_of(p0, p1, a);
    assert forall|key: ItemKey| p0.item_at(key) is Some implies #[trigger] p2.item_at(key) == if exists|j: int|
        0 <= j < all.len() && p0.key_of(#[trigger] all[j]) == Some(key) {
        Some(with_group(p0.item_at(key).unwrap(), g))
    } else {
        p0.item_at(key)
    } by {
        assert(p1.item_at(key) is Some);
        assert(all[addresses.len() as int] == a);
        assert(seq![a][0] == a);
        if exists|j: int| 0 <= j < addresses.len() && p0.key_of(#[trigger] addresses[j]) == Some(key) {
            let j = choose|j: int| 0 <= j < addresses.len() && p0.key_of(#[trigger] addresses[j]) == Some(key);
            assert(all[j] == addresses[j]);
        }
        if exists|j: int| 0 <= j < all.len() && p0.key_of(#[trigger] all[j]) == Some(key) {
            let j = choose|j: int| 0 <= j < all.len() && p0.key_of(#[trigger] all[j]) == Some(key);
            if j < addresses.len() {
                assert(addresses[j] == all[j]);
            }
        }
    }
}

/// The addresses of a selection that name items, each kept once, in the
/// order of their first appearance.
pub open spec fn distinct_existing(project: Project, selected: Seq<ItemAddress>) -> Seq<ItemAddress>
    decreases selected.len(),
{
    if selected.len() == 0 {
        selected
    } else {
        let prev = distinct_existing(project, selected.drop_last());
        let a = selected.last();
        if project.item_at_address(a) is Some && !prev.contains(a) {
            prev.push(a)
        } else {
            prev
        }
    }
}

/// `g` is the group id that `next_group_id` picks for the project.
pub open spec fn is_next_group_id(project: Project, g: u64) -> bool {
    &&& forall|key: ItemKey, h: u64| #[trigger] has_group(project, key, h) ==> (h < g || (h == u64::MAX && g == u64::MAX))
    &&& (g == 0 || next_group_witness(project, g))
    &&& (g == 0 ==> forall|key: ItemKey, h: u64| !#[trigger] has_group(project, key, h))
}

/// The next group id is new: no item of the project holds it (unless every
/// id up to the largest is taken, where it is that largest id).
pub proof fn law_next_group_id_is_fresh(project: Project, g: u64, key: ItemKey)
    requires
        is_next_group_id(project, g),
        g < u64::MAX,
    ensures
        !has_group(project, key, g),
{
}

/// Only one group id is the next one of a project.
pub proof fn lemma_next_group_id_unique(project: Project, a: u64, b: u64)
    requires
        is_next_group_id(project, a),
        is_next_group_id(project, b),
    ensures
        a == b,
{
    if a != 0 {
        let (ka, ga) = choose|key: ItemKey, g: u64| #[trigger] has_group(project, key, g) && (g + 1 == a || (g == u64::MAX && a == u64::MAX));
        assert(has_group(project, ka, ga));
    }
    if b != 0 {
        let (kb, gb) = choose|key: ItemKey, g: u64| #[trigger] has_group(project, key, g) && (g + 1 == b || (g == u64::MAX && b == u64::MAX));
        assert(has_group(project, kb, gb));
    }
    if a != 0 && b != 0 {
        let (ka, ga) = choose|key: ItemKey, g: u64| #[trigger] has_group(project, key, g) && (g + 1 == a || (g == u64::MAX && a == u64::MAX));
        let (kb, gb) = choose|key: ItemKey, g: u64| #[trigger] has_group(project, key, g) && (g + 1 == b || (g == u64::MAX && b == u64::MAX));
        assert(ga < b || (ga == u64::MAX && b == u64::MAX));
        assert(gb < a || (gb == u64::MAX && a == u64::MAX));
    }
}

/// Puts the selected items (those that exist, each once) into one new group;
/// nothing changes where fewer than two items are selected.
pub fn group_item_addresses(project: &mut Project, selected_items: &Vec<ItemAddress>) -> (r: Option<Vec<ItemAddress>>)
    ensures
        r is None <==> distinct_existing(*old(project), selected_items@).len() < 2,
        r is None ==> *final(project) == *old(project),
        r matches Some(addresses) ==> {
            &&& addresses@ == distinct_existing(*old(project), selected_items@)
            &&& exists|g: u64| #[trigger] is_next_group_id(*old(project), g) && regrouped(*old(project), *final(project), addresses@, Some(g))
        },
{
    let ghost before = *project;
    if selected_items.len() < 2 {
        proof {
            lemma_distinct_existing_len(before, selected_items@);
        }
        return None;
    }
    let mut addresses: Vec<ItemAddress> = Vec::new();
    let mut seen = IdentitySet::empty();
    let mut j: usize = 0;
    while j < selected_items.len()
        invariant
            j <= selected_items@.len(),
            *project == before,
            seen_matches(seen, addresses@),
            addresses@ == distinct_existing(before, selected_items@.subrange(0, j as int)),
        decreases selected_items@.len() - j,
    {
        let address = selected_items[j];
        proof {
            assert(selected_items@.subrange(0, j + 1).drop_last() == selected_items@.subrange(0, j as int));
            assert(selected_items@.subrange(0, j + 1).last() == address);
        }
        if project.item(&address).is_some() {
            let identity_key = address_identity(&address);
            let ghost prior = addresses@;
            proof {
                assert(identity_set_contents(seen).contains(identity(address)) <==> prior.contains(address));
            }
            if seen.insert(identity_key) {
                addresses.push(address);
                proof {
                    assert forall|a: ItemAddress| #[trigger] identity_set_contents(seen).contains(identity(a)) <==> addresses@.contains(a) by {
                        lemma_identity_injective(a, address);
                        if addresses@.contains(a) && a != address {
                            let k = choose|k: int| 0 <= k < addresses@.len() && addresses@[k] == a;
                            assert(prior[k] == a);
                        }
                        if prior.contains(a) {
                            let k = choose|k: int| 0 <= k < prior.len() && prior[k] == a;
                            assert(addresses@[k] == a);
                        }
                        assert(addresses@[prior.len() as int] == address);
                    }
                }
            }
        }
        j = j + 1;
    }
    proof {
        assert(selected_items@.subrange(0, selected_items@.len() as int) == selected_items@);
    }
    if addresses.len() < 2 {
        return None;
    }
    let g = next_group_id(project);
    proof {
        assert(is_next_group_id(before, g));
        lemma_regrouped_none(before, Some(g));
        assert(addresses@.subrange(0, 0) == Seq::<ItemAddress>::empty());
    }
    let mut k: usize = 0;
    while k < addresses.len()
        invariant
            k <= addresses@.len(),
            regrouped(before, *project, addresses@.subrange(0, k as int), Some(g)),
        decreases addresses@.len() - k,
    {
        let ghost mid = *project;
        let _ = set_item_address_group_id(project, &addresses[k], Some(g));
        proof {
            lemma_regrouped_compose(before, mid, *project, addresses@.subrange(0, k as int), addresses@[k as int], Some(g));
            assert(addresses@.subrange(0, k as int).push(addresses@[k as int]) == addresses@.subrange(0, k + 1));
        }
        k = k + 1;
    }
    proof {
        assert(addresses@.subrange(0, addresses@.len() as int) == addresses@);
    }
    Some(addresses)
}

proof fn lemma_distinct_existing_len(project: Project, selected: Seq<ItemAddress>)
    ensures
        distinct_existing(project, selected).len() <= selected.len(),
    decreases selected.len(),
{
    if selected.len() > 0 {
        lemma_distinct_existing_len(project, selected.drop_last());
    }
}

/// An address resolves only to a key whose address it is.
proof fn lemma_key_of_address(p: Project, a: ItemAddress)
    ensures
        p.key_of(a) matches Some(k) ==> p.address_of(k) == Some(a) && p.item_at(k) is Some,
{
    let tracks = p.tracks_of(a.kind);
    crate::model::lemma_find_track_from(tracks, a.track_id, 0);
    match crate::model::find_track_from(tracks, a.track_id, 0) {
        Some(t) => {
            crate::model::lemma_find_item_from(tracks[t].items@, a.item_id, 0);
            if let Some(k) = p.key_of(a) {
                let i = crate::model::find_item_from(tracks[t].items@, a.item_id, 0).unwrap();
                assert(k.track_index as int == t);
                assert(k.item_index as int == i);
                assert(tracks[t].id == a.track_id);
                assert(tracks[t].items@[i].id == a.item_id);
                assert(p.address_of(k) == Some(a));
            }
        },
        None => {},
    }
}

/// Takes the selected items and all items grouped with them out of their
/// groups; tells which items it looked at where any of them had a group.
pub fn ungroup_item_addresses(project: &mut Project, selected_items: &Vec<ItemAddress>) -> (r: Option<Vec<ItemAddress>>)
    ensures
        r is Some <==> exists|a: ItemAddress| #[trigger] in_expansion(*old(project), selected_items@, a) && group_of(*old(project), a) is Some,
        r is None ==> *final(project) == *old(project),
        r matches Some(addresses) ==> {
            &&& addresses@.no_duplicates()
            &&& forall|a: ItemAddress| #[trigger] addresses@.contains(a) <==> in_expansion(*old(project), selected_items@, a)
            &&& addresses@ == expansion_walk(*old(project), selected_items@, selected_items@.len() as int)
            &&& regrouped(*old(project), *final(project), addresses@, None)
        },
{
    let ghost before = *project;
    let addresses = expand_grouped_item_addresses(project, selected_items);
    let mut changed = false;
    proof {
        lemma_regrouped_none(before, None);
        assert(addresses@.subrange(0, 0) == Seq::<ItemAddress>::empty());
    }
    let mut k: usize = 0;
    while k < addresses.len()
        invariant
            k <= addresses@.len(),
            addresses@.no_duplicates(),
            regrouped(before, *project, addresses@.subrange(0, k as int), None),
            changed <==> exists|m: int| 0 <= m < k && group_of(before, #[trigger] addresses@[m]) is Some,
            !changed ==> *project == before,
        decreases addresses@.len() - k,
    {
        let ghost mid = *project;
        let a = addresses[k];
        let ghost prefix = addresses@.subrange(0, k as int);
        proof {
            lemma_same_layout_key_of(before, mid, a);
            lemma_key_of_address(before, a);
            assert(prefix.push(a) == addresses@.subrange(0, k + 1));
            // No earlier address names the same item.
            if let Some(key) = before.key_of(a) {
                assert forall|j: int| 0 <= j < prefix.len() implies before.key_of(#[trigger] prefix[j]) != Some(key) by {
                    lemma_key_of_address(before, prefix[j]);
                    assert(prefix[j] == addresses@[j]);
                    assert(addresses@[j] != addresses@[k as int]);
                }
                assert(mid.item_at(key) == before.item_at(key));
                assert(mid.item_at_address(a) == before.item_at_address(a));
            } else {
                assert(mid.key_of(a) is None);
            }
        }
        if item_address_group_id(project, &a).is_some() {
            let _ = set_item_address_group_id(project, &a, None);
            changed = true;
            proof {
                lemma_regrouped_compose(before, mid, *project, prefix, a, None);
            }
        } else {
            proof {
                assert forall|key: ItemKey| before.item_at(key) is Some implies #[trigger] project.item_at(key) == if exists|j: int|
                    0 <= j < prefix.push(a).len() && before.key_of(#[trigger] prefix.push(a)[j]) == Some(key) {
                    Some(with_group(before.item_at(key).unwrap(), None))
                } else {
                    before.item_at(key)
                } by {
                    if exists|j: int| 0 <= j < prefix.push(a).len() && before.key_of(#[trigger] prefix.push(a)[j]) == Some(key) {
                        let j = choose|j: int| 0 <= j < prefix.push(a).len() && before.key_of(#[trigger] prefix.push(a)[j]) == Some(key);
                        if j < prefix.len() {
                            assert(prefix.push(a)[j] == prefix[j]);
                        } else {
                            assert(prefix.push(a)[j] == a);
                            assert(before.item_at(key).unwrap().group_id is None);
                        }
                    }
                }
            }
        }
        proof {
            assert((exists|m: int| 0 <= m < k + 1 && group_of(before, #[trigger] addresses@[m]) is Some) <==> (
            (exists|m: int| 0 <= m < k && group_of(before, #[trigger] addresses@[m]) is Some) || group_of(before, a) is Some));
        }
        k = k + 1;
    }
    proof {
        assert(addresses@.subrange(0, addresses@.len() as int) == addresses@);
        if exists|a: ItemAddress| #[trigger] in_expansion(before, selected_items@, a) && group_of(before, a) is Some {
            let a = choose|a: ItemAddress| #[trigger] in_expansion(before, selected_items@, a) && group_of(before, a) is Some;
            assert(addresses@.contains(a));
            let m = choose|m: int| 0 <= m < addresses@.len() && addresses@[m] == a;
            assert(group_of(before, addresses@[m]) is Some);
        }
        if changed {
            let m = choose|m: int| 0 <= m < addresses@.len() && group_of(before, #[trigger] addresses@[m]) is Some;
            assert(addresses@.contains(addresses@[m]));
            assert(in_expansion(before, selected_items@, addresses@[m]));
        }
    }
    if changed {
        Some(addresses)
    } else {
        None
    }
}

/// Groups the selected items when the first of them exists.
pub fn group_selected_item_addresses(project: &mut Project, selection: &Vec<ItemAddress>) -> (r: Option<Vec<ItemAddress>>)
    ensures
        (selection@.len() == 0 || old(project).item_at_address(selection@[0]) is None) ==> r is None
            && *final(project) == *old(project),
        selection@.len() > 0 && old(project).item_at_address(selection@[0]) is Some ==> {
            &&& r is None <==> distinct_existing(*old(project), selection@).len() < 2
            &&& r is None ==> *final(project) == *old(project)
            &&& r matches Some(addresses) ==> {
                &&& addresses@ == distinct_existing(*old(project), selection@)
                &&& exists|g: u64| #[trigger] is_next_group_id(*old(project), g) && regrouped(*old(project), *final(project), addresses@, Some(g))
            }
        },
{
    if selection.len() == 0 {
        return None;
    }
    if project.item(&selection[0]).is_none() {
        return None;
    }
    group_item_addresses(project, selection)
}

/// Ungroups the selected items when the first of them exists.
pub fn ungroup_selected_item_addresses(project: &mut Project, selection: &Vec<ItemAddress>) -> (r: Option<Vec<ItemAddress>>)
    ensures
        (selection@.len() == 0 || old(project).item_at_address(selection@[0]) is None) ==> r is None
            && *final(project) == *old(project),
        selection@.len() > 0 && old(project).item_at_address(selection@[0]) is Some ==> {
            &&& r is Some <==> exists|a: ItemAddress| #[trigger] in_expansion(*old(project), selection@, a) && group_of(*old(project), a) is Some
            &&& r is None ==> *final(project) == *old(project)
            &&& r matches Some(addresses) ==> {
                &&& addresses@.no_duplicates()
                &&& forall|a: ItemAddress| #[trigger] addresses@.contains(a) <==> in_expansion(*old(project), selection@, a)
                &&& addresses@ == expansion_walk(*old(project), selection@, selection@.len() as int)
                &&& regrouped(*old(project), *final(project), addresses@, None)
            }
        },
{
    if selection.len() == 0 {
        return None;
    }
    if project.item(&selection[0]).is_none() {
        return None;
    }
    ungroup_item_addresses(project, selection)
}

/// The addresses of the items that the keys name, skipping keys that name
/// nothing.
pub open spec fn addresses_of_keys(project: Project, keys: Seq<ItemKey>) -> Seq<ItemAddress>
    decreases keys.len(),
{
    if keys.len() == 0 {
        Seq::empty()
    } else {
        let prev = addresses_of_keys(project, keys.drop_last());
        match project.address_of(keys.last()) {
            Some(a) => prev.push(a),
            None => prev,
        }
    }
}

/// The keys of the addresses that name an item, in their order.
pub open spec fn keys_of_addresses(project: Project, addresses: Seq<ItemAddress>) -> Seq<ItemKey>
    decreases addresses.len(),
{
    if addresses.len() == 0 {
        Seq::empty()
    } else {
        let prev = keys_of_addresses(project, addresses.drop_last());
        match project.key_of(addresses.last()) {
            Some(k) => prev.push(k),
            None => prev,
        }
    }
}

/// Expands a selection of keys to whole groups.
pub fn expand_grouped_selection(project: &Project, selection: &Vec<ItemKey>) -> (r: Vec<ItemKey>)
    ensures
        forall|k: ItemKey|
            #[trigger] r@.contains(k) <==> exists|a: ItemAddress|
                #[trigger] in_expansion(*project, addresses_of_keys(*project, selection@), a) && project.key_of(a) == Some(k),
        r@ == keys_of_addresses(
            *project,
            expansion_walk(*project, addresses_of_keys(*project, selection@), addresses_of_keys(*project, selection@).len() as int),
        ),
{
    let mut addresses: Vec<ItemAddress> = Vec::new();
    let mut i: usize = 0;
    while i < selection.len()
        invariant
            i <= selection@.len(),
            addresses@ == addresses_of_keys(*project, selection@.subrange(0, i as int)),
        decreases selection@.len() - i,
    {
        proof {
            assert(selection@.subrange(0, i + 1).drop_last() == selection@.subrange(0, i as int));
            assert(selection@.subrange(0, i + 1).last() == selection@[i as int]);
        }
        match project.item_address(selection[i]) {
            Some(a) => addresses.push(a),
            None => {},
        }
        i = i + 1;
    }
    proof {
        assert(selection@.subrange(0, selection@.len() as int) == selection@);
    }
    let expanded = expand_grouped_item_addresses(project, &addresses);
    let mut keys: Vec<ItemKey> = Vec::new();
    let mut j: usize = 0;
    while j < expanded.len()
        invariant
            j <= expanded@.len(),
            forall|k: ItemKey|
                #[trigger] keys@.contains(k) <==> exists|m: int| 0 <= m < j && project.key_of(#[trigger] expanded@[m]) == Some(k),
            keys@ == keys_of_addresses(*project, expanded@.subrange(0, j as int)),
        decreases expanded@.len() - j,
    {
        let ghost before = keys@;
        proof {
            assert(expanded@.subrange(0, j + 1).drop_last() == expanded@.subrange(0, j as int));
            assert(expanded@.subrange(0, j + 1).last() == expanded@[j as int]);
        }
        match project.item_key(&expanded[j]) {
            Some(k) => {
                keys.push(k);
                proof {
                    assert forall|x: ItemKey| #[trigger] keys@.contains(x) <==> exists|m: int| 0 <= m < j + 1 && project.key_of(#[trigger] expanded@[m]) == Some(x) by {
                        if keys@.contains(x) && x != k {
                            let q = choose|q: int| 0 <= q < keys@.len() && keys@[q] == x;
                            assert(before[q] == x);
                        }
                        if before.contains(x) {
                            let q = choose|q: int| 0 <= q < before.len() && before[q] == x;
                            assert(keys@[q] == x);
                        }
                        assert(keys@[before.len() as int] == k);
                    }
                }
            },
            None => {},
        }
        j = j + 1;
    }
    proof {
        assert(expanded@.subrange(0, expanded@.len() as int) == expanded@);
    }
    proof {
        assert forall|k: ItemKey| #[trigger] keys@.contains(k) <==> exists|a: ItemAddress|
            #[trigger] in_expansion(*project, addresses@, a) && project.key_of(a) == Some(k) by {
            if keys@.contains(k) {
                let m = choose|m: int| 0 <= m < expanded@.len() && project.key_of(#[trigger] expanded@[m]) == Some(k);
                assert(expanded@.contains(expanded@[m]));
            }
            if exists|a: ItemAddress| #[trigger] in_expansion(*project, addresses@, a) && project.key_of(a) == Some(k) {
                let a = choose|a: ItemAddress| #[trigger] in_expansion(*project, addresses@, a) && project.key_of(a) == Some(k);
                assert(expanded@.contains(a));
                let m = choose|m: int| 0 <= m < expanded@.len() && expanded@[m] == a;
                assert(project.key_of(expanded@[m]) == Some(k));
            }
        }
    }
    keys
}

} // verus!
