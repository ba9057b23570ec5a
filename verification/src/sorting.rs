//! Stable insertion into ordered sequences, and the sorts built from it.
//!
//! Each sort inserts the elements one after another, each one after the
//! elements already placed that do not come after it, so equal keys keep
//! their order.

use vstd::prelude::*;

use vstd::multiset::Multiset;

use crate::model::{Item, Time, items_sorted};

verus! {

// ----- pairs ordered by their first time -----

/// The number of pairs at the front that do not start after `t`: the index
/// of the first pair that does, or the length.
pub open spec fn first_start_after(s: Seq<(Time, Time)>, t: Time) -> int
    decreases s.len(),
{
    if s.len() == 0 {
        0
    } else if s[0].0 > t {
        0
    } else {
        1 + first_start_after(s.drop_first(), t)
    }
}

/// The position found is in range, every pair before it starts at or before
/// `t`, and the pair at it starts after `t`.
pub proof fn lemma_first_start_props(s: Seq<(Time, Time)>, t: Time)
    ensures
        0 <= first_start_after(s, t) <= s.len(),
        forall|k: int| 0 <= k < first_start_after(s, t) ==> #[trigger] s[k].0 <= t,
        first_start_after(s, t) < s.len() ==> s[first_start_after(s, t)].0 > t,
    decreases s.len(),
{
    if s.len() > 0 && s[0].0 <= t {
        lemma_first_start_props(s.drop_first(), t);
        assert forall|k: int| 0 <= k < first_start_after(s, t) implies #[trigger] s[k].0 <= t by {
            if k > 0 {
                assert(s[k] == s.drop_first()[k - 1]);
            }
        }
    }
}

proof fn lemma_first_start_after(s: Seq<(Time, Time)>, t: Time, p: int)
    requires
        0 <= p <= s.len(),
        forall|k: int| 0 <= k < p ==> #[trigger] s[k].0 <= t,
        p < s.len() ==> s[p].0 > t,
    ensures
        first_start_after(s, t) == p,
{
    lemma_first_start_props(s, t);
    let q = first_start_after(s, t);
    if q < p {
        assert(s[q].0 <= t);
    } else if q > p {
        assert(s[p].0 <= t);
    }
}

/// Inserts a pair after all pairs at the front that do not start after it.
pub open spec fn insert_by_start(s: Seq<(Time, Time)>, x: (Time, Time)) -> Seq<(Time, Time)> {
    s.insert(first_start_after(s, x.0), x)
}

/// The stable sort of pairs by their first time.
pub open spec fn sort_by_start(s: Seq<(Time, Time)>) -> Seq<(Time, Time)>
    decreases s.len(),
{
    if s.len() == 0 {
        s
    } else {
        insert_by_start(sort_by_start(s.drop_last()), s.last())
    }
}

/// Pairs ordered by their first time.
pub open spec fn pairs_sorted_by_start(s: Seq<(Time, Time)>) -> bool {
    forall|i: int, j: int| 0 <= i < j < s.len() ==> #[trigger] s[i].0 <= #[trigger] s[j].0
}

/// Returns where `x` goes in `s` by `insert_by_start`.
fn start_insert_position(s: &Vec<(Time, Time)>, t: Time) -> (p: usize)
    ensures
        p as int == first_start_after(s@, t),
{
    let mut p: usize = 0;
    while p < s.len() && s[p].0 <= t
        invariant
            p <= s@.len(),
            forall|k: int| 0 <= k < p ==> #[trigger] s@[k].0 <= t,
        decreases s@.len() - p,
    {
        p = p + 1;
    }
    proof {
        lemma_first_start_after(s@, t, p as int);
    }
    p
}

/// Sorts pairs stably by their first time.
pub fn sort_pairs_by_start(v: &Vec<(Time, Time)>) -> (r: Vec<(Time, Time)>)
    ensures
        r@ == sort_by_start(v@),
{
    let mut r: Vec<(Time, Time)> = Vec::new();
    let mut i: usize = 0;
    while i < v.len()
        invariant
            i <= v@.len(),
            r@ == sort_by_start(v@.subrange(0, i as int)),
        decreases v@.len() - i,
    {
        let x = v[i];
        let p = start_insert_position(&r, x.0);
        proof {
            lemma_first_start_props(r@, x.0);
            assert(v@.subrange(0, i + 1).drop_last() == v@.subrange(0, i as int));
            assert(v@.subrange(0, i + 1).last() == x);
        }
        r.insert(p, x);
        i = i + 1;
    }
    proof {
        assert(v@.subrange(0, v@.len() as int) == v@);
    }
    r
}

/// The stable sort by first time is ordered and holds the same pairs.
pub proof fn lemma_sort_by_start(s: Seq<(Time, Time)>)
    ensures
        pairs_sorted_by_start(sort_by_start(s)),
        sort_by_start(s).to_multiset() == s.to_multiset(),
    decreases s.len(),
{
    if s.len() > 0 {
        let rest = sort_by_start(s.drop_last());
        lemma_sort_by_start(s.drop_last());
        let x = s.last();
        lemma_first_start_props(rest, x.0);
        let p = first_start_after(rest, x.0);
        let out = rest.insert(p, x);
        assert forall|i: int, j: int| 0 <= i < j < out.len() implies #[trigger] out[i].0 <= #[trigger] out[j].0 by {
            if j < p {
                assert(out[i] == rest[i] && out[j] == rest[j]);
            } else if j == p {
                assert(out[i] == rest[i]);
            } else if i < p {
                assert(out[i] == rest[i] && out[j] == rest[j - 1]);
                if p < rest.len() {
                    assert(rest[p].0 > x.0);
                    assert(rest[p].0 <= rest[j - 1].0);
                }
            } else if i == p {
                assert(out[j] == rest[j - 1]);
                assert(rest[p].0 > x.0);
                assert(rest[p].0 <= rest[j - 1].0);
            } else {
                assert(out[i] == rest[i - 1] && out[j] == rest[j - 1]);
            }
        }
        s.drop_last().to_multiset_ensures();
        assert(s == s.drop_last().push(x));
        lemma_insert_multiset(rest, p, x);
    }
}

/// Inserting an element adds it to the multiset of elements.
pub proof fn lemma_insert_multiset<A>(s: Seq<A>, p: int, x: A)
    requires
        0 <= p <= s.len(),
    ensures
        s.insert(p, x).to_multiset() == s.to_multiset().insert(x),
{
    let a = s.subrange(0, p);
    let b = s.subrange(p, s.len() as int);
    assert(s == a + b);
    assert(s.insert(p, x) == a + (seq![x] + b));
    vstd::seq_lib::lemma_multiset_commutative(a, seq![x] + b);
    vstd::seq_lib::lemma_multiset_commutative(seq![x], b);
    vstd::seq_lib::lemma_multiset_commutative(a, b);
    assert(seq![x].to_multiset() == Multiset::empty().insert(x)) by {
        assert(seq![x] == Seq::<A>::empty().push(x));
        Seq::<A>::empty().to_multiset_ensures();
        assert(Seq::<A>::empty().to_multiset() =~= Multiset::empty());
    }
}

// ----- items ordered by their start -----

/// The number of items at the front that do not start after `t`: the index
/// of the first item that does, or the length.
pub open spec fn first_item_after(s: Seq<Item>, t: Time) -> int
    decreases s.len(),
{
    if s.len() == 0 {
        0
    } else if s[0].start > t {
        0
    } else {
        1 + first_item_after(s.drop_first(), t)
    }
}

/// The position found is in range, every item before it starts at or before
/// `t`, and the item at it starts after `t`.
pub proof fn lemma_first_item_props(s: Seq<Item>, t: Time)
    ensures
        0 <= first_item_after(s, t) <= s.len(),
        forall|k: int| 0 <= k < first_item_after(s, t) ==> #[trigger] s[k].start <= t,
        first_item_after(s, t) < s.len() ==> s[first_item_after(s, t)].start > t,
    decreases s.len(),
{
    if s.len() > 0 && s[0].start <= t {
        lemma_first_item_props(s.drop_first(), t);
        assert forall|k: int| 0 <= k < first_item_after(s, t) implies #[trigger] s[k].start <= t by {
            if k > 0 {
                assert(s[k] == s.drop_first()[k - 1]);
            }
        }
    }
}

proof fn lemma_first_item_after(s: Seq<Item>, t: Time, p: int)
    requires
        0 <= p <= s.len(),
        forall|k: int| 0 <= k < p ==> #[trigger] s[k].start <= t,
        p < s.len() ==> s[p].start > t,
    ensures
        first_item_after(s, t) == p,
{
    lemma_first_item_props(s, t);
    let q = first_item_after(s, t);
    if q < p {
        assert(s[q].start <= t);
    } else if q > p {
        assert(s[p].start <= t);
    }
}

/// Inserts an item after all items at the front that do not start after it.
pub open spec fn insert_item_sorted(s: Seq<Item>, x: Item) -> Seq<Item> {
    s.insert(first_item_after(s, x.start), x)
}

/// Inserts an item into a track's items after the items that do not start
/// after it, and returns the index it gets.
pub fn insert_sorted(items: &mut Vec<Item>, item: Item) -> (index: usize)
    ensures
        index as int == first_item_after(old(items)@, item.start),
        final(items)@ == insert_item_sorted(old(items)@, item),
{
    let mut p: usize = 0;
    while p < items.len() && items[p].start <= item.start
        invariant
            p <= items@.len(),
            items@ == old(items)@,
            forall|k: int| 0 <= k < p ==> #[trigger] items@[k].start <= item.start,
        decreases items@.len() - p,
    {
        p = p + 1;
    }
    proof {
        lemma_first_item_after(items@, item.start, p as int);
    }
    items.insert(p, item);
    p
}

/// Inserting into ordered items keeps them ordered.
pub proof fn lemma_insert_item_sorted(s: Seq<Item>, x: Item)
    requires
        items_sorted(s),
    ensures
        items_sorted(insert_item_sorted(s, x)),
        insert_item_sorted(s, x).to_multiset() == s.to_multiset().insert(x),
{
    lemma_first_item_props(s, x.start);
    let p = first_item_after(s, x.start);
    let out = s.insert(p, x);
    assert forall|i: int, j: int| 0 <= i < j < out.len() implies out[i].start <= out[j].start by {
        if j < p {
            assert(out[i] == s[i] && out[j] == s[j]);
        } else if j == p {
            assert(out[i] == s[i]);
        } else if i < p {
            assert(out[i] == s[i] && out[j] == s[j - 1]);
            if p < s.len() {
                assert(s[p].start <= s[j - 1].start);
            }
        } else if i == p {
            assert(out[j] == s[j - 1]);
            assert(s[p].start <= s[j - 1].start);
        } else {
            assert(out[i] == s[i - 1] && out[j] == s[j - 1]);
        }
    }
    lemma_insert_multiset(s, p, x);
}

// ----- pairs in lexicographic order -----

/// Lexicographic order on pairs of times.
pub open spec fn pair_le(a: (Time, Time), b: (Time, Time)) -> bool {
    a.0 < b.0 || (a.0 == b.0 && a.1 <= b.1)
}

/// The number of pairs at the front that do not come after `x`: the index of
/// the first pair that does, or the length.
pub open spec fn first_pair_after(s: Seq<(Time, Time)>, x: (Time, Time)) -> int
    decreases s.len(),
{
    if s.len() == 0 {
        0
    } else if !pair_le(s[0], x) {
        0
    } else {
        1 + first_pair_after(s.drop_first(), x)
    }
}

/// The position found is in range, every pair before it comes at or before
/// `x`, and the pair at it comes after `x`.
pub proof fn lemma_first_pair_props(s: Seq<(Time, Time)>, x: (Time, Time))
    ensures
        0 <= first_pair_after(s, x) <= s.len(),
        forall|k: int| 0 <= k < first_pair_after(s, x) ==> pair_le(#[trigger] s[k], x),
        first_pair_after(s, x) < s.len() ==> !pair_le(s[first_pair_after(s, x)], x),
    decreases s.len(),
{
    if s.len() > 0 && pair_le(s[0], x) {
        lemma_first_pair_props(s.drop_first(), x);
        assert forall|k: int| 0 <= k < first_pair_after(s, x) implies pair_le(#[trigger] s[k], x) by {
            if k > 0 {
                assert(s[k] == s.drop_first()[k - 1]);
            }
        }
    }
}

proof fn lemma_first_pair_after(s: Seq<(Time, Time)>, x: (Time, Time), p: int)
    requires
        0 <= p <= s.len(),
        forall|k: int| 0 <= k < p ==> pair_le(#[trigger] s[k], x),
        p < s.len() ==> !pair_le(s[p], x),
    ensures
        first_pair_after(s, x) == p,
{
    lemma_first_pair_props(s, x);
    let q = first_pair_after(s, x);
    if q < p {
        assert(pair_le(s[q], x));
    } else if q > p {
        assert(pair_le(s[p], x));
    }
}

/// The sort of pairs in lexicographic order.
pub open spec fn sort_lex(s: Seq<(Time, Time)>) -> Seq<(Time, Time)>
    decreases s.len(),
{
    if s.len() == 0 {
        s
    } else {
        let rest = sort_lex(s.drop_last());
        rest.insert(first_pair_after(rest, s.last()), s.last())
    }
}

/// Sorts pairs in lexicographic order.
pub fn sort_pairs_lex(v: &Vec<(Time, Time)>) -> (r: Vec<(Time, Time)>)
    ensures
        r@ == sort_lex(v@),
{
    let mut r: Vec<(Time, Time)> = Vec::new();
    let mut i: usize = 0;
    while i < v.len()
        invariant
            i <= v@.len(),
            r@ == sort_lex(v@.subrange(0, i as int)),
        decreases v@.len() - i,
    {
        let x = v[i];
        let mut p: usize = 0;
        while p < r.len() && (r[p].0 < x.0 || (r[p].0 == x.0 && r[p].1 <= x.1))
            invariant
                p <= r@.len(),
                forall|k: int| 0 <= k < p ==> pair_le(#[trigger] r@[k], x),
            decreases r@.len() - p,
        {
            p = p + 1;
        }
        proof {
            lemma_first_pair_after(r@, x, p as int);
            assert(v@.subrange(0, i + 1).drop_last() == v@.subrange(0, i as int));
            assert(v@.subrange(0, i + 1).last() == x);
        }
        r.insert(p, x);
        i = i + 1;
    }
    proof {
        assert(v@.subrange(0, v@.len() as int) == v@);
    }
    r
}

} // verus!
