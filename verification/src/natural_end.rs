//! The times at which an item's media reaches its natural end, repeating
//! once per loop of the media.

use vstd::prelude::*;

use crate::model::Time;

verus! {

/// The marker times `first + k * interval` for `k` in `0..count`.
pub open spec fn marker_run(first: int, interval: int, count: int) -> Seq<Time> {
    Seq::new(count as nat, |k: int| (first + k * interval) as Time)
}

/// `edges` are the `count` markers that start at the marker
/// `first + m * interval`, the first one after `start`, and stop before `end`.
pub open spec fn repeating_run(edges: Seq<Time>, start: Time, end: Time, first: Time, interval: Time, m: int, count: int) -> bool {
    let p = first + m * interval;
    &&& start < p <= start + interval
    &&& count >= 0
    &&& (count == 0 ==> p >= end)
    &&& (count > 0 ==> p + (count - 1) * interval < end <= p + count * interval)
    &&& edges == marker_run(p, interval as int, count)
}

/// The natural-end markers of an item spanning `[start, end)`: with a repeat
/// interval, every time strictly after `start` and before `end` that lies a
/// whole number of intervals from `first`; without one, `first` alone when it
/// falls strictly inside the item.
pub open spec fn natural_end_markers(edges: Seq<Time>, start: Time, end: Time, first: Option<Time>, interval: Option<Time>) -> bool {
    match first {
        None => edges.len() == 0,
        Some(first) => match interval {
            None => if start < first < end { edges == seq![first] } else { edges.len() == 0 },
            Some(interval) => if interval == 0 {
                edges.len() == 0
            } else {
                exists|m: int, count: int| #[trigger] repeating_run(edges, start, end, first, interval, m, count)
            },
        },
    }
}

/// Every natural-end marker falls strictly inside the item, and repeated
/// markers lie one interval apart.
pub proof fn law_markers_inside_the_item(edges: Seq<Time>, start: Time, end: Time, first: Option<Time>, interval: Option<Time>)
    requires
        natural_end_markers(edges, start, end, first, interval),
    ensures
        forall|i: int| 0 <= i < edges.len() ==> start < #[trigger] edges[i] < end,
        interval matches Some(step) ==> forall|i: int| 0 < i < edges.len() ==> #[trigger] edges[i] == edges[i - 1] + step,
{
    if first is Some && interval is Some && interval.unwrap() > 0 {
        let f = first.unwrap();
        let step = interval.unwrap();
        let (m, count) = choose|m: int, count: int| #[trigger] repeating_run(edges, start, end, f, step, m, count);
        let p = f + m * step;
        assert forall|i: int| 0 <= i < edges.len() implies start < #[trigger] edges[i] < end by {
            assert(edges[i] == (p + i * step) as Time);
            assert(i * step >= 0) by (nonlinear_arith)
                requires
                    i >= 0,
                    step > 0,
            ;
            assert(i * step <= (count - 1) * step) by (nonlinear_arith)
                requires
                    i <= count - 1,
                    step > 0,
            ;
        }
        assert forall|i: int| 0 < i < edges.len() implies #[trigger] edges[i] == edges[i - 1] + step by {
            lemma_run_step(p, step as int, i - 1);
            assert((i - 1) * step >= 0) by (nonlinear_arith)
                requires
                    i >= 1,
                    step > 0,
            ;
            assert(i * step <= (count - 1) * step) by (nonlinear_arith)
                requires
                    i <= count - 1,
                    step > 0,
            ;
        }
    }
}

proof fn lemma_step(m: int, interval: int, first: int)
    ensures
        first + (m + 1) * interval == first + m * interval + interval,
        first + (m - 1) * interval == first + m * interval - interval,
{
    assert((m + 1) * interval == m * interval + interval) by (nonlinear_arith);
    assert((m - 1) * interval == m * interval - interval) by (nonlinear_arith);
}

proof fn lemma_run_step(p: int, interval: int, k: int)
    ensures
        p + (k + 1) * interval == p + k * interval + interval,
{
    assert((k + 1) * interval == k * interval + interval) by (nonlinear_arith);
}

/// Where the walk towards the first marker after `start` stands: at or
/// before `start` it sits exactly on the marker `exact`; past `start` that
/// marker lies within one interval of `start`, and the position is the marker
/// itself or, where the marker is beyond the largest time, that time.
pub open spec fn walk_state(position: Time, exact: int, start: Time, step: Time) -> bool {
    if position <= start {
        position == exact
    } else {
        &&& start < exact <= start + step
        &&& (position == exact || (position == u64::MAX && exact > u64::MAX))
    }
}

/// Appends the natural-end markers of an item spanning `[start, end)`.
pub fn push_natural_end_times(edges: &mut Vec<Time>, start: Time, end: Time, first: Option<Time>, interval: Option<Time>)
    requires
        (first is Some && interval is Some && interval.unwrap() > 0) ==> start < u64::MAX,
    ensures
        final(edges)@.len() >= old(edges)@.len(),
        final(edges)@.subrange(0, old(edges)@.len() as int) == old(edges)@,
        natural_end_markers(final(edges)@.subrange(old(edges)@.len() as int, final(edges)@.len() as int), start, end, first, interval),
{
    let ghost base = edges@;
    let mut position = match first {
        Some(p) => p,
        None => {
            proof {
                assert(edges@.subrange(0, base.len() as int) == base);
                assert(edges@.subrange(base.len() as int, edges@.len() as int).len() == 0);
            }
            return;
        },
    };
    let step = match interval {
        Some(i) => i,
        None => {
            if position > start && position < end {
                edges.push(position);
                proof {
                    assert(edges@.subrange(0, base.len() as int) == base);
                    assert(edges@.subrange(base.len() as int, edges@.len() as int) == seq![position]);
                }
            } else {
                proof {
                    assert(edges@.subrange(0, base.len() as int) == base);
                    assert(edges@.subrange(base.len() as int, edges@.len() as int).len() == 0);
                }
            }
            return;
        },
    };
    if step == 0 {
        proof {
            assert(edges@.subrange(0, base.len() as int) == base);
            assert(edges@.subrange(base.len() as int, edges@.len() as int).len() == 0);
        }
        return;
    }
    let ghost first_time = position as int;
    let ghost mut m: int = 0;
    // Walk back to the earliest marker after `start`.
    while position > start
        invariant
            step > 0,
            start < u64::MAX,
            position as int == first_time + m * step,
        ensures
            walk_state(position, first_time + m * step, start, step),
        decreases position,
    {
        if position <= step {
            break;
        }
        let previous = position - step;
        if previous <= start {
            break;
        }
        proof {
            lemma_step(m, step as int, first_time);
            m = m - 1;
        }
        position = previous;
    }
    // Walk forward past `start`.
    while position <= start
        invariant
            step > 0,
            start < u64::MAX,
            walk_state(position, first_time + m * step, start, step),
        decreases u64::MAX - position,
    {
        proof {
            lemma_step(m, step as int, first_time);
            m = m + 1;
        }
        position = position.saturating_add(step);
    }
    let ghost p = first_time + m * step;
    let ghost mut count: int = 0;
    proof {
        assert(edges@.subrange(0, base.len() as int) == base);
        assert(edges@.subrange(base.len() as int, edges@.len() as int) =~= marker_run(p, step as int, 0));
    }
    while position < end
        invariant
            step > 0,
            count >= 0,
            edges@.len() == base.len() + count,
            edges@.subrange(0, base.len() as int) == base,
            edges@.subrange(base.len() as int, edges@.len() as int) == marker_run(p, step as int, count),
            position as int == p + count * step || (position == u64::MAX && p + count * step > u64::MAX),
            count > 0 ==> p + (count - 1) * step < end,
        decreases u64::MAX - position,
    {
        let ghost before = edges@;
        edges.push(position);
        proof {
            lemma_run_step(p, step as int, count);
            assert(edges@.subrange(0, base.len() as int) == before.subrange(0, base.len() as int));
            assert(position as int == p + count * step);
            assert(edges@ == before.push(position));
            assert(edges@.subrange(base.len() as int, edges@.len() as int) =~= before.subrange(base.len() as int, before.len() as int).push(position));
            assert(marker_run(p, step as int, count + 1) =~= marker_run(p, step as int, count).push(position));
            count = count + 1;
        }
        position = position.saturating_add(step);
    }
    proof {
        let ghost m0 = m;
        let ghost c0 = count;
        assert(natural_end_markers(edges@.subrange(base.len() as int, edges@.len() as int), start, end, first, interval)) by {
            assert(p == first_time + m0 * step);
            assert(repeating_run(edges@.subrange(base.len() as int, edges@.len() as int), start, end, first_time as Time, step, m0, c0));
        }
    }
}

} // verus!
