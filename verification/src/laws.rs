//! What holds of the descriptor and of the cache over all inputs.
use crate::engine::{
    cached, entries_of, has_id, ids_of, initialized, lemma_position, position_of, status, upsert,
    well_formed, Entry,
};
use crate::features::{
    all_numbers, cell_count, features, highest, in_cell, lemma_extremes_are_members, lowest,
    values, xs, ys, GridEdges, Moments, Point, FEATURE_LENGTH,
};
use crate::ieee::{Double, Single};
use vstd::prelude::*;

verus! {

/// The two values are the same number: the same pattern, or the two zeros.
pub open spec fn same_number(a: Double, b: Double) -> bool {
    a == b || (a.spec_is_zero() && b.spec_is_zero())
}

proof fn lemma_cell_count_concat(a: Seq<Point>, b: Seq<Point>, grid: GridEdges, i: int, j: int)
    ensures
        cell_count(a + b, grid, i, j) == cell_count(a, grid, i, j) + cell_count(b, grid, i, j),
    decreases b.len(),
{
    if b.len() == 0 {
        assert(a + b == a);
    } else {
        assert((a + b).drop_last() == a + b.drop_last());
        assert((a + b).last() == b.last());
        lemma_cell_count_concat(a, b.drop_last(), grid, i, j);
    }
}

proof fn lemma_cell_count_remove(s: Seq<Point>, n: int, grid: GridEdges, i: int, j: int)
    requires
        0 <= n < s.len(),
    ensures
        cell_count(s, grid, i, j) == cell_count(s.remove(n), grid, i, j) + if in_cell(
            s[n],
            grid,
            i,
            j,
        ) {
            1nat
        } else {
            0nat
        },
{
    let head = s.take(n);
    let one = seq![s[n]];
    let tail = s.skip(n + 1);
    assert(s == head + one + tail);
    assert(s.remove(n) == head + tail);
    lemma_cell_count_concat(head + one, tail, grid, i, j);
    lemma_cell_count_concat(head, one, grid, i, j);
    lemma_cell_count_concat(head, tail, grid, i, j);
    assert(one.drop_last() == Seq::<Point>::empty());
    assert(cell_count(one.drop_last(), grid, i, j) == 0);
    assert(one.last() == s[n]);
}

/// Two sequences of the same points, in whatever order, fill every cell of
/// the grid alike.
pub proof fn lemma_cell_count_ignores_order(
    p: Seq<Point>,
    q: Seq<Point>,
    grid: GridEdges,
    i: int,
    j: int,
)
    requires
        p.to_multiset() == q.to_multiset(),
    ensures
        cell_count(p, grid, i, j) == cell_count(q, grid, i, j),
    decreases p.len(),
{
    p.to_multiset_ensures();
    q.to_multiset_ensures();
    if p.len() == 0 {
        assert(q.len() == 0);
    } else {
        let x = p.last();
        let rest = p.drop_last();
        rest.to_multiset_ensures();
        assert(rest.push(x) == p);
        assert(p.to_multiset().count(x) > 0);
        assert(q.contains(x));
        let n = choose|n: int| 0 <= n < q.len() && q[n] == x;
        assert(q.remove(n).to_multiset() =~= rest.to_multiset());
        lemma_cell_count_ignores_order(rest, q.remove(n), grid, i, j);
        lemma_cell_count_remove(q, n, grid, i, j);
    }
}

/// Among numbers, the least value of a sequence is at most every value of it,
/// and the greatest at least every one.
pub proof fn lemma_extremes_bound(s: Seq<Single>, i: int)
    requires
        forall|k: int| 0 <= k < s.len() ==> !(#[trigger] s[k]).spec_is_nan(),
        0 <= i < s.len(),
    ensures
        lowest(s).ordinal() <= s[i].ordinal(),
        highest(s).ordinal() >= s[i].ordinal(),
        !lowest(s).spec_is_nan(),
        !highest(s).spec_is_nan(),
    decreases s.len(),
{
    lemma_extremes_are_members(s);
    let a = choose|a: int| 0 <= a < s.len() && s[a] == lowest(s);
    let b = choose|b: int| 0 <= b < s.len() && s[b] == highest(s);
    assert(!s[a].spec_is_nan() && !s[b].spec_is_nan());
    if s.len() > 1 {
        let rest = s.drop_last();
        assert forall|k: int| 0 <= k < rest.len() implies !(#[trigger] rest[k]).spec_is_nan() by {
            assert(rest[k] == s[k]);
        }
        if i < s.len() - 1 {
            lemma_extremes_bound(rest, i);
        } else {
            lemma_extremes_bound(rest, 0);
        }
    }
}

proof fn lemma_extremes_ignore_order(s: Seq<Single>, t: Seq<Single>)
    requires
        s.len() > 0,
        forall|k: int| 0 <= k < s.len() ==> !(#[trigger] s[k]).spec_is_nan(),
        forall|k: int| 0 <= k < s.len() ==> t.contains(#[trigger] s[k]),
        forall|k: int| 0 <= k < t.len() ==> s.contains(#[trigger] t[k]),
    ensures
        lowest(s).ordinal() == lowest(t).ordinal(),
        highest(s).ordinal() == highest(t).ordinal(),
        !lowest(s).spec_is_nan(),
        !highest(s).spec_is_nan(),
        !lowest(t).spec_is_nan(),
        !highest(t).spec_is_nan(),
{
    assert(t.contains(s[0]));
    assert forall|k: int| 0 <= k < t.len() implies !(#[trigger] t[k]).spec_is_nan() by {
        assert(s.contains(t[k]));
    }
    lemma_extremes_are_members(s);
    lemma_extremes_are_members(t);
    let a = choose|a: int| 0 <= a < s.len() && s[a] == lowest(s);
    assert(t.contains(s[a]));
    let a2 = choose|a2: int| 0 <= a2 < t.len() && t[a2] == lowest(s);
    lemma_extremes_bound(t, a2);
    let b = choose|b: int| 0 <= b < t.len() && t[b] == lowest(t);
    assert(s.contains(t[b]));
    let b2 = choose|b2: int| 0 <= b2 < s.len() && s[b2] == lowest(t);
    lemma_extremes_bound(s, b2);
    let c = choose|c: int| 0 <= c < s.len() && s[c] == highest(s);
    assert(t.contains(s[c]));
    let c2 = choose|c2: int| 0 <= c2 < t.len() && t[c2] == highest(s);
    lemma_extremes_bound(t, c2);
    let d = choose|d: int| 0 <= d < t.len() && t[d] == highest(t);
    assert(s.contains(t[d]));
    let d2 = choose|d2: int| 0 <= d2 < s.len() && s[d2] == highest(t);
    lemma_extremes_bound(s, d2);
}

/// Numbers at the same place of the number line widen to the same number.
proof fn lemma_widened_same_number(a: Single, b: Single)
    requires
        !a.spec_is_nan(),
        !b.spec_is_nan(),
        a.ordinal() == b.ordinal(),
    ensures
        same_number(a.widened(), b.widened()),
{
    if a != b {
        assert(a.magnitude() == 0 && b.magnitude() == 0);
        assert(a.significand() == 0 && b.significand() == 0);
    }
}

proof fn lemma_coordinates_ignore_order(p: Seq<Point>, q: Seq<Point>, axis: spec_fn(Point) -> Single)
    requires
        p.to_multiset() == q.to_multiset(),
    ensures
        forall|k: int| 0 <= k < p.len() ==> q.map_values(axis).contains(#[trigger] p.map_values(axis)[k]),
{
    p.to_multiset_ensures();
    q.to_multiset_ensures();
    assert forall|k: int| 0 <= k < p.len() implies q.map_values(axis).contains(
        #[trigger] p.map_values(axis)[k],
    ) by {
        assert(p.contains(p[k]));
        assert(q.to_multiset().count(p[k]) > 0);
        assert(q.contains(p[k]));
        let n = choose|n: int| 0 <= n < q.len() && q[n] == p[k];
        assert(q.map_values(axis)[n] == p.map_values(axis)[k]);
    }
}

/// The descriptor does not depend on the order of the points.
///
/// For two sequences of the same points, and the same moments and grid, the
/// descriptors agree entry by entry: the count and the hundred occupancy
/// counts are the same patterns, and each of the six bounds is the same
/// number (a bound that is zero may differ in the sign of the zero, which
/// is that of whichever zero coordinate came first or last).
pub proof fn law_descriptor_ignores_order(
    p: Seq<Point>,
    q: Seq<Point>,
    moments: Moments,
    grid: GridEdges,
    k: int,
)
    requires
        p.to_multiset() == q.to_multiset(),
        all_numbers(p),
        p.len() > 0,
        0 <= k < FEATURE_LENGTH,
    ensures
        same_number(features(p, moments, grid)[k], features(q, moments, grid)[k]),
        k < 6 || k >= 12 ==> features(p, moments, grid)[k] == features(q, moments, grid)[k],
{
    p.to_multiset_ensures();
    q.to_multiset_ensures();
    assert(p.len() == q.len());
    if 6 <= k < 12 {
        let axis = if k < 8 {
            |t: Point| t.x
        } else if k < 10 {
            |t: Point| t.y
        } else {
            |t: Point| t.value
        };
        lemma_coordinates_ignore_order(p, q, axis);
        lemma_coordinates_ignore_order(q, p, axis);
        let s = p.map_values(axis);
        let t = q.map_values(axis);
        assert forall|n: int| 0 <= n < s.len() implies !(#[trigger] s[n]).spec_is_nan() by {
            assert(p[n].spec_is_number());
        }
        lemma_extremes_ignore_order(s, t);
        lemma_widened_same_number(lowest(s), lowest(t));
        lemma_widened_same_number(highest(s), highest(t));
        assert(s == if k < 8 { xs(p) } else if k < 10 { ys(p) } else { values(p) });
        assert(t == if k < 8 { xs(q) } else if k < 10 { ys(q) } else { values(q) });
    } else if k >= 13 {
        lemma_cell_count_ignores_order(p, q, grid, (k - 13) / 10, (k - 13) % 10);
    }
}

/// After `initialize_dataset` the status is no images and no identifiers,
/// whatever the engine held before.
pub proof fn law_status_after_initialize()
    ensures
        status(initialized()) == (0nat, Seq::<Seq<char>>::empty()),
        well_formed(initialized()),
{
    assert(ids_of(Seq::<Entry>::empty()) == Seq::<Seq<char>>::empty());
}

/// After `initialize_dataset` and one `cache_features` the status is one
/// image, and its identifier.
pub proof fn law_status_after_first_cache(id: Seq<char>, descriptor: Seq<Double>)
    ensures
        status(cached(initialized(), id, descriptor)) == (1nat, seq![id]),
{
    let empty = Seq::<Entry>::empty();
    assert(!has_id(empty, id));
    assert(ids_of(empty.push((id, descriptor))) == seq![id]);
}

/// `cache_features` on an engine without a cache does what it does after
/// `initialize_dataset`.
pub proof fn law_cache_without_initialize(id: Seq<char>, descriptor: Seq<Double>)
    ensures
        cached(None, id, descriptor) == cached(initialized(), id, descriptor),
{
}

/// Storing a descriptor keeps the cache well formed: still no identifier
/// twice, and every descriptor of the length of a descriptor.
pub proof fn law_cached_is_well_formed(
    state: Option<Seq<Entry>>,
    id: Seq<char>,
    descriptor: Seq<Double>,
)
    requires
        well_formed(state),
        descriptor.len() == FEATURE_LENGTH,
    ensures
        well_formed(cached(state, id, descriptor)),
{
    let before = entries_of(state);
    let after = upsert(before, id, descriptor);
    if has_id(before, id) {
        let at = position_of(before, id);
        assert forall|i: int, j: int| 0 <= i < j < after.len() implies (#[trigger] after[i]).0 != (
        #[trigger] after[j]).0 by {
            assert(before[i].0 != before[j].0);
        }
    } else {
        assert forall|i: int, j: int| 0 <= i < j < after.len() implies (#[trigger] after[i]).0 != (
        #[trigger] after[j]).0 by {
            if j < before.len() {
                assert(before[i].0 != before[j].0);
            } else {
                assert(before[i].0 != id);
            }
        }
    }
}

/// What storing a descriptor changes: the identifier then has that
/// descriptor, every other identifier keeps its own, and the cache grows by
/// one exactly where the identifier is new.
pub proof fn law_cached_entry(
    state: Option<Seq<Entry>>,
    id: Seq<char>,
    descriptor: Seq<Double>,
    other: Seq<char>,
)
    requires
        well_formed(state),
        descriptor.len() == FEATURE_LENGTH,
    ensures
        has_id(entries_of(cached(state, id, descriptor)), id),
        entries_of(cached(state, id, descriptor))[position_of(
            entries_of(cached(state, id, descriptor)),
            id,
        )].1 == descriptor,
        status(cached(state, id, descriptor)).0 == status(state).0 + if has_id(
            entries_of(state),
            id,
        ) {
            0nat
        } else {
            1nat
        },
        other != id ==> (has_id(entries_of(cached(state, id, descriptor)), other) <==> has_id(
            entries_of(state),
            other,
        )),
        other != id && has_id(entries_of(state), other) ==> entries_of(
            cached(state, id, descriptor),
        )[position_of(entries_of(cached(state, id, descriptor)), other)].1 == entries_of(
            state,
        )[position_of(entries_of(state), other)].1,
{
    law_cached_is_well_formed(state, id, descriptor);
    let before = entries_of(state);
    let after = upsert(before, id, descriptor);
    let at = if has_id(before, id) {
        position_of(before, id)
    } else {
        before.len() as int
    };
    assert(after[at].0 == id);
    lemma_position(after, id, at);
    if other != id {
        if has_id(before, other) {
            let n = position_of(before, other);
            assert(after[n] == before[n]);
            lemma_position(after, other, n);
        }
        if has_id(after, other) {
            let n = position_of(after, other);
            assert(n != at);
            assert(before[n] == after[n]);
        }
    }
}

/// Storing a second descriptor under an identifier leaves what storing the
/// second alone would have left.
pub proof fn law_recache_overwrites(
    state: Option<Seq<Entry>>,
    id: Seq<char>,
    first: Seq<Double>,
    second: Seq<Double>,
)
    requires
        well_formed(state),
        first.len() == FEATURE_LENGTH,
    ensures
        cached(cached(state, id, first), id, second) == cached(state, id, second),
{
    law_cached_is_well_formed(state, id, first);
    let before = entries_of(state);
    let between = upsert(before, id, first);
    let at = if has_id(before, id) {
        position_of(before, id)
    } else {
        before.len() as int
    };
    assert(between[at].0 == id);
    lemma_position(between, id, at);
    assert(upsert(between, id, second) =~= upsert(before, id, second));
}

} // verus!
