//! Bags of entries: what a tree stores, apart from how it stores it. An
//! entry is a position with an identifier, and a bag holds an entry as often
//! as it was inserted.

use crate::geometry::{Point, Region};
use crate::shape::Queryable;
use vstd::multiset::Multiset;
use vstd::prelude::*;

verus! {

/// The identifiers that `entries` holds at a position inside `shape`.
pub open spec fn matching_ids<T, S: Queryable>(entries: Multiset<(Point, T)>, shape: &S) -> Set<T> {
    Set::new(
        |id: T|
            exists|p: Point| #[trigger]
                entries.contains((p, id)) && shape.covers(p.x as int, p.y as int),
    )
}

/// The identifiers matched in two bags together are those matched in either.
pub(crate) proof fn lemma_matching_ids_add<T, S: Queryable>(
    a: Multiset<(Point, T)>,
    b: Multiset<(Point, T)>,
    shape: &S,
)
    ensures
        matching_ids(a.add(b), shape) == matching_ids(a, shape).union(matching_ids(b, shape)),
{
    broadcast use vstd::multiset::group_multiset_axioms;

    assert forall|id: T| matching_ids(a.add(b), shape).contains(id) implies matching_ids(
        a,
        shape,
    ).union(matching_ids(b, shape)).contains(id) by {
        let p = choose|p: Point| #[trigger]
            a.add(b).contains((p, id)) && shape.covers(p.x as int, p.y as int);
        assert(a.contains((p, id)) || b.contains((p, id)));
    }
    assert forall|id: T|
        matching_ids(a, shape).union(matching_ids(b, shape)).contains(id) implies matching_ids(
        a.add(b),
        shape,
    ).contains(id) by {
        if matching_ids(a, shape).contains(id) {
            let p = choose|p: Point| #[trigger]
                a.contains((p, id)) && shape.covers(p.x as int, p.y as int);
            assert(a.add(b).contains((p, id)));
        } else {
            let p = choose|p: Point| #[trigger]
                b.contains((p, id)) && shape.covers(p.x as int, p.y as int);
            assert(a.add(b).contains((p, id)));
        }
    }
    assert(matching_ids(a.add(b), shape) =~= matching_ids(a, shape).union(
        matching_ids(b, shape),
    ));
}

/// One more entry adds its identifier to the matched ones if its position
/// lies inside the shape, and nothing otherwise.
pub(crate) proof fn lemma_matching_ids_insert<T, S: Queryable>(
    m: Multiset<(Point, T)>,
    p: Point,
    id: T,
    shape: &S,
)
    ensures
        matching_ids(m.insert((p, id)), shape) == if shape.covers(p.x as int, p.y as int) {
            matching_ids(m, shape).insert(id)
        } else {
            matching_ids(m, shape)
        },
{
    broadcast use vstd::multiset::group_multiset_axioms;

    let grown = m.insert((p, id));
    let expected = if shape.covers(p.x as int, p.y as int) {
        matching_ids(m, shape).insert(id)
    } else {
        matching_ids(m, shape)
    };
    assert forall|other: T| matching_ids(grown, shape).contains(other) implies expected.contains(
        other,
    ) by {
        let q = choose|q: Point| #[trigger]
            grown.contains((q, other)) && shape.covers(q.x as int, q.y as int);
        if (q, other) != (p, id) {
            assert(m.contains((q, other)));
        }
    }
    assert forall|other: T| expected.contains(other) implies matching_ids(grown, shape).contains(
        other,
    ) by {
        if matching_ids(m, shape).contains(other) {
            let q = choose|q: Point| #[trigger]
                m.contains((q, other)) && shape.covers(q.x as int, q.y as int);
            assert(grown.contains((q, other)));
        } else {
            assert(grown.contains((p, id)));
        }
    }
    assert(matching_ids(grown, shape) =~= expected);
}

/// What a tree over `region` stores after the entries of `points` have been
/// inserted in their order into a tree that stored `held`: an entry is added
/// if the region covers its position, and left out otherwise.
pub open spec fn after_inserts<T>(
    held: Multiset<(Point, T)>,
    points: Seq<(Point, T)>,
    region: Region,
) -> Multiset<(Point, T)>
    decreases points.len(),
{
    if points.len() == 0 {
        held
    } else {
        let before = after_inserts(held, points.drop_last(), region);
        if region.covers(points.last().0) {
            before.insert(points.last())
        } else {
            before
        }
    }
}

/// Insertions lose nothing: after any sequence of them the tree still stores
/// what it stored before, and it stores every inserted entry whose position
/// the region covers.
pub proof fn lemma_inserts_are_kept<T>(
    held: Multiset<(Point, T)>,
    points: Seq<(Point, T)>,
    region: Region,
)
    ensures
        forall|e: (Point, T)| held.contains(e) ==> #[trigger] after_inserts(
            held,
            points,
            region,
        ).contains(e),
        forall|i: int|
            0 <= i < points.len() && region.covers(points[i].0) ==> after_inserts(
                held,
                points,
                region,
            ).contains(#[trigger] points[i]),
    decreases points.len(),
{
    broadcast use vstd::multiset::group_multiset_axioms;

    if points.len() > 0 {
        let shorter = points.drop_last();
        lemma_inserts_are_kept(held, shorter, region);
        assert forall|e: (Point, T)| held.contains(e) implies #[trigger] after_inserts(
            held,
            points,
            region,
        ).contains(e) by {
            assert(after_inserts(held, shorter, region).contains(e));
        }
        assert forall|i: int| 0 <= i < points.len() && region.covers(points[i].0) implies after_inserts(
            held,
            points,
            region,
        ).contains(#[trigger] points[i]) by {
            if i < shorter.len() {
                assert(shorter[i] == points[i]);
            }
        }
    }
}

/// The test that an entry is at the position `p`.
pub open spec fn at_position<T>(p: Point) -> spec_fn((Point, T)) -> bool {
    |e: (Point, T)| e.0 == p
}

/// How many of `entries` are at the position `p`.
pub open spec fn count_at<T>(entries: Multiset<(Point, T)>, p: Point) -> nat {
    entries.filter(at_position(p)).len()
}

/// Two bags together have at a position what each has there.
pub(crate) proof fn lemma_count_at_add<T>(a: Multiset<(Point, T)>, b: Multiset<(Point, T)>, p: Point)
    ensures
        count_at(a.add(b), p) == count_at(a, p) + count_at(b, p),
{
    broadcast use vstd::multiset::group_multiset_axioms;

    let at = at_position::<T>(p);
    assert(a.add(b).filter(at) =~= a.filter(at).add(b.filter(at)));
}

} // verus!
