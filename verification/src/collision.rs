//! Proximity pairing: which identifiers lie within a radius of which other,
//! found with a quadtree over all points, and what a pair does to the
//! velocities of its two points.

use crate::collections::{map_contains_key, map_insert, set_members};
use crate::geometry::{Point, Region};
use crate::shape::Circle;
use crate::entries::{after_inserts, matching_ids};
use crate::tree::{config_error, ConfigError, QuadTree};
use bevy::utils::{HashMap, HashSet};
use vstd::multiset::Multiset;
use vstd::prelude::*;

verus! {

/// The pairs after the point with identifier `entity` has been handled, when
/// `matching` are the identifiers found near it. If `entity` is already the
/// first of a pair nothing is recorded. Otherwise every found identifier
/// other than `entity` becomes the first of a pair with `entity`, in place
/// of the pair it was the first of before, if any.
pub open spec fn recorded(pairs: Map<u64, u64>, entity: u64, matching: Set<u64>) -> Map<u64, u64> {
    if pairs.contains_key(entity) {
        pairs
    } else {
        Map::new(
            |q: u64| pairs.contains_key(q) || (matching.contains(q) && q != entity),
            |q: u64|
                if matching.contains(q) && q != entity {
                    entity
                } else {
                    pairs[q]
                },
        )
    }
}

/// The circle of the given radius about a position.
pub open spec fn circle_about(position: Point, radius: u32) -> Circle {
    Circle { x: position.x, y: position.y, r: radius }
}

/// The pairs that the points give, handled in their order, when `stored` are
/// the entries of the tree: for each point the identifiers stored within
/// `radius` of its position are recorded as `recorded` says. The map takes
/// the first identifier of each pair to the second.
pub open spec fn collisions(
    stored: Multiset<(Point, u64)>,
    points: Seq<(Point, u64)>,
    radius: u32,
) -> Map<u64, u64>
    decreases points.len(),
{
    if points.len() == 0 {
        Map::empty()
    } else {
        recorded(
            collisions(stored, points.drop_last(), radius),
            points.last().1,
            matching_ids(stored, &circle_about(points.last().0, radius)),
        )
    }
}

/// The two identifiers of a pair differ, and the first was found within the
/// radius of a point that carries the second.
pub proof fn lemma_pairs_are_near(
    stored: Multiset<(Point, u64)>,
    points: Seq<(Point, u64)>,
    radius: u32,
    first: u64,
)
    requires
        collisions(stored, points, radius).contains_key(first),
    ensures
        collisions(stored, points, radius)[first] != first,
        exists|i: int|
            0 <= i < points.len() && (#[trigger] points[i]).1 == collisions(
                stored,
                points,
                radius,
            )[first] && matching_ids(stored, &circle_about(points[i].0, radius)).contains(first),
    decreases points.len(),
{
    if points.len() > 0 {
        let shorter = points.drop_last();
        let before = collisions(stored, shorter, radius);
        let entity = points.last().1;
        let matching = matching_ids(stored, &circle_about(points.last().0, radius));
        if !before.contains_key(entity) && matching.contains(first) && first != entity {
            let last = points.len() - 1;
            assert(points[last].1 == collisions(stored, points, radius)[first]);
        } else {
            lemma_pairs_are_near(stored, shorter, radius, first);
            let i = choose|i: int|
                0 <= i < shorter.len() && (#[trigger] shorter[i]).1 == before[first] && matching_ids(
                    stored,
                    &circle_about(shorter[i].0, radius),
                ).contains(first);
            assert(points[i] == shorter[i]);
        }
    }
}

/// The members of a sequence with one more element are those of the
/// sequence and the element.
proof fn lemma_prefix_members(ids: Seq<u64>, j: int)
    requires
        0 <= j < ids.len(),
    ensures
        ids.subrange(0, j + 1).to_set() == ids.subrange(0, j).to_set().insert(ids[j]),
{
    let longer = ids.subrange(0, j + 1);
    let shorter = ids.subrange(0, j);
    assert forall|q: u64| longer.to_set().contains(q) implies shorter.to_set().insert(
        ids[j],
    ).contains(q) by {
        let k = choose|k: int| 0 <= k < longer.len() && longer[k] == q;
        if k < j {
            assert(shorter[k] == q);
        }
    }
    assert forall|q: u64| shorter.to_set().insert(ids[j]).contains(q) implies longer.to_set().contains(
        q,
    ) by {
        if q == ids[j] {
            assert(longer[j] == q);
        } else {
            let k = choose|k: int| 0 <= k < shorter.len() && shorter[k] == q;
            assert(longer[k] == q);
        }
    }
    assert(longer.to_set() =~= shorter.to_set().insert(ids[j]));
}

/// Records what was found near the point with identifier `entity`: unless
/// `entity` is already the first of a pair, every member of `matching` other
/// than `entity` becomes the first of a pair with `entity`.
pub fn record_matches(pairs: &mut HashMap<u64, u64>, entity: u64, matching: &HashSet<u64>)
    ensures
        final(pairs)@ == recorded(old(pairs)@, entity, matching@),
{
    let ids = set_members(matching);
    let n = ids.len();
    let mut j: usize = 0;
    proof {
        assert(ids@.subrange(0, 0).to_set() =~= Set::<u64>::empty());
        assert(pairs@ =~= recorded(old(pairs)@, entity, Set::<u64>::empty()));
    }
    while j < n
        invariant
            j <= n,
            n == ids.len(),
            pairs@ == recorded(old(pairs)@, entity, ids@.subrange(0, j as int).to_set()),
        decreases n - j,
    {
        let point = ids[j];
        if point != entity && !map_contains_key(pairs, entity) {
            map_insert(pairs, point, entity);
        }
        proof {
            lemma_prefix_members(ids@, j as int);
            assert(pairs@ =~= recorded(
                old(pairs)@,
                entity,
                ids@.subrange(0, j as int).to_set().insert(point),
            ));
        }
        j += 1;
    }
    proof {
        assert(ids@.subrange(0, n as int) =~= ids@);
    }
}

/// Finds the colliding pairs among `points`: for each point, in order, the
/// identifiers stored in `tree` within `radius` of its position are looked up
/// and recorded. The result maps the first identifier of each pair to the
/// second.
pub fn collect_collisions(tree: &QuadTree<u64>, points: &Vec<(Point, u64)>, radius: u32) -> (pairs:
    HashMap<u64, u64>)
    requires
        tree.wf(),
    ensures
        pairs@ == collisions(tree.entries(), points@, radius),
{
    let mut matching_points: HashSet<u64> = HashSet::default();
    let mut pairs: HashMap<u64, u64> = HashMap::default();
    let n = points.len();
    let mut i: usize = 0;
    proof {
        assert(points@.subrange(0, 0) =~= Seq::<(Point, u64)>::empty());
    }
    while i < n
        invariant
            i <= n,
            n == points.len(),
            tree.wf(),
            matching_points@ == Set::<u64>::empty(),
            pairs@ == collisions(tree.entries(), points@.subrange(0, i as int), radius),
        decreases n - i,
    {
        let (position, entity) = points[i];
        let circle = Circle::new(position.x, position.y, radius);
        tree.query(&circle, &mut matching_points);
        proof {
            assert(matching_points@ =~= tree.ids_within(&circle));
            let prefix = points@.subrange(0, i + 1);
            assert(prefix.drop_last() =~= points@.subrange(0, i as int));
            assert(prefix.last() == points@[i as int]);
        }
        record_matches(&mut pairs, entity, &matching_points);
        matching_points.clear();
        i += 1;
    }
    proof {
        assert(points@.subrange(0, n as int) =~= points@);
    }
    pairs
}

/// One step of collision detection: a tree over the region with origin
/// `(x, y)` and the given size is built from all points, and the colliding
/// pairs among them are found in it. Points outside the region are in no
/// tree, so nothing finds them; they still look for others. The region and
/// the capacity are rejected as `QuadTree::new` rejects them.
pub fn point_collisions(
    x: i32,
    y: i32,
    width: u32,
    height: u32,
    max_points: usize,
    points: &Vec<(Point, u64)>,
    radius: u32,
) -> (found: Result<HashMap<u64, u64>, ConfigError>)
    ensures
        match found {
            Ok(pairs) => {
                &&& config_error(x, y, width, height, max_points) is None
                &&& pairs@ == collisions(
                    after_inserts(Multiset::empty(), points@, Region { x, y, width, height }),
                    points@,
                    radius,
                )
            },
            Err(e) => config_error(x, y, width, height, max_points) == Some(e),
        },
{
    match QuadTree::build(x, y, width, height, max_points, points) {
        Ok(quadtree) => Ok(collect_collisions(&quadtree, points, radius)),
        Err(e) => Err(e),
    }
}

/// The sign bit of a single-precision number.
pub const SIGN_BIT: u32 = 0x8000_0000;

/// A velocity in the plane: the bit patterns of its two single-precision
/// components. The library never computes with the numbers; it only negates
/// them, which changes the sign bit and nothing else.
#[derive(Clone, Copy, Debug, PartialEq, Eq, Structural)]
pub struct Velocity {
    pub x_bits: u32,
    pub y_bits: u32,
}

impl Velocity {
    /// The velocity of the same size in the opposite direction: both sign
    /// bits changed.
    pub open spec fn negation(self) -> Velocity {
        Velocity { x_bits: self.x_bits ^ SIGN_BIT, y_bits: self.y_bits ^ SIGN_BIT }
    }

    /// The velocity with the given bit patterns.
    pub fn new(x_bits: u32, y_bits: u32) -> (v: Velocity)
        ensures
            v == (Velocity { x_bits, y_bits }),
    {
        Velocity { x_bits, y_bits }
    }

    /// Negates both components.
    pub fn negated(self) -> (v: Velocity)
        ensures
            v == self.negation(),
    {
        Velocity { x_bits: self.x_bits ^ SIGN_BIT, y_bits: self.y_bits ^ SIGN_BIT }
    }

    /// Negating twice gives the velocity back.
    pub proof fn lemma_negation_is_involution(self)
        ensures
            self.negation().negation() == self,
    {
        let x = self.x_bits;
        let y = self.y_bits;
        assert((x ^ 0x8000_0000u32) ^ 0x8000_0000u32 == x) by (bit_vector);
        assert((y ^ 0x8000_0000u32) ^ 0x8000_0000u32 == y) by (bit_vector);
    }
}

/// What a collision does to the velocities of a pair: each point takes the
/// negated velocity that the other had. Where a point of the pair has no
/// velocity any more, the pair is passed over and nothing is returned.
pub fn exchange_velocities(first: Option<Velocity>, second: Option<Velocity>) -> (exchanged: Option<
    (Velocity, Velocity),
>)
    ensures
        exchanged == match (first, second) {
            (Some(a), Some(b)) => Some((b.negation(), a.negation())),
            _ => None::<(Velocity, Velocity)>,
        },
{
    match (first, second) {
        (Some(a), Some(b)) => Some((b.negated(), a.negated())),
        _ => None,
    }
}

} // verus!
