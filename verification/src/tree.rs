//! The quadtree: a region that stores its entries itself while they are few,
//! and hands them to four quarters once they are too many.

use crate::collections::set_insert;
use crate::entries::{
    after_inserts, count_at, at_position, lemma_count_at_add, lemma_inserts_are_kept,
    lemma_matching_ids_add, lemma_matching_ids_insert, matching_ids,
};
use crate::geometry::{Point, Quadrant, Region};
use crate::shape::Queryable;
use bevy::utils::HashSet;
use std::hash::Hash;
use vstd::multiset::Multiset;
use vstd::prelude::*;
use vstd::std_specs::hash::obeys_key_model;

verus! {

/// Why a tree cannot be made over a region with a capacity.
#[derive(Clone, Copy, Debug, PartialEq, Eq, Structural)]
pub enum ConfigError {
    /// The capacity is zero: no leaf could hold an entry.
    ZeroCapacity,
    /// The region has no width or no height.
    EmptyRegion,
    /// A far edge of the region lies beyond the largest coordinate.
    RegionOutOfRange,
}

/// What a node holds: its entries, or the four quarters that hold them.
#[derive(Debug)]
enum Node<T: Copy + Hash + Eq> {
    Leaf(Vec<(Point, T)>),
    Internal(Box<QuadTreeChildren<T>>),
}

/// The four quarters of a node that has been subdivided.
#[derive(Debug)]
struct QuadTreeChildren<T: Copy + Hash + Eq> {
    northeast: QuadTree<T>,
    northwest: QuadTree<T>,
    southeast: QuadTree<T>,
    southwest: QuadTree<T>,
}

/// A quadtree over a region of the grid. It stores entries, each a position
/// with an identifier, and finds the identifiers stored inside a shape.
#[derive(Debug)]
pub struct QuadTree<T: Copy + Hash + Eq> {
    region: Region,
    max_points: usize,
    node: Node<T>,
}

/// The error that rejects a region and a capacity, if there is one. A zero
/// capacity is reported first, then an empty region, then one out of range.
pub open spec fn config_error(
    x: i32,
    y: i32,
    width: u32,
    height: u32,
    max_points: usize,
) -> Option<ConfigError> {
    if max_points == 0 {
        Some(ConfigError::ZeroCapacity)
    } else if width == 0 || height == 0 {
        Some(ConfigError::EmptyRegion)
    } else if !(Region { x, y, width, height }).in_range() {
        Some(ConfigError::RegionOutOfRange)
    } else {
        None
    }
}

impl<T: Copy + Hash + Eq> QuadTreeChildren<T> {
    /// The regions and sizes of the leaves of all four quarters.
    spec fn leaves(&self) -> Seq<(Region, usize)>
        decreases self,
    {
        self.northeast.leaves() + self.northwest.leaves() + self.southeast.leaves()
            + self.southwest.leaves()
    }

    /// The entries of all four quarters.
    spec fn entries(&self) -> Multiset<(Point, T)>
        decreases self,
    {
        self.northeast.entries().add(self.northwest.entries()).add(self.southeast.entries()).add(
            self.southwest.entries(),
        )
    }

    /// Whether the quarters are those of `region`, each a well-formed tree of
    /// the given capacity.
    spec fn wf_under(&self, region: Region, max_points: usize) -> bool
        decreases self,
    {
        &&& self.northeast.wf()
        &&& self.northwest.wf()
        &&& self.southeast.wf()
        &&& self.southwest.wf()
        &&& self.northeast.region == region.quadrant(Quadrant::NorthEast)
        &&& self.northwest.region == region.quadrant(Quadrant::NorthWest)
        &&& self.southeast.region == region.quadrant(Quadrant::SouthEast)
        &&& self.southwest.region == region.quadrant(Quadrant::SouthWest)
        &&& self.northeast.max_points == max_points
        &&& self.northwest.max_points == max_points
        &&& self.southeast.max_points == max_points
        &&& self.southwest.max_points == max_points
        &&& self.placed()
    }

    /// The quarter `q`.
    spec fn quarter(&self, q: Quadrant) -> QuadTree<T> {
        match q {
            Quadrant::NorthEast => self.northeast,
            Quadrant::NorthWest => self.northwest,
            Quadrant::SouthEast => self.southeast,
            Quadrant::SouthWest => self.southwest,
        }
    }

    /// The quarter that receives `p`: the first in the order north-east,
    /// north-west, south-east, south-west whose region covers it.
    spec fn first_covering(&self, p: Point) -> Quadrant {
        if self.northeast.region.covers(p) {
            Quadrant::NorthEast
        } else if self.northwest.region.covers(p) {
            Quadrant::NorthWest
        } else if self.southeast.region.covers(p) {
            Quadrant::SouthEast
        } else {
            Quadrant::SouthWest
        }
    }

    /// Whether every entry is stored in the quarter that receives its
    /// position.
    spec fn placed(&self) -> bool {
        &&& forall|p: Point, id: T| #[trigger]
            self.northeast.entries().contains((p, id)) ==> self.first_covering(p)
                == Quadrant::NorthEast
        &&& forall|p: Point, id: T| #[trigger]
            self.northwest.entries().contains((p, id)) ==> self.first_covering(p)
                == Quadrant::NorthWest
        &&& forall|p: Point, id: T| #[trigger]
            self.southeast.entries().contains((p, id)) ==> self.first_covering(p)
                == Quadrant::SouthEast
        &&& forall|p: Point, id: T| #[trigger]
            self.southwest.entries().contains((p, id)) ==> self.first_covering(p)
                == Quadrant::SouthWest
    }

    /// Whether one of the quarters covers `p`.
    spec fn covers(&self, p: Point) -> bool {
        self.northeast.region.covers(p) || self.northwest.region.covers(p)
            || self.southeast.region.covers(p) || self.southwest.region.covers(p)
    }

    /// Whether the regions and capacities are those of `other`.
    spec fn same_frame(&self, other: &Self) -> bool {
        &&& self.northeast.region == other.northeast.region
        &&& self.northwest.region == other.northwest.region
        &&& self.southeast.region == other.southeast.region
        &&& self.southwest.region == other.southwest.region
        &&& self.northeast.max_points == other.northeast.max_points
        &&& self.northwest.max_points == other.northwest.max_points
        &&& self.southeast.max_points == other.southeast.max_points
        &&& self.southwest.max_points == other.southwest.max_points
    }

    /// The extent that all four quarters share.
    spec fn extent(&self) -> nat {
        self.northeast.region.extent()
    }

    /// Whether the four quarters are well-formed and of one size, and every
    /// entry is stored in the quarter that receives its position.
    spec fn wf(&self) -> bool {
        &&& self.northeast.wf()
        &&& self.northwest.wf()
        &&& self.southeast.wf()
        &&& self.southwest.wf()
        &&& self.northwest.region.extent() == self.extent()
        &&& self.southeast.region.extent() == self.extent()
        &&& self.southwest.region.extent() == self.extent()
        &&& self.placed()
    }

    /// An entry that goes to the quarter that receives its position leaves
    /// every entry in the quarter that receives it.
    proof fn lemma_insert_keeps_placed(
        before: &Self,
        after: &Self,
        q: Quadrant,
        position: Point,
        item: T,
    )
        requires
            before.placed(),
            after.same_frame(before),
            before.first_covering(position) == q,
            after.quarter(q).entries() == before.quarter(q).entries().insert((position, item)),
            forall|o: Quadrant| o != q ==> after.quarter(o).entries() == before.quarter(o).entries(),
        ensures
            after.placed(),
    {
        broadcast use vstd::multiset::group_multiset_axioms;

        assert forall|o: Quadrant, p: Point, id: T| #[trigger]
            after.quarter(o).entries().contains((p, id)) implies after.first_covering(p) == o by {
            assert(after.first_covering(p) == before.first_covering(p));
            if o == q && (p, id) == (position, item) {
            } else {
                assert(before.quarter(o).entries().contains((p, id)));
                assert(before.first_covering(p) == o);
            }
        }
        assert(after.quarter(Quadrant::NorthEast) == after.northeast);
        assert(after.quarter(Quadrant::NorthWest) == after.northwest);
        assert(after.quarter(Quadrant::SouthEast) == after.southeast);
        assert(after.quarter(Quadrant::SouthWest) == after.southwest);
    }

    /// Offers the entry to the quarters in the order north-east, north-west,
    /// south-east, south-west; the first whose region covers the position
    /// stores it.
    fn insert(&mut self, position: Point, item: T) -> (accepted: bool)
        requires
            old(self).wf(),
        ensures
            final(self).wf(),
            final(self).same_frame(old(self)),
            accepted == old(self).covers(position),
            accepted ==> final(self).entries() == old(self).entries().insert((position, item)),
            !accepted ==> *final(self) == *old(self),
        decreases old(self).extent(), 3int,
    {
        broadcast use vstd::multiset::group_multiset_axioms;

        if self.northeast.insert(position, item) {
            proof {
                assert(self.entries() =~= old(self).entries().insert((position, item)));
                Self::lemma_insert_keeps_placed(
                    old(self),
                    self,
                    Quadrant::NorthEast,
                    position,
                    item,
                );
            }
            true
        } else if self.northwest.insert(position, item) {
            proof {
                assert(self.entries() =~= old(self).entries().insert((position, item)));
                Self::lemma_insert_keeps_placed(
                    old(self),
                    self,
                    Quadrant::NorthWest,
                    position,
                    item,
                );
            }
            true
        } else if self.southeast.insert(position, item) {
            proof {
                assert(self.entries() =~= old(self).entries().insert((position, item)));
                Self::lemma_insert_keeps_placed(
                    old(self),
                    self,
                    Quadrant::SouthEast,
                    position,
                    item,
                );
            }
            true
        } else if self.southwest.insert(position, item) {
            proof {
                assert(self.entries() =~= old(self).entries().insert((position, item)));
                Self::lemma_insert_keeps_placed(
                    old(self),
                    self,
                    Quadrant::SouthWest,
                    position,
                    item,
                );
            }
            true
        } else {
            false
        }
    }
}

impl<T: Copy + Hash + Eq> QuadTree<T> {
    /// The region that the tree was made over.
    pub closed spec fn region(&self) -> Region {
        self.region
    }

    /// The number of entries after which a leaf is subdivided.
    pub closed spec fn capacity(&self) -> nat {
        self.max_points as nat
    }

    /// Whether the tree stores its entries itself, not in quarters.
    pub closed spec fn is_leaf(&self) -> bool {
        self.node is Leaf
    }

    /// The tree over the quarter `q` of a subdivided node. A leaf has no
    /// quarters; for a leaf this is the leaf itself.
    pub closed spec fn quarter(&self, q: Quadrant) -> QuadTree<T> {
        match self.node {
            Node::Leaf(_) => *self,
            Node::Internal(children) => children.quarter(q),
        }
    }

    /// The stored entries, each as often as it was inserted.
    pub closed spec fn entries(&self) -> Multiset<(Point, T)>
        decreases self,
    {
        match self.node {
            Node::Leaf(points) => points@.to_multiset(),
            Node::Internal(children) => children.entries(),
        }
    }

    /// The leaves of the tree, each with its region and the number of entries
    /// it holds, the quarters of a node in the order north-east, north-west,
    /// south-east, south-west.
    pub closed spec fn leaves(&self) -> Seq<(Region, usize)>
        decreases self,
    {
        match self.node {
            Node::Leaf(points) => seq![(self.region, points.len())],
            Node::Internal(children) => children.leaves(),
        }
    }

    /// The invariant of the tree. The capacity is at least one and the region
    /// is in range. A leaf's entries lie in its region, and are no more than
    /// the capacity unless the region is a single point. A subdivided node
    /// has more than one point, and its quarters are well-formed trees of the
    /// same capacity over the four quarters of its region; each entry is
    /// stored in the first quarter, in the order north-east, north-west,
    /// south-east, south-west, that covers its position.
    pub closed spec fn wf(&self) -> bool
        decreases self,
    {
        &&& self.max_points >= 1
        &&& self.region.in_range()
        &&& match self.node {
            Node::Leaf(points) => {
                &&& points.len() <= self.max_points || self.region.is_single_point()
                &&& forall|i: int| 0 <= i < points.len() ==> self.region.covers(#[trigger] points[i].0)
            },
            Node::Internal(children) => {
                &&& !self.region.is_single_point()
                &&& children.wf_under(self.region, self.max_points)
            },
        }
    }

    /// An empty leaf over `region`.
    fn leaf(region: Region, max_points: usize) -> (tree: Self)
        requires
            region.in_range(),
            max_points >= 1,
        ensures
            tree.wf(),
            tree.region == region,
            tree.max_points == max_points,
            tree.is_leaf(),
            tree.entries() == Multiset::<(Point, T)>::empty(),
    {
        let tree = QuadTree { region, max_points, node: Node::Leaf(Vec::new()) };
        proof {
            broadcast use vstd::seq_lib::group_to_multiset_ensures;

            assert(tree.entries() =~= Multiset::<(Point, T)>::empty());
        }
        tree
    }

    /// Makes an empty tree over the region with origin `(x, y)` and the given
    /// size, whose leaves are subdivided once they hold `max_points` entries.
    /// A zero capacity, a region without width or height, and a region whose
    /// far edge is no coordinate are rejected.
    pub fn new(x: i32, y: i32, width: u32, height: u32, max_points: usize) -> (made: Result<
        Self,
        ConfigError,
    >)
        ensures
            match made {
                Ok(tree) => {
                    &&& config_error(x, y, width, height, max_points) is None
                    &&& tree.wf()
                    &&& tree.region() == (Region { x, y, width, height })
                    &&& tree.capacity() == max_points
                    &&& tree.is_leaf()
                    &&& tree.entries() == Multiset::<(Point, T)>::empty()
                },
                Err(e) => config_error(x, y, width, height, max_points) == Some(e),
            },
    {
        let region = Region::new(x, y, width, height);
        if max_points == 0 {
            Err(ConfigError::ZeroCapacity)
        } else if width == 0 || height == 0 {
            Err(ConfigError::EmptyRegion)
        } else if !region.fits() {
            Err(ConfigError::RegionOutOfRange)
        } else {
            Ok(Self::leaf(region, max_points))
        }
    }

    /// Turns a leaf into a subdivided node: four empty quarters are made and
    /// every entry moves into the first of them that covers it.
    fn subdivide(&mut self)
        requires
            old(self).wf(),
            old(self).is_leaf(),
            !old(self).region.is_single_point(),
        ensures
            final(self).wf(),
            !final(self).is_leaf(),
            final(self).region == old(self).region,
            final(self).max_points == old(self).max_points,
            final(self).entries() == old(self).entries(),
        decreases old(self).region.extent(), 1int,
    {
        let region = self.region;
        let max_points = self.max_points;
        proof {
            region.lemma_quadrant_shrinks(Quadrant::NorthEast);
            region.lemma_quadrant_shrinks(Quadrant::NorthWest);
            region.lemma_quadrant_shrinks(Quadrant::SouthEast);
            region.lemma_quadrant_shrinks(Quadrant::SouthWest);
        }
        let mut children = QuadTreeChildren {
            northwest: Self::leaf(region.quarter(Quadrant::NorthWest), max_points),
            northeast: Self::leaf(region.quarter(Quadrant::NorthEast), max_points),
            southwest: Self::leaf(region.quarter(Quadrant::SouthWest), max_points),
            southeast: Self::leaf(region.quarter(Quadrant::SouthEast), max_points),
        };
        proof {
            broadcast use vstd::multiset::group_multiset_axioms;

            assert(children.entries() =~= Multiset::<(Point, T)>::empty());
        }
        match &self.node {
            Node::Leaf(points) => {
                let n = points.len();
                let mut i: usize = 0;
                proof {
                    broadcast use vstd::seq_lib::group_to_multiset_ensures;

                    assert(points@.subrange(0, 0) =~= Seq::<(Point, T)>::empty());
                    assert(points@.subrange(0, 0).to_multiset() =~= Multiset::<(Point, T)>::empty());
                }
                while i < n
                    invariant
                        i <= n,
                        n == points.len(),
                        region == old(self).region,
                        region.in_range(),
                        !region.is_single_point(),
                        forall|j: int| 0 <= j < points.len() ==> region.covers(#[trigger] points[j].0),
                        children.wf(),
                        children.wf_under(region, max_points),
                        children.extent() < region.extent(),
                        children.entries() == points@.subrange(0, i as int).to_multiset(),
                    decreases n - i,
                {
                    let (position, item) = points[i];
                    proof {
                        region.lemma_quadrants_tile(position);
                        assert(region.covers(points[i as int].0));
                    }
                    children.insert(position, item);
                    proof {
                        broadcast use vstd::seq_lib::group_to_multiset_ensures;

                        assert(points@.subrange(0, i + 1) =~= points@.subrange(0, i as int).push(
                            points[i as int],
                        ));
                    }
                    i += 1;
                }
                assert(points@.subrange(0, n as int) =~= points@);
            },
            Node::Internal(_) => {},
        }
        self.node = Node::Internal(Box::new(children));
    }

    /// Stores the entry if the position lies in the tree's region, and says
    /// whether it did. A leaf that is full, and whose region is more than one
    /// point, is subdivided first; the entry then goes to the first quarter,
    /// in the order north-east, north-west, south-east, south-west, that
    /// covers the position. A leaf over a single point cannot be subdivided
    /// and takes the entry however many it holds. Nothing changes for a
    /// position outside the region.
    pub fn insert(&mut self, position: Point, item: T) -> (accepted: bool)
        requires
            old(self).wf(),
        ensures
            final(self).wf(),
            final(self).region() == old(self).region(),
            final(self).capacity() == old(self).capacity(),
            accepted == old(self).region().covers(position),
            accepted ==> final(self).entries() == old(self).entries().insert((position, item)),
            !accepted ==> *final(self) == *old(self),
            !old(self).is_leaf() ==> !final(self).is_leaf(),
            old(self).is_leaf() && accepted ==> (final(self).is_leaf() <==> old(self).entries().len()
                < old(self).capacity() || old(self).region().is_single_point()),
        decreases old(self).region().extent(), 2int,
    {
        broadcast use vstd::seq_lib::group_to_multiset_ensures;

        if !self.region.contains(position) {
            return false;
        }
        proof {
            if let Node::Leaf(points) = &self.node {
                assert(self.entries().len() == points.len());
            }
        }
        let full = match &self.node {
            Node::Leaf(points) => points.len() >= self.max_points && (self.region.width != 0
                || self.region.height != 0),
            Node::Internal(_) => false,
        };
        if full {
            self.subdivide();
        }
        let region = self.region;
        match &mut self.node {
            Node::Leaf(points) => {
                points.push((position, item));
            },
            Node::Internal(children) => {
                proof {
                    region.lemma_quadrants_tile(position);
                    region.lemma_quadrant_shrinks(Quadrant::NorthEast);
                    region.lemma_quadrant_shrinks(Quadrant::NorthWest);
                    region.lemma_quadrant_shrinks(Quadrant::SouthEast);
                    region.lemma_quadrant_shrinks(Quadrant::SouthWest);
                }
                children.insert(position, item);
            },
        }
        true
    }

    /// Inserts the entries of `points` in their order. Those whose position
    /// lies outside the region are left out.
    pub fn insert_all(&mut self, points: &Vec<(Point, T)>)
        requires
            old(self).wf(),
        ensures
            final(self).wf(),
            final(self).region() == old(self).region(),
            final(self).capacity() == old(self).capacity(),
            final(self).entries() == after_inserts(
                old(self).entries(),
                points@,
                old(self).region(),
            ),
    {
        let n = points.len();
        let mut i: usize = 0;
        proof {
            assert(points@.subrange(0, 0) =~= Seq::<(Point, T)>::empty());
        }
        while i < n
            invariant
                i <= n,
                n == points.len(),
                self.wf(),
                self.region() == old(self).region(),
                self.capacity() == old(self).capacity(),
                self.entries() == after_inserts(
                    old(self).entries(),
                    points@.subrange(0, i as int),
                    old(self).region(),
                ),
            decreases n - i,
        {
            let (position, item) = points[i];
            proof {
                let prefix = points@.subrange(0, i + 1);
                assert(prefix.drop_last() =~= points@.subrange(0, i as int));
                assert(prefix.last() == points@[i as int]);
            }
            self.insert(position, item);
            i += 1;
        }
        proof {
            assert(points@.subrange(0, n as int) =~= points@);
        }
    }

    /// Makes a tree as `new` does and inserts the entries of `points` in
    /// their order.
    pub fn build(
        x: i32,
        y: i32,
        width: u32,
        height: u32,
        max_points: usize,
        points: &Vec<(Point, T)>,
    ) -> (made: Result<Self, ConfigError>)
        ensures
            match made {
                Ok(tree) => {
                    &&& config_error(x, y, width, height, max_points) is None
                    &&& tree.wf()
                    &&& tree.region() == (Region { x, y, width, height })
                    &&& tree.capacity() == max_points
                    &&& tree.entries() == after_inserts(
                        Multiset::empty(),
                        points@,
                        Region { x, y, width, height },
                    )
                },
                Err(e) => config_error(x, y, width, height, max_points) == Some(e),
            },
    {
        match Self::new(x, y, width, height, max_points) {
            Ok(mut tree) => {
                tree.insert_all(points);
                Ok(tree)
            },
            Err(e) => Err(e),
        }
    }

    /// Appends the tree's leaves to `sizes`.
    fn push_leaf_sizes(&self, sizes: &mut Vec<(Region, usize)>)
        ensures
            final(sizes)@ == old(sizes)@ + self.leaves(),
        decreases self,
    {
        match &self.node {
            Node::Leaf(points) => {
                sizes.push((self.region, points.len()));
                assert(sizes@ =~= old(sizes)@ + self.leaves());
            },
            Node::Internal(children) => {
                children.northeast.push_leaf_sizes(sizes);
                children.northwest.push_leaf_sizes(sizes);
                children.southeast.push_leaf_sizes(sizes);
                children.southwest.push_leaf_sizes(sizes);
                assert(sizes@ =~= old(sizes)@ + self.leaves());
            },
        }
    }

    /// Lists the leaves of the tree, each with its region and the number of
    /// entries it holds. A tree that has not been subdivided is its one leaf.
    pub fn leaf_sizes(&self) -> (sizes: Vec<(Region, usize)>)
        ensures
            sizes@ == self.leaves(),
            self.is_leaf() <==> sizes.len() == 1,
    {
        let mut sizes: Vec<(Region, usize)> = Vec::new();
        self.push_leaf_sizes(&mut sizes);
        proof {
            self.lemma_leaf_count();
            assert(sizes@ =~= self.leaves());
        }
        sizes
    }

    /// What a subdivided node is made of. Its quarters are well-formed trees
    /// of its capacity over the four quarters of its region; its entries and
    /// its leaves are those of the quarters; and each quarter stores exactly
    /// the entries whose position it is the first to cover, in the order
    /// north-east, north-west, south-east, south-west.
    pub proof fn lemma_quarters(&self)
        requires
            self.wf(),
            !self.is_leaf(),
        ensures
            !self.region().is_single_point(),
            forall|q: Quadrant|
                #![trigger self.quarter(q)]
                self.quarter(q).wf() && self.quarter(q).region() == self.region().quadrant(q)
                    && self.quarter(q).capacity() == self.capacity(),
            self.entries() == self.quarter(Quadrant::NorthEast).entries().add(
                self.quarter(Quadrant::NorthWest).entries(),
            ).add(self.quarter(Quadrant::SouthEast).entries()).add(
                self.quarter(Quadrant::SouthWest).entries(),
            ),
            self.leaves() == self.quarter(Quadrant::NorthEast).leaves() + self.quarter(
                Quadrant::NorthWest,
            ).leaves() + self.quarter(Quadrant::SouthEast).leaves() + self.quarter(
                Quadrant::SouthWest,
            ).leaves(),
            forall|q: Quadrant, e: (Point, T)|
                #![trigger self.quarter(q).entries().count(e)]
                self.quarter(q).entries().count(e) == if self.region().first_quadrant_covering(e.0)
                    == q {
                    self.entries().count(e)
                } else {
                    0
                },
    {
        broadcast use vstd::multiset::group_multiset_axioms;

        match self.node {
            Node::Leaf(_) => {},
            Node::Internal(children) => {
                assert forall|q: Quadrant, e: (Point, T)|
                    #![trigger self.quarter(q).entries().count(e)]
                    self.quarter(q).entries().count(e) == if self.region().first_quadrant_covering(
                        e.0,
                    ) == q {
                        self.entries().count(e)
                    } else {
                        0
                    } by {
                    let (p, id) = e;
                    assert(children.first_covering(p) == self.region.first_quadrant_covering(p));
                    if children.northeast.entries().count(e) > 0 {
                        assert(children.northeast.entries().contains((p, id)));
                    }
                    if children.northwest.entries().count(e) > 0 {
                        assert(children.northwest.entries().contains((p, id)));
                    }
                    if children.southeast.entries().count(e) > 0 {
                        assert(children.southeast.entries().contains((p, id)));
                    }
                    if children.southwest.entries().count(e) > 0 {
                        assert(children.southwest.entries().contains((p, id)));
                    }
                }
            },
        }
    }

    /// A leaf is its own single leaf; a subdivided node has four or more.
    pub proof fn lemma_leaf_count(&self)
        ensures
            self.is_leaf() ==> self.leaves().len() == 1,
            !self.is_leaf() ==> self.leaves().len() >= 4,
        decreases self,
    {
        match self.node {
            Node::Leaf(_) => {},
            Node::Internal(children) => {
                children.northeast.lemma_leaf_count();
                children.northwest.lemma_leaf_count();
                children.southeast.lemma_leaf_count();
                children.southwest.lemma_leaf_count();
            },
        }
    }

    /// No leaf holds more entries than the capacity, but for a leaf whose
    /// region is a single point: it cannot be subdivided, and holds whatever
    /// was inserted at that point.
    pub proof fn lemma_leaves_within_capacity(&self)
        requires
            self.wf(),
        ensures
            forall|i: int|
                0 <= i < self.leaves().len() ==> (#[trigger] self.leaves()[i]).1
                    <= self.capacity() || self.leaves()[i].0.is_single_point(),
        decreases self,
    {
        match self.node {
            Node::Leaf(points) => {
                assert(self.leaves()[0] == (self.region, points.len()));
            },
            Node::Internal(children) => {
                children.northeast.lemma_leaves_within_capacity();
                children.northwest.lemma_leaves_within_capacity();
                children.southeast.lemma_leaves_within_capacity();
                children.southwest.lemma_leaves_within_capacity();
                let ne = children.northeast.leaves();
                let nw = children.northwest.leaves();
                let se = children.southeast.leaves();
                let sw = children.southwest.leaves();
                assert forall|i: int| 0 <= i < self.leaves().len() implies (
                #[trigger] self.leaves()[i]).1 <= self.capacity()
                    || self.leaves()[i].0.is_single_point() by {
                    if i < ne.len() {
                        assert(self.leaves()[i] == ne[i]);
                    } else if i < ne.len() + nw.len() {
                        assert(self.leaves()[i] == nw[i - ne.len()]);
                    } else if i < ne.len() + nw.len() + se.len() {
                        assert(self.leaves()[i] == se[i - ne.len() - nw.len()]);
                    } else {
                        assert(self.leaves()[i] == sw[i - ne.len() - nw.len() - se.len()]);
                    }
                }
            },
        }
    }

    /// A leaf that holds more entries than the capacity is a single point at
    /// which the tree stores at least as many entries as the leaf holds.
    proof fn lemma_large_leaves_are_crowded_points(&self)
        requires
            self.wf(),
        ensures
            forall|i: int|
                0 <= i < self.leaves().len() ==> (#[trigger] self.leaves()[i]).1
                    <= self.capacity() || (self.leaves()[i].0.is_single_point()
                    && self.leaves()[i].1 <= count_at(
                    self.entries(),
                    Point { x: self.leaves()[i].0.x, y: self.leaves()[i].0.y },
                )),
        decreases self,
    {
        broadcast use vstd::multiset::group_multiset_axioms;
        broadcast use vstd::seq_lib::group_to_multiset_ensures;

        match self.node {
            Node::Leaf(points) => {
                assert(self.leaves()[0] == (self.region, points.len()));
                if points.len() > self.max_points {
                    let p = Point { x: self.region.x, y: self.region.y };
                    let at = at_position::<T>(p);
                    assert forall|e: (Point, T)| self.entries().filter(at).count(e)
                        == self.entries().count(e) by {
                        if self.entries().count(e) > 0 {
                            assert(points@.contains(e));
                            let i = choose|i: int| 0 <= i < points@.len() && points@[i] == e;
                            assert(self.region.covers(points[i].0));
                        }
                    }
                    assert(self.entries().filter(at) =~= self.entries());
                }
            },
            Node::Internal(children) => {
                children.northeast.lemma_large_leaves_are_crowded_points();
                children.northwest.lemma_large_leaves_are_crowded_points();
                children.southeast.lemma_large_leaves_are_crowded_points();
                children.southwest.lemma_large_leaves_are_crowded_points();
                let ne = children.northeast.leaves();
                let nw = children.northwest.leaves();
                let se = children.southeast.leaves();
                let sw = children.southwest.leaves();
                let ne_held = children.northeast.entries();
                let nw_held = children.northwest.entries();
                let se_held = children.southeast.entries();
                let sw_held = children.southwest.entries();
                assert forall|i: int| 0 <= i < self.leaves().len() implies (
                #[trigger] self.leaves()[i]).1 <= self.capacity() || (
                self.leaves()[i].0.is_single_point() && self.leaves()[i].1 <= count_at(
                    self.entries(),
                    Point { x: self.leaves()[i].0.x, y: self.leaves()[i].0.y },
                )) by {
                    let p = Point { x: self.leaves()[i].0.x, y: self.leaves()[i].0.y };
                    lemma_count_at_add(ne_held, nw_held, p);
                    lemma_count_at_add(ne_held.add(nw_held), se_held, p);
                    lemma_count_at_add(ne_held.add(nw_held).add(se_held), sw_held, p);
                    if i < ne.len() {
                        assert(self.leaves()[i] == ne[i]);
                    } else if i < ne.len() + nw.len() {
                        assert(self.leaves()[i] == nw[i - ne.len()]);
                    } else if i < ne.len() + nw.len() + se.len() {
                        assert(self.leaves()[i] == se[i - ne.len() - nw.len()]);
                    } else {
                        assert(self.leaves()[i] == sw[i - ne.len() - nw.len() - se.len()]);
                    }
                }
            },
        }
    }

    /// While no position has more entries than the capacity, no leaf holds
    /// more entries than the capacity.
    pub proof fn lemma_no_leaf_exceeds_capacity(&self)
        requires
            self.wf(),
            forall|p: Point| #[trigger] count_at(self.entries(), p) <= self.capacity(),
        ensures
            forall|i: int|
                0 <= i < self.leaves().len() ==> (#[trigger] self.leaves()[i]).1
                    <= self.capacity(),
    {
        self.lemma_large_leaves_are_crowded_points();
        assert forall|i: int| 0 <= i < self.leaves().len() implies (#[trigger] self.leaves()[i]).1
            <= self.capacity() by {
            let p = Point { x: self.leaves()[i].0.x, y: self.leaves()[i].0.y };
            assert(count_at(self.entries(), p) <= self.capacity());
        }
    }

    /// A tree that stores more entries than the capacity over a region of
    /// more than one point has been subdivided.
    pub proof fn lemma_crowded_tree_is_subdivided(&self)
        requires
            self.wf(),
            self.entries().len() > self.capacity(),
            !self.region().is_single_point(),
        ensures
            !self.is_leaf(),
    {
        broadcast use vstd::seq_lib::group_to_multiset_ensures;

    }

    /// The identifiers stored at a position inside `shape`.
    pub open spec fn ids_within<S: Queryable>(&self, shape: &S) -> Set<T> {
        matching_ids(self.entries(), shape)
    }

    /// Every stored entry lies in the tree's region.
    pub proof fn lemma_entries_in_region(&self)
        requires
            self.wf(),
        ensures
            forall|p: Point, id: T| #[trigger]
                self.entries().contains((p, id)) ==> self.region().covers(p),
        decreases self,
    {
        broadcast use vstd::multiset::group_multiset_axioms;
        broadcast use vstd::seq_lib::group_to_multiset_ensures;

        match self.node {
            Node::Leaf(points) => {
                assert forall|p: Point, id: T| #[trigger]
                    self.entries().contains((p, id)) implies self.region.covers(p) by {
                    assert(points@.contains((p, id)));
                    let i = choose|i: int| 0 <= i < points@.len() && points@[i] == (p, id);
                    assert(self.region.covers(points[i].0));
                }
            },
            Node::Internal(children) => {
                children.northeast.lemma_entries_in_region();
                children.northwest.lemma_entries_in_region();
                children.southeast.lemma_entries_in_region();
                children.southwest.lemma_entries_in_region();
                assert forall|p: Point, id: T| #[trigger]
                    self.entries().contains((p, id)) implies self.region.covers(p) by {
                    self.region.lemma_quadrants_tile(p);
                    assert(children.northeast.entries().contains((p, id))
                        || children.northwest.entries().contains((p, id))
                        || children.southeast.entries().contains((p, id))
                        || children.southwest.entries().contains((p, id)));
                    assert(children.northeast.region().covers(p) || children.northwest.region().covers(p)
                        || children.southeast.region().covers(p)
                        || children.southwest.region().covers(p));
                }
            },
        }
    }

    /// A stored entry is found by every shape that holds its position.
    pub proof fn lemma_stored_entry_is_found<S: Queryable>(&self, shape: &S, p: Point, id: T)
        requires
            self.entries().contains((p, id)),
            shape.covers(p.x as int, p.y as int),
        ensures
            self.ids_within(shape).contains(id),
    {
    }

    /// Whatever was inserted inside the region can be retrieved: if the tree
    /// stores what `points`, inserted into a tree that stored `held`, leave
    /// in it, then every shape finds the identifier of each of these entries
    /// whose position lies in the region and inside the shape.
    pub proof fn lemma_inserted_is_retrievable<S: Queryable>(
        &self,
        held: Multiset<(Point, T)>,
        points: Seq<(Point, T)>,
        i: int,
        shape: &S,
    )
        requires
            self.entries() == after_inserts(held, points, self.region()),
            0 <= i < points.len(),
            self.region().covers(points[i].0),
            shape.covers(points[i].0.x as int, points[i].0.y as int),
        ensures
            self.ids_within(shape).contains(points[i].1),
    {
        lemma_inserts_are_kept(held, points, self.region());
        assert(self.entries().contains(points[i]));
        self.lemma_stored_entry_is_found(shape, points[i].0, points[i].1);
    }

    /// A query run again on an unchanged tree adds nothing: the set after
    /// the second run is the set after the first.
    pub proof fn lemma_query_is_idempotent<S: Queryable>(&self, shape: &S, held: Set<T>)
        ensures
            held.union(self.ids_within(shape)).union(self.ids_within(shape)) == held.union(
                self.ids_within(shape),
            ),
    {
        assert(held.union(self.ids_within(shape)).union(self.ids_within(shape)) =~= held.union(
            self.ids_within(shape),
        ));
    }

    /// Adds to `points` the identifier of every entry whose position lies
    /// inside `shape`; what `points` held before stays. A subtree whose
    /// region the shape does not reach is not visited. The tree is not
    /// changed.
    pub fn query<S: Queryable>(&self, shape: &S, points: &mut HashSet<T>)
        requires
            self.wf(),
            obeys_key_model::<T>(),
        ensures
            final(points)@ == old(points)@.union(self.ids_within(shape)),
        decreases self,
    {
        proof {
            self.lemma_entries_in_region();
        }
        if shape.intersects_rectangle(
            self.region.x,
            self.region.y,
            self.region.width,
            self.region.height,
        ) {
            match &self.node {
                Node::Internal(children) => {
                    children.northwest.query(shape, points);
                    children.northeast.query(shape, points);
                    children.southwest.query(shape, points);
                    children.southeast.query(shape, points);
                    proof {
                        let ne = children.northeast.entries();
                        let nw = children.northwest.entries();
                        let se = children.southeast.entries();
                        let sw = children.southwest.entries();
                        lemma_matching_ids_add(ne, nw, shape);
                        lemma_matching_ids_add(ne.add(nw), se, shape);
                        lemma_matching_ids_add(ne.add(nw).add(se), sw, shape);
                        assert(points@ =~= old(points)@.union(self.ids_within(shape)));
                    }
                },
                Node::Leaf(entries) => {
                    let n = entries.len();
                    let mut i: usize = 0;
                    proof {
                        broadcast use vstd::seq_lib::group_to_multiset_ensures;
                        broadcast use vstd::multiset::group_multiset_axioms;

                        assert(entries@.subrange(0, 0) =~= Seq::<(Point, T)>::empty());
                        assert(matching_ids(entries@.subrange(0, 0).to_multiset(), shape)
                            =~= Set::<T>::empty());
                        assert(points@ =~= old(points)@.union(
                            matching_ids(entries@.subrange(0, 0).to_multiset(), shape),
                        ));
                    }
                    while i < n
                        invariant
                            i <= n,
                            n == entries.len(),
                            obeys_key_model::<T>(),
                            points@ == old(points)@.union(
                                matching_ids(entries@.subrange(0, i as int).to_multiset(), shape),
                            ),
                        decreases n - i,
                    {
                        let (point, item) = entries[i];
                        proof {
                            broadcast use vstd::seq_lib::group_to_multiset_ensures;

                            assert(entries@.subrange(0, i + 1) =~= entries@.subrange(
                                0,
                                i as int,
                            ).push(entries[i as int]));
                            lemma_matching_ids_insert(
                                entries@.subrange(0, i as int).to_multiset(),
                                point,
                                item,
                                shape,
                            );
                        }
                        if shape.intersects_point(point.x, point.y) {
                            set_insert(points, item);
                        }
                        assert(points@ =~= old(points)@.union(
                            matching_ids(entries@.subrange(0, i + 1).to_multiset(), shape),
                        ));
                        i += 1;
                    }
                    assert(entries@.subrange(0, n as int) =~= entries@);
                },
            }
        } else {
            assert(self.ids_within(shape) =~= Set::<T>::empty()) by {
                assert forall|id: T| !self.ids_within(shape).contains(id) by {
                    if self.ids_within(shape).contains(id) {
                        let p = choose|p: Point| #[trigger]
                            self.entries().contains((p, id)) && shape.covers(
                                p.x as int,
                                p.y as int,
                            );
                        assert(self.region.covers(p));
                        assert(shape.covers(p.x as int, p.y as int));
                    }
                }
            }
            assert(points@ =~= old(points)@.union(self.ids_within(shape)));
        }
    }
}

} // verus!
