//! The quadtree: insertion with lazy subdivision, and range queries.
//!
//! A node starts as a leaf that buffers points. When a point arrives at a
//! full leaf whose region can be split, the leaf creates its four children
//! and hands its buffered points down, each to the one quadrant that owns
//! it. A leaf whose region cannot be split any further keeps buffering, so
//! that any number of equal points can be stored.

use vstd::multiset::Multiset;
use vstd::prelude::*;
use crate::aabb::{AABB, Quadrant};
use crate::point::Point;
use crate::shape::{Color, Shape};

verus! {

/// A node of the tree together with the subtree below it.
#[derive(Debug)]
pub struct Quadtree {
    /// The region that this node is responsible for.
    pub boundary: AABB,
    /// How many points a leaf buffers before it is split.
    pub capacity: usize,
    /// The points buffered at this node itself.
    pub points: Vec<Point>,
    /// Whether the four children exist.
    pub divided: bool,
    pub ne: Option<Box<Quadtree>>,
    pub nw: Option<Box<Quadtree>>,
    pub se: Option<Box<Quadtree>>,
    pub sw: Option<Box<Quadtree>>,
}

impl View for Quadtree {
    type V = Multiset<Point>;

    /// The stored points, each as often as it was stored.
    open spec fn view(&self) -> Multiset<Point> {
        self.all_points().to_multiset()
    }
}

// The model: what a tree stores, and when it is well formed.
impl Quadtree {
    /// The points below an optional child, in the order of a walk.
    pub open spec fn points_below(child: Option<Box<Quadtree>>) -> Seq<Point>
        decreases child,
    {
        match child {
            Some(t) => t.all_points(),
            None => Seq::empty(),
        }
    }

    /// Every stored point, in the order of a walk: the node's own buffer
    /// first, then the north-east, north-west, south-east and south-west
    /// subtrees.
    pub open spec fn all_points(self) -> Seq<Point>
        decreases self,
    {
        self.points@ + Self::points_below(self.ne) + Self::points_below(self.nw)
            + Self::points_below(self.se) + Self::points_below(self.sw)
    }

    /// The points below an optional child, each as often as it is stored.
    pub open spec fn view_below(child: Option<Box<Quadtree>>) -> Multiset<Point> {
        Self::points_below(child).to_multiset()
    }

    /// The child slot for quadrant `q`.
    pub open spec fn child(self, q: Quadrant) -> Option<Box<Quadtree>> {
        match q {
            Quadrant::NorthEast => self.ne,
            Quadrant::NorthWest => self.nw,
            Quadrant::SouthEast => self.se,
            Quadrant::SouthWest => self.sw,
        }
    }

    /// Whether quadrant `q` of `parent` owns every point stored in the tree.
    pub open spec fn owned_by(self, parent: AABB, q: Quadrant) -> bool {
        forall|p: Point| #[trigger] self.all_points().contains(p) ==> parent.quadrant_of(&p) == q
    }

    /// Whether quadrant `q` of `parent` owns every point stored below `child`.
    pub open spec fn below_owned_by(child: Option<Box<Quadtree>>, parent: AABB, q: Quadrant) -> bool {
        forall|p: Point| #[trigger]
            Self::points_below(child).contains(p) ==> parent.quadrant_of(&p) == q
    }

    /// What a node asks of the child in quadrant `q`: it exists, is itself
    /// well formed, covers exactly that quadrant, shares the capacity, and
    /// stores only points that the quadrant owns.
    pub open spec fn child_wf(
        child: Option<Box<Quadtree>>,
        parent: AABB,
        capacity: usize,
        q: Quadrant,
    ) -> bool
        decreases child,
    {
        match child {
            Some(t) => {
                &&& t.wf()
                &&& t.boundary == parent.quadrant(q)
                &&& t.capacity == capacity
                &&& t.owned_by(parent, q)
            },
            None => false,
        }
    }

    /// Well-formedness of a tree.
    ///
    /// - A node's own points lie in its region.
    /// - A leaf has no children, and holds more points than its capacity
    ///   only if its region cannot be split.
    /// - A divided node has a region that can be split and four children,
    ///   one for each quadrant, each well formed in turn.
    pub open spec fn wf(self) -> bool
        decreases self,
    {
        &&& forall|i: int|
            0 <= i < self.points@.len() ==> self.boundary.contains(&#[trigger] self.points@[i])
        &&& if self.divided {
            &&& self.boundary.can_split()
            &&& Self::child_wf(self.ne, self.boundary, self.capacity, Quadrant::NorthEast)
            &&& Self::child_wf(self.nw, self.boundary, self.capacity, Quadrant::NorthWest)
            &&& Self::child_wf(self.se, self.boundary, self.capacity, Quadrant::SouthEast)
            &&& Self::child_wf(self.sw, self.boundary, self.capacity, Quadrant::SouthWest)
        } else {
            &&& self.ne is None
            &&& self.nw is None
            &&& self.se is None
            &&& self.sw is None
            &&& (self.points@.len() <= self.capacity || !self.boundary.can_split())
        }
    }

    /// A leaf without points for the given region.
    pub open spec fn is_empty_leaf(self, boundary: AABB, capacity: usize) -> bool {
        &&& self.boundary == boundary
        &&& self.capacity == capacity
        &&& self.points@ == Seq::<Point>::empty()
        &&& !self.divided
        &&& self.ne is None
        &&& self.nw is None
        &&& self.se is None
        &&& self.sw is None
    }

    /// A child slot that holds an empty leaf for the given region.
    pub open spec fn is_fresh_child(
        child: Option<Box<Quadtree>>,
        boundary: AABB,
        capacity: usize,
    ) -> bool {
        match child {
            Some(t) => t.is_empty_leaf(boundary, capacity),
            None => false,
        }
    }

    /// Whether an optional child is the tree that the points of `s` build.
    pub open spec fn below_built_from(child: Option<Box<Quadtree>>, s: Seq<Point>) -> bool
        decreases child,
    {
        match child {
            Some(t) => t.built_from(s),
            None => false,
        }
    }

    /// Whether each of the four children is the tree that its share of `s`
    /// builds: the points of `s` that its quadrant owns, in the same order.
    pub open spec fn children_built_from(self, s: Seq<Point>) -> bool {
        &&& Self::below_built_from(self.ne, s.filter(self.boundary.owns(Quadrant::NorthEast)))
        &&& Self::below_built_from(self.nw, s.filter(self.boundary.owns(Quadrant::NorthWest)))
        &&& Self::below_built_from(self.se, s.filter(self.boundary.owns(Quadrant::SouthEast)))
        &&& Self::below_built_from(self.sw, s.filter(self.boundary.owns(Quadrant::SouthWest)))
    }

    /// Whether the tree is the one that the points of `s`, all inside the
    /// tree's region and stored one after the other, build.
    ///
    /// A leaf holds `s` itself. A divided node holds more points than a
    /// leaf buffers and has handed all of them down: each child is built
    /// from the points of `s` that its quadrant owns, in the same order.
    ///
    /// Trees that grow by `insert` alone are of this kind; `subdivide` on
    /// its own makes trees that are not.
    pub open spec fn built_from(self, s: Seq<Point>) -> bool
        decreases self,
    {
        if self.divided {
            &&& self.points@.len() == 0
            &&& s.len() > self.capacity
            &&& Self::below_built_from(self.ne, s.filter(self.boundary.owns(Quadrant::NorthEast)))
            &&& Self::below_built_from(self.nw, s.filter(self.boundary.owns(Quadrant::NorthWest)))
            &&& Self::below_built_from(self.se, s.filter(self.boundary.owns(Quadrant::SouthEast)))
            &&& Self::below_built_from(self.sw, s.filter(self.boundary.owns(Quadrant::SouthWest)))
        } else {
            self.points@ == s
        }
    }

    /// The stored points that lie in `range`, in the order of a walk.
    pub open spec fn matches_in(self, range: AABB) -> Seq<Point> {
        self.all_points().filter(range.selects())
    }

    /// The dots for a sequence of points, in the same order.
    pub open spec fn dots(points: Seq<Point>) -> Seq<Shape> {
        Seq::new(points.len(), |i: int| Shape::Dot { at: points[i] })
    }

    /// The drawing of an optional child.
    pub open spec fn drawing_below(child: Option<Box<Quadtree>>, color: Color) -> Seq<Shape>
        decreases child,
    {
        match child {
            Some(t) => t.drawing(color),
            None => Seq::empty(),
        }
    }

    /// The drawing of a tree whose root is outlined in `color`: for each
    /// node the outline of its region, then a dot for each of its own
    /// points, then the drawings of its north-east, north-west, south-east
    /// and south-west children, each in the next darker colour.
    pub open spec fn drawing(self, color: Color) -> Seq<Shape>
        decreases self,
    {
        seq![Shape::Outline { region: self.boundary, color }] + Self::dots(self.points@)
            + Self::drawing_below(self.ne, color.darker()) + Self::drawing_below(
            self.nw,
            color.darker(),
        ) + Self::drawing_below(self.se, color.darker()) + Self::drawing_below(
            self.sw,
            color.darker(),
        )
    }
}

// The operations.
impl Quadtree {
    /// An empty tree for the region `boundary` whose leaves buffer up to
    /// `capacity` points.
    ///
    /// Every region and every capacity gives a tree. A region of negative
    /// half-size holds no point, so the tree stays empty; with capacity 0
    /// a leaf is divided by the first point that reaches it.
    pub fn new(boundary: AABB, capacity: usize) -> (tree: Quadtree)
        ensures
            tree.is_empty_leaf(boundary, capacity),
            tree.wf(),
            tree.built_from(Seq::<Point>::empty()),
            tree@ == Multiset::<Point>::empty(),
    {
        let tree = Quadtree {
            boundary,
            capacity,
            points: Vec::new(),
            divided: false,
            ne: None,
            nw: None,
            se: None,
            sw: None,
        };
        proof {
            Self::lemma_empty_leaf(tree);
        }
        tree
    }

    /// Stores `point` in the tree if the tree's region contains it, and
    /// leaves the tree untouched if not.
    ///
    /// A leaf takes the point into its own buffer while it has room, or
    /// when its region cannot be split. Otherwise the leaf is divided first
    /// and its buffer handed down in the order of arrival, and the point
    /// goes to the one child whose quadrant owns it.
    pub fn insert(&mut self, point: &Point)
        requires
            old(self).wf(),
        ensures
            final(self).wf(),
            final(self).boundary == old(self).boundary,
            final(self).capacity == old(self).capacity,
            !old(self).boundary.contains(point) ==> *final(self) == *old(self),
            final(self)@ == (if old(self).boundary.contains(point) {
                old(self)@.insert(*point)
            } else {
                old(self)@
            }),
            final(self)@.len() == old(self)@.len() + (if old(self).boundary.contains(point) {
                1nat
            } else {
                0nat
            }),
            forall|s: Seq<Point>| #[trigger]
                old(self).built_from(s) ==> final(self).built_from(
                    if old(self).boundary.contains(point) {
                        s.push(*point)
                    } else {
                        s
                    },
                ),
            old(self).boundary.contains(point) ==> final(self).divided == (old(self).divided || (
            old(self).points@.len() >= old(self).capacity && old(self).boundary.can_split())),
            old(self).boundary.contains(point) ==> final(self).points@ == (if old(self).divided {
                old(self).points@
            } else if final(self).divided {
                Seq::<Point>::empty()
            } else {
                old(self).points@.push(*point)
            }),
        decreases old(self).boundary.half_size, 1int,
    {
        if !self.boundary.contains(point) {
            return ;
        }
        if !self.divided {
            if self.points.len() < self.capacity || !self.boundary.can_split() {
                proof {
                    self.lemma_view_parts();
                }
                self.points.push(*point);
                proof {
                    self.lemma_view_parts();
                    vstd::seq_lib::to_multiset_build(old(self).points@, *point);
                }
                return ;
            }
            self.subdivide();
            proof {
                self.lemma_fresh_children_built();
            }
            let mut moved: Vec<Point> = Vec::new();
            core::mem::swap(&mut self.points, &mut moved);
            proof {
                old(self).lemma_view_parts();
                self.lemma_view_parts();
                assert(moved@.take(0) =~= Seq::<Point>::empty());
                assert(self.all_points() =~= Seq::<Point>::empty());
                assert(old(self).all_points() =~= moved@);
            }
            let mut i: usize = 0;
            while i < moved.len()
                invariant
                    i <= moved.len(),
                    self.wf(),
                    self.divided,
                    self.points@.len() == 0,
                    self.children_built_from(moved@.take(i as int)),
                    self.boundary == old(self).boundary,
                    self.capacity == old(self).capacity,
                    self@ == moved@.take(i as int).to_multiset(),
                    forall|j: int|
                        0 <= j < moved@.len() ==> self.boundary.contains(&#[trigger] moved@[j]),
                decreases moved.len() - i,
            {
                self.insert_into_child(&moved[i]);
                proof {
                    assert(moved@.take(i + 1) =~= moved@.take(i as int).push(moved@[i as int]));
                    vstd::seq_lib::to_multiset_build(moved@.take(i as int), moved@[i as int]);
                }
                i += 1;
            }
            proof {
                assert(moved@.take(i as int) =~= moved@);
            }
        }
        let ghost handed_down = *self;
        self.insert_into_child(point);
        proof {
            vstd::seq_lib::to_multiset_len(self.all_points());
            vstd::seq_lib::to_multiset_len(old(self).all_points());
            assert forall|s: Seq<Point>| #[trigger] old(self).built_from(s) implies self.built_from(
                s.push(*point),
            ) by {
                assert(handed_down.children_built_from(s));
            }
        }
    }

    /// Hands `point` to the child whose quadrant owns it.
    fn insert_into_child(&mut self, point: &Point)
        requires
            old(self).wf(),
            old(self).divided,
            old(self).boundary.contains(point),
        ensures
            final(self).wf(),
            final(self).divided,
            final(self).boundary == old(self).boundary,
            final(self).capacity == old(self).capacity,
            final(self).points == old(self).points,
            final(self)@ == old(self)@.insert(*point),
            forall|s: Seq<Point>| #[trigger]
                old(self).children_built_from(s) ==> final(self).children_built_from(
                    s.push(*point),
                ),
        decreases old(self).boundary.half_size, 0int,
    {
        let q = self.boundary.quadrant_of(point);
        proof {
            AABB::lemma_quadrants_cover(self.boundary, *point);
            AABB::lemma_quadrant_smaller(self.boundary, q);
            self.lemma_view_parts();
        }
        match q {
            Quadrant::NorthEast => {
                let ghost before = self.ne.unwrap();
                self.ne.as_mut().unwrap().insert(point);
                proof {
                    Self::lemma_child_after_insert(*before, *self.ne.unwrap(), self.boundary, q, *point);
                    Self::lemma_children_after_insert(*old(self), *self, *point);
                }
            },
            Quadrant::NorthWest => {
                let ghost before = self.nw.unwrap();
                self.nw.as_mut().unwrap().insert(point);
                proof {
                    Self::lemma_child_after_insert(*before, *self.nw.unwrap(), self.boundary, q, *point);
                    Self::lemma_children_after_insert(*old(self), *self, *point);
                }
            },
            Quadrant::SouthEast => {
                let ghost before = self.se.unwrap();
                self.se.as_mut().unwrap().insert(point);
                proof {
                    Self::lemma_child_after_insert(*before, *self.se.unwrap(), self.boundary, q, *point);
                    Self::lemma_children_after_insert(*old(self), *self, *point);
                }
            },
            Quadrant::SouthWest => {
                let ghost before = self.sw.unwrap();
                self.sw.as_mut().unwrap().insert(point);
                proof {
                    Self::lemma_child_after_insert(*before, *self.sw.unwrap(), self.boundary, q, *point);
                    Self::lemma_children_after_insert(*old(self), *self, *point);
                }
            },
        }
        proof {
            self.lemma_view_parts();
            assert(self@ =~= old(self)@.insert(*point));
        }
    }

    /// Creates the four children of a leaf whose region can be split.
    ///
    /// The buffered points stay where they are. A node that is divided
    /// already, or whose region cannot be split, is left as it is.
    pub fn subdivide(&mut self)
        requires
            old(self).wf(),
        ensures
            final(self).wf(),
            final(self).boundary == old(self).boundary,
            final(self).capacity == old(self).capacity,
            final(self).points == old(self).points,
            final(self).all_points() == old(self).all_points(),
            final(self)@ == old(self)@,
            old(self).divided || !old(self).boundary.can_split() ==> *final(self) == *old(self),
            !old(self).divided && old(self).boundary.can_split() ==> {
                let b = old(self).boundary;
                let c = old(self).capacity;
                &&& final(self).divided
                &&& Self::is_fresh_child(final(self).ne, b.quadrant(Quadrant::NorthEast), c)
                &&& Self::is_fresh_child(final(self).nw, b.quadrant(Quadrant::NorthWest), c)
                &&& Self::is_fresh_child(final(self).se, b.quadrant(Quadrant::SouthEast), c)
                &&& Self::is_fresh_child(final(self).sw, b.quadrant(Quadrant::SouthWest), c)
            },
    {
        if self.divided || !self.boundary.can_split() {
            return ;
        }
        let ne = self.boundary.quadrant(Quadrant::NorthEast);
        self.ne = Some(Box::new(Quadtree::new(ne, self.capacity)));

        let nw = self.boundary.quadrant(Quadrant::NorthWest);
        self.nw = Some(Box::new(Quadtree::new(nw, self.capacity)));

        let se = self.boundary.quadrant(Quadrant::SouthEast);
        self.se = Some(Box::new(Quadtree::new(se, self.capacity)));

        let sw = self.boundary.quadrant(Quadrant::SouthWest);
        self.sw = Some(Box::new(Quadtree::new(sw, self.capacity)));

        self.divided = true;

        proof {
            assert(self.all_points() =~= old(self).all_points());
        }
    }

    /// Appends to `found_points` every stored point that lies in `range`:
    /// the node's own matches first, then those of the north-east,
    /// north-west, south-east and south-west subtrees. Subtrees whose region
    /// does not overlap `range` are not walked.
    pub fn query(&self, range: &AABB, found_points: &mut Vec<Point>)
        requires
            self.wf(),
        ensures
            final(found_points)@ == old(found_points)@ + self.matches_in(*range),
        decreases self,
    {
        if !self.boundary.intersects(range) {
            proof {
                self.lemma_disjoint_range_matches_nothing(*range);
            }
            return ;
        }
        proof {
            self.lemma_matches_parts(*range);
            Self::lemma_filter_none(self.points@.take(0), *range);
        }
        let mut i: usize = 0;
        while i < self.points.len()
            invariant
                i <= self.points@.len(),
                found_points@ == old(found_points)@ + self.points@.take(i as int).filter(
                    range.selects(),
                ),
            decreases self.points@.len() - i,
        {
            let point = &self.points[i];
            proof {
                assert(self.points@.take(i + 1) =~= self.points@.take(i as int).push(*point));
                self.points@.take(i as int).lemma_filter_push(*point, range.selects());
            }
            if range.contains(point) {
                found_points.push(*point);
            }
            i += 1;
        }
        proof {
            assert(self.points@.take(i as int) =~= self.points@);
        }
        if self.divided {
            self.ne.as_ref().unwrap().query(range, found_points);
            self.nw.as_ref().unwrap().query(range, found_points);
            self.se.as_ref().unwrap().query(range, found_points);
            self.sw.as_ref().unwrap().query(range, found_points);
        } else {
            proof {
                Self::lemma_filter_none(Seq::<Point>::empty(), *range);
            }
        }
    }

    /// Appends the drawing of the tree to `shapes`, the root outlined in
    /// `color`.
    pub fn plot(&self, shapes: &mut Vec<Shape>, color: &Color)
        requires
            self.wf(),
        ensures
            final(shapes)@ == old(shapes)@ + self.drawing(*color),
        decreases self,
    {
        shapes.push(Shape::Outline { region: self.boundary, color: *color });
        let mut i: usize = 0;
        while i < self.points.len()
            invariant
                i <= self.points@.len(),
                shapes@ == old(shapes)@.push(Shape::Outline { region: self.boundary, color: *color })
                    + Self::dots(self.points@.take(i as int)),
            decreases self.points@.len() - i,
        {
            shapes.push(Shape::Dot { at: self.points[i] });
            proof {
                assert(Self::dots(self.points@.take(i + 1)) =~= Self::dots(
                    self.points@.take(i as int),
                ).push(Shape::Dot { at: self.points@[i as int] }));
            }
            i += 1;
        }
        proof {
            assert(self.points@.take(i as int) =~= self.points@);
        }
        if self.divided {
            let new_color = color.darker();
            self.ne.as_ref().unwrap().plot(shapes, &new_color);
            self.nw.as_ref().unwrap().plot(shapes, &new_color);
            self.se.as_ref().unwrap().plot(shapes, &new_color);
            self.sw.as_ref().unwrap().plot(shapes, &new_color);
        }
        proof {
            assert(shapes@ =~= old(shapes)@ + self.drawing(*color));
        }
    }

    /// Whether the tree is well formed. Trees made by `new` and changed by
    /// the methods of this type always are; this test is for trees that
    /// were put together field by field.
    pub fn is_well_formed(&self) -> (b: bool)
        ensures
            b == self.wf(),
        decreases self, 1int,
    {
        let mut i: usize = 0;
        while i < self.points.len()
            invariant
                i <= self.points@.len(),
                forall|j: int| 0 <= j < i ==> self.boundary.contains(&#[trigger] self.points@[j]),
            decreases self.points@.len() - i,
        {
            if !self.boundary.contains(&self.points[i]) {
                return false;
            }
            i += 1;
        }
        if self.divided {
            self.boundary.can_split() && Self::is_child_well_formed(
                &self.ne,
                &self.boundary,
                self.capacity,
                Quadrant::NorthEast,
            ) && Self::is_child_well_formed(
                &self.nw,
                &self.boundary,
                self.capacity,
                Quadrant::NorthWest,
            ) && Self::is_child_well_formed(
                &self.se,
                &self.boundary,
                self.capacity,
                Quadrant::SouthEast,
            ) && Self::is_child_well_formed(
                &self.sw,
                &self.boundary,
                self.capacity,
                Quadrant::SouthWest,
            )
        } else {
            self.ne.is_none() && self.nw.is_none() && self.se.is_none() && self.sw.is_none() && (
            self.points.len() <= self.capacity || !self.boundary.can_split())
        }
    }

    /// Whether `child` is what a node with region `parent` asks of its
    /// child in quadrant `q`.
    fn is_child_well_formed(
        child: &Option<Box<Quadtree>>,
        parent: &AABB,
        capacity: usize,
        q: Quadrant,
    ) -> (b: bool)
        requires
            parent.can_split(),
        ensures
            b == Self::child_wf(*child, *parent, capacity, q),
        decreases child, 0int,
    {
        match child {
            Some(t) => {
                t.boundary == parent.quadrant(q) && t.capacity == capacity && t.is_well_formed()
                    && t.is_owned_by(parent, q)
            },
            None => false,
        }
    }

    /// Whether quadrant `q` of `parent` owns every point stored in the tree.
    fn is_owned_by(&self, parent: &AABB, q: Quadrant) -> (b: bool)
        ensures
            b == self.owned_by(*parent, q),
        decreases self,
    {
        let mut i: usize = 0;
        while i < self.points.len()
            invariant
                i <= self.points@.len(),
                forall|j: int| 0 <= j < i ==> parent.quadrant_of(&#[trigger] self.points@[j]) == q,
            decreases self.points@.len() - i,
        {
            if parent.quadrant_of(&self.points[i]) != q {
                proof {
                    assert(self.points@.contains(self.points@[i as int]));
                    self.lemma_stored_parts(self.points@[i as int]);
                }
                return false;
            }
            i += 1;
        }
        let b = Self::is_below_owned_by(&self.ne, parent, q) && Self::is_below_owned_by(
            &self.nw,
            parent,
            q,
        ) && Self::is_below_owned_by(&self.se, parent, q) && Self::is_below_owned_by(
            &self.sw,
            parent,
            q,
        );
        proof {
            if b {
                assert forall|p: Point| #[trigger] self.all_points().contains(p) implies parent.quadrant_of(
                    &p,
                ) == q by {
                    self.lemma_stored_parts(p);
                    if self.points@.contains(p) {
                        let j = choose|j: int| 0 <= j < self.points@.len() && self.points@[j] == p;
                        assert(parent.quadrant_of(&self.points@[j]) == q);
                    }
                }
            } else {
                let below = if !Self::below_owned_by(self.ne, *parent, q) {
                    self.ne
                } else if !Self::below_owned_by(self.nw, *parent, q) {
                    self.nw
                } else if !Self::below_owned_by(self.se, *parent, q) {
                    self.se
                } else {
                    self.sw
                };
                let p = choose|p: Point| #[trigger]
                    Self::points_below(below).contains(p) && parent.quadrant_of(&p) != q;
                self.lemma_stored_parts(p);
            }
        }
        b
    }

    /// Whether quadrant `q` of `parent` owns every point stored below `child`.
    fn is_below_owned_by(child: &Option<Box<Quadtree>>, parent: &AABB, q: Quadrant) -> (b: bool)
        ensures
            b == Self::below_owned_by(*child, *parent, q),
        decreases child,
    {
        match child {
            Some(t) => {
                assert(Self::points_below(*child) == t.all_points());
                t.is_owned_by(parent, q)
            },
            None => true,
        }
    }
}

// What the operations' proofs rest on.
impl Quadtree {
    /// The children of a node that was just divided are built from nothing.
    proof fn lemma_fresh_children_built(self)
        requires
            Self::is_fresh_child(self.ne, self.boundary.quadrant(Quadrant::NorthEast), self.capacity),
            Self::is_fresh_child(self.nw, self.boundary.quadrant(Quadrant::NorthWest), self.capacity),
            Self::is_fresh_child(self.se, self.boundary.quadrant(Quadrant::SouthEast), self.capacity),
            Self::is_fresh_child(self.sw, self.boundary.quadrant(Quadrant::SouthWest), self.capacity),
        ensures
            self.children_built_from(Seq::<Point>::empty()),
    {
        let none = Seq::<Point>::empty();
        none.lemma_filter_len(self.boundary.owns(Quadrant::NorthEast));
        none.lemma_filter_len(self.boundary.owns(Quadrant::NorthWest));
        none.lemma_filter_len(self.boundary.owns(Quadrant::SouthEast));
        none.lemma_filter_len(self.boundary.owns(Quadrant::SouthWest));
        assert(none.filter(self.boundary.owns(Quadrant::NorthEast)) =~= none);
        assert(none.filter(self.boundary.owns(Quadrant::NorthWest)) =~= none);
        assert(none.filter(self.boundary.owns(Quadrant::SouthEast)) =~= none);
        assert(none.filter(self.boundary.owns(Quadrant::SouthWest)) =~= none);
    }

    /// Where the child that owns `point` has gone from what a sequence
    /// builds to what the sequence with `point` at its end builds, and the
    /// other three children have stayed, the four children together have
    /// gone the same way.
    proof fn lemma_children_after_insert(before: Quadtree, after: Quadtree, point: Point)
        requires
            after.boundary == before.boundary,
            ({
                let q = before.boundary.quadrant_of(&point);
                &&& before.child(q) is Some
                &&& after.child(q) is Some
                &&& forall|s: Seq<Point>| #[trigger]
                    before.child(q).unwrap().built_from(s) ==> after.child(q).unwrap().built_from(
                        s.push(point),
                    )
                &&& forall|other: Quadrant| other != q ==> after.child(other) == before.child(other)
            }),
        ensures
            forall|s: Seq<Point>| #[trigger]
                before.children_built_from(s) ==> after.children_built_from(s.push(point)),
    {
        let b = before.boundary;
        let q = b.quadrant_of(&point);
        assert forall|s: Seq<Point>| #[trigger] before.children_built_from(s) implies after.children_built_from(
            s.push(point),
        ) by {
            s.lemma_filter_push(point, b.owns(Quadrant::NorthEast));
            s.lemma_filter_push(point, b.owns(Quadrant::NorthWest));
            s.lemma_filter_push(point, b.owns(Quadrant::SouthEast));
            s.lemma_filter_push(point, b.owns(Quadrant::SouthWest));
            assert(before.child(q).unwrap().built_from(s.filter(b.owns(q))));
            assert(after.child(Quadrant::NorthEast) == after.ne);
            assert(after.child(Quadrant::NorthWest) == after.nw);
            assert(after.child(Quadrant::SouthEast) == after.se);
            assert(after.child(Quadrant::SouthWest) == after.sw);
        }
    }

    /// An empty leaf is well formed and stores nothing.
    pub(crate) proof fn lemma_empty_leaf(tree: Quadtree)
        requires
            tree.is_empty_leaf(tree.boundary, tree.capacity),
        ensures
            tree.wf(),
            tree.all_points() == Seq::<Point>::empty(),
            tree@ == Multiset::<Point>::empty(),
    {
        broadcast use vstd::seq_lib::group_to_multiset_ensures;

        assert(tree.all_points() =~= Seq::<Point>::empty());
        assert(tree@.len() == 0);
        assert(tree@ =~= Multiset::<Point>::empty());
    }

    /// The points of a tree are those of its own buffer and of its four
    /// subtrees together.
    pub(crate) proof fn lemma_view_parts(self)
        ensures
            self@ == self.points@.to_multiset().add(Self::view_below(self.ne)).add(
                Self::view_below(self.nw),
            ).add(Self::view_below(self.se)).add(Self::view_below(self.sw)),
    {
        let a = self.points@;
        let b = Self::points_below(self.ne);
        let c = Self::points_below(self.nw);
        let d = Self::points_below(self.se);
        let e = Self::points_below(self.sw);
        vstd::seq_lib::lemma_multiset_commutative(a, b);
        vstd::seq_lib::lemma_multiset_commutative(a + b, c);
        vstd::seq_lib::lemma_multiset_commutative(a + b + c, d);
        vstd::seq_lib::lemma_multiset_commutative(a + b + c + d, e);
    }

    /// A point is stored in a tree exactly when it is in the node's own
    /// buffer or stored below one of the four children.
    pub(crate) proof fn lemma_stored_parts(self, p: Point)
        ensures
            self.all_points().contains(p) <==> self.points@.contains(p) || Self::points_below(
                self.ne,
            ).contains(p) || Self::points_below(self.nw).contains(p) || Self::points_below(
                self.se,
            ).contains(p) || Self::points_below(self.sw).contains(p),
    {
        broadcast use vstd::seq_lib::lemma_seq_concat_contains_all_elements;

    }

    /// A child that has taken a point of its own quadrant still stores only
    /// points of that quadrant.
    proof fn lemma_child_after_insert(
        before: Quadtree,
        after: Quadtree,
        parent: AABB,
        q: Quadrant,
        point: Point,
    )
        requires
            before.owned_by(parent, q),
            parent.quadrant_of(&point) == q,
            after@ == before@.insert(point),
        ensures
            after.owned_by(parent, q),
    {
        assert forall|p: Point| #[trigger] after.all_points().contains(p) implies parent.quadrant_of(
            &p,
        ) == q by {
            vstd::seq_lib::to_multiset_contains(after.all_points(), p);
            vstd::seq_lib::to_multiset_contains(before.all_points(), p);
            if p != point {
                assert(before.all_points().contains(p));
            }
        }
    }

    /// Filtering a sequence that holds no wanted element leaves nothing.
    pub(crate) proof fn lemma_filter_none(s: Seq<Point>, range: AABB)
        requires
            forall|p: Point| #[trigger] s.contains(p) ==> !range.contains(&p),
        ensures
            s.filter(range.selects()) == Seq::<Point>::empty(),
    {
        let kept = s.filter(range.selects());
        if kept.len() > 0 {
            let p = kept[0];
            assert(kept.contains(p));
            s.lemma_filter_contains_rev(range.selects(), p);
            s.lemma_filter_pred(range.selects(), 0);
        }
    }

    /// Filtering a sequence that holds only wanted elements keeps it whole.
    pub(crate) proof fn lemma_filter_all(s: Seq<Point>, range: AABB)
        requires
            forall|p: Point| #[trigger] s.contains(p) ==> range.contains(&p),
        ensures
            s.filter(range.selects()) == s,
        decreases s.len(),
    {
        if s.len() > 0 {
            let front = s.drop_last();
            assert forall|p: Point| #[trigger] front.contains(p) implies range.contains(&p) by {
                let i = choose|i: int| 0 <= i < front.len() && front[i] == p;
                assert(s[i] == p);
                assert(s.contains(p));
            }
            Self::lemma_filter_all(front, range);
            assert(s.contains(s.last()));
            assert(s =~= front.push(s.last()));
            front.lemma_filter_push(s.last(), range.selects());
        } else {
            Self::lemma_filter_none(s, range);
        }
    }

    /// The matches of a tree are the matches of its own buffer followed by
    /// those of its four subtrees.
    proof fn lemma_matches_parts(self, range: AABB)
        ensures
            self.matches_in(range) == self.points@.filter(range.selects()) + Self::points_below(
                self.ne,
            ).filter(range.selects()) + Self::points_below(self.nw).filter(range.selects())
                + Self::points_below(self.se).filter(range.selects()) + Self::points_below(
                self.sw,
            ).filter(range.selects()),
    {
        let f = range.selects();
        let a = self.points@;
        let b = Self::points_below(self.ne);
        let c = Self::points_below(self.nw);
        let d = Self::points_below(self.se);
        let e = Self::points_below(self.sw);
        Seq::filter_distributes_over_add(a, b, f);
        Seq::filter_distributes_over_add(a + b, c, f);
        Seq::filter_distributes_over_add(a + b + c, d, f);
        Seq::filter_distributes_over_add(a + b + c + d, e, f);
    }
}

} // verus!
