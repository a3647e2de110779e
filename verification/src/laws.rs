//! What holds of every tree: the laws that callers may rely on.

use vstd::multiset::Multiset;
use vstd::prelude::*;
use crate::aabb::{AABB, Quadrant};
use crate::point::Point;
use crate::quad_tree::Quadtree;
use crate::shape::Color;

verus! {

impl Quadtree {
    /// Every point stored in a well-formed tree lies in the tree's region.
    pub proof fn lemma_stored_in_boundary(self)
        requires
            self.wf(),
        ensures
            forall|p: Point| #[trigger] self.all_points().contains(p) ==> self.boundary.contains(&p),
        decreases self,
    {
        broadcast use vstd::seq_lib::lemma_seq_concat_contains_all_elements;

        if self.divided {
            Self::lemma_below_in_boundary(self.ne, self.boundary, self.capacity, Quadrant::NorthEast);
            Self::lemma_below_in_boundary(self.nw, self.boundary, self.capacity, Quadrant::NorthWest);
            Self::lemma_below_in_boundary(self.se, self.boundary, self.capacity, Quadrant::SouthEast);
            Self::lemma_below_in_boundary(self.sw, self.boundary, self.capacity, Quadrant::SouthWest);
        }
        assert forall|p: Point| #[trigger] self.all_points().contains(p) implies self.boundary.contains(
            &p,
        ) by {
            if self.points@.contains(p) {
                let i = choose|i: int| 0 <= i < self.points@.len() && self.points@[i] == p;
                assert(self.boundary.contains(&self.points@[i]));
            } else {
                assert(Self::points_below(self.ne).contains(p) || Self::points_below(
                    self.nw,
                ).contains(p) || Self::points_below(self.se).contains(p) || Self::points_below(
                    self.sw,
                ).contains(p));
            }
        }
    }

    /// Every point stored below a well-formed child lies in the parent's region.
    proof fn lemma_below_in_boundary(
        child: Option<Box<Quadtree>>,
        parent: AABB,
        capacity: usize,
        q: Quadrant,
    )
        requires
            parent.can_split(),
            Self::child_wf(child, parent, capacity, q),
        ensures
            forall|p: Point| #[trigger]
                Self::points_below(child).contains(p) ==> parent.quadrant(q).contains(&p)
                    && parent.contains(&p),
        decreases child,
    {
        let t = child.unwrap();
        t.lemma_stored_in_boundary();
        AABB::lemma_quadrant_within(parent, q);
        assert forall|p: Point| #[trigger] Self::points_below(child).contains(p) implies parent.quadrant(
            q,
        ).contains(&p) && parent.contains(&p) by {
            assert(t.all_points().contains(p));
            assert(t.boundary.contains(&p));
        }
    }

    /// A tree whose region does not overlap `range` stores no point of it.
    pub proof fn lemma_disjoint_range_matches_nothing(self, range: AABB)
        requires
            self.wf(),
            !self.boundary.intersects(&range),
        ensures
            self.matches_in(range) == Seq::<Point>::empty(),
    {
        self.lemma_stored_in_boundary();
        assert forall|p: Point| #[trigger] self.all_points().contains(p) implies !range.contains(
            &p,
        ) by {
            if range.contains(&p) {
                AABB::lemma_common_point_intersects(self.boundary, range, p);
            }
        }
        Self::lemma_filter_none(self.all_points(), range);
    }

    /// Filtering keeps every wanted element as often as it occurred, and no
    /// other element.
    proof fn lemma_filter_count(s: Seq<Point>, wanted: spec_fn(Point) -> bool, p: Point)
        ensures
            s.filter(wanted).to_multiset().count(p) == (if wanted(p) {
                s.to_multiset().count(p)
            } else {
                0
            }),
        decreases s.len(),
    {
        broadcast use vstd::multiset::group_multiset_axioms;

        if s.len() == 0 {
            s.lemma_filter_len(wanted);
            assert(s.filter(wanted) =~= s);
            vstd::seq_lib::to_multiset_len(s);
            assert(s.to_multiset().count(p) == 0);
        } else {
            let front = s.drop_last();
            let last = s.last();
            Self::lemma_filter_count(front, wanted, p);
            assert(s =~= front.push(last));
            front.lemma_filter_push(last, wanted);
            vstd::seq_lib::to_multiset_build(front, last);
            assert(s.to_multiset().count(p) == front.to_multiset().count(p) + (if p == last {
                1int
            } else {
                0int
            }));
            if wanted(last) {
                assert(s.filter(wanted) == front.filter(wanted).push(last));
                vstd::seq_lib::to_multiset_build(front.filter(wanted), last);
            } else {
                assert(s.filter(wanted) == front.filter(wanted));
            }
        }
    }

    /// A query answers like a scan over everything stored: each point of
    /// `range` occurs among the matches as often as it is stored, and no
    /// point outside `range` occurs at all.
    pub proof fn lemma_query_is_linear_scan(self, range: AABB, p: Point)
        ensures
            self.matches_in(range).to_multiset().count(p) == (if range.contains(&p) {
                self@.count(p)
            } else {
                0
            }),
            self.matches_in(range).contains(p) <==> self.all_points().contains(p) && range.contains(
                &p,
            ),
    {
        Self::lemma_filter_count(self.all_points(), range.selects(), p);
        vstd::seq_lib::to_multiset_contains(self.matches_in(range), p);
        vstd::seq_lib::to_multiset_contains(self.all_points(), p);
    }

    /// A query whose range covers the whole region of a well-formed tree
    /// returns every stored point, each exactly as often as it was stored.
    pub proof fn lemma_covering_query_returns_all(self, range: AABB)
        requires
            self.wf(),
            self.boundary.within(range),
        ensures
            self.matches_in(range) == self.all_points(),
            self.matches_in(range).to_multiset() == self@,
            self.matches_in(range).len() == self@.len(),
    {
        self.lemma_stored_in_boundary();
        assert forall|p: Point| #[trigger] self.all_points().contains(p) implies range.contains(
            &p,
        ) by {
            assert(self.boundary.contains(&p));
        }
        Self::lemma_filter_all(self.all_points(), range);
        vstd::seq_lib::to_multiset_len(self.all_points());
    }

    /// Two trees that store the same points answer every query with the
    /// same points, each equally often.
    pub proof fn lemma_equal_content_equal_matches(a: Quadtree, b: Quadtree, range: AABB)
        requires
            a@ == b@,
        ensures
            a.matches_in(range).to_multiset() == b.matches_in(range).to_multiset(),
    {
        assert forall|p: Point|
            a.matches_in(range).to_multiset().count(p) == b.matches_in(range).to_multiset().count(
                p,
            ) by {
            a.lemma_query_is_linear_scan(range, p);
            b.lemma_query_is_linear_scan(range, p);
        }
        assert(a.matches_in(range).to_multiset() =~= b.matches_in(range).to_multiset());
    }
}

impl Quadtree {
    /// Single ownership: of the points that a divided, well-formed node has
    /// handed down, each is stored below the child whose quadrant owns it,
    /// and below no other child.
    pub proof fn lemma_single_owner(self, q: Quadrant, p: Point)
        requires
            self.wf(),
            self.divided,
        ensures
            Self::view_below(self.child(q)).count(p) == (if self.boundary.quadrant_of(&p) == q {
                self@.count(p) - self.points@.to_multiset().count(p)
            } else {
                0
            }),
    {
        broadcast use vstd::multiset::group_multiset_axioms;

        self.lemma_view_parts();
        Self::lemma_not_owned_not_stored(
            self.ne,
            self.boundary,
            self.capacity,
            Quadrant::NorthEast,
            p,
        );
        Self::lemma_not_owned_not_stored(
            self.nw,
            self.boundary,
            self.capacity,
            Quadrant::NorthWest,
            p,
        );
        Self::lemma_not_owned_not_stored(
            self.se,
            self.boundary,
            self.capacity,
            Quadrant::SouthEast,
            p,
        );
        Self::lemma_not_owned_not_stored(
            self.sw,
            self.boundary,
            self.capacity,
            Quadrant::SouthWest,
            p,
        );
    }

    /// A child stores no point that another quadrant owns.
    proof fn lemma_not_owned_not_stored(
        child: Option<Box<Quadtree>>,
        parent: AABB,
        capacity: usize,
        q: Quadrant,
        p: Point,
    )
        requires
            Self::child_wf(child, parent, capacity, q),
        ensures
            parent.quadrant_of(&p) != q ==> Self::view_below(child).count(p) == 0,
    {
        let t = child.unwrap();
        assert(Self::points_below(child) == t.all_points());
        vstd::seq_lib::to_multiset_contains(t.all_points(), p);
    }

    /// How many nodes an optional child has.
    pub open spec fn nodes_below(child: Option<Box<Quadtree>>) -> nat
        decreases child,
    {
        match child {
            Some(t) => t.node_count(),
            None => 0,
        }
    }

    /// How many nodes the tree has.
    pub open spec fn node_count(self) -> nat
        decreases self,
    {
        1 + Self::nodes_below(self.ne) + Self::nodes_below(self.nw) + Self::nodes_below(self.se)
            + Self::nodes_below(self.sw)
    }

    /// A drawing holds one shape for each node and one for each stored
    /// point.
    pub proof fn lemma_drawing_len(self, color: Color)
        ensures
            self.drawing(color).len() == self.node_count() + self.all_points().len(),
        decreases self,
    {
        Self::lemma_drawing_below_len(self.ne, color.darker());
        Self::lemma_drawing_below_len(self.nw, color.darker());
        Self::lemma_drawing_below_len(self.se, color.darker());
        Self::lemma_drawing_below_len(self.sw, color.darker());
    }

    /// The drawing of a child holds one shape for each node and one for
    /// each point below it.
    proof fn lemma_drawing_below_len(child: Option<Box<Quadtree>>, color: Color)
        ensures
            Self::drawing_below(child, color).len() == Self::nodes_below(child)
                + Self::points_below(child).len(),
        decreases child,
    {
        match child {
            Some(t) => {
                t.lemma_drawing_len(color);
            },
            None => {},
        }
    }
}

impl Quadtree {
    /// A well-formed tree built from a sequence of points stores exactly
    /// those points, each as often as the sequence holds it.
    pub proof fn lemma_built_from_content(self, s: Seq<Point>)
        requires
            self.wf(),
            self.built_from(s),
        ensures
            self@ == s.to_multiset(),
            self.all_points().len() == s.len(),
        decreases self,
    {
        broadcast use vstd::multiset::group_multiset_axioms;

        if self.divided {
            let b = self.boundary;
            Self::lemma_below_built_from_content(self.ne, s.filter(b.owns(Quadrant::NorthEast)));
            Self::lemma_below_built_from_content(self.nw, s.filter(b.owns(Quadrant::NorthWest)));
            Self::lemma_below_built_from_content(self.se, s.filter(b.owns(Quadrant::SouthEast)));
            Self::lemma_below_built_from_content(self.sw, s.filter(b.owns(Quadrant::SouthWest)));
            self.lemma_view_parts();
            vstd::seq_lib::to_multiset_len(self.points@);
            assert(self.points@.to_multiset() =~= Multiset::<Point>::empty());
            assert forall|p: Point| self@.count(p) == s.to_multiset().count(p) by {
                Self::lemma_filter_count(s, b.owns(Quadrant::NorthEast), p);
                Self::lemma_filter_count(s, b.owns(Quadrant::NorthWest), p);
                Self::lemma_filter_count(s, b.owns(Quadrant::SouthEast), p);
                Self::lemma_filter_count(s, b.owns(Quadrant::SouthWest), p);
            }
            assert(self@ =~= s.to_multiset());
        } else {
            assert(self.all_points() =~= s);
        }
        vstd::seq_lib::to_multiset_len(self.all_points());
        vstd::seq_lib::to_multiset_len(s);
    }

    /// A well-formed child built from a sequence of points stores exactly
    /// those points.
    proof fn lemma_below_built_from_content(child: Option<Box<Quadtree>>, s: Seq<Point>)
        requires
            child is Some,
            child.unwrap().wf(),
            Self::below_built_from(child, s),
        ensures
            Self::view_below(child) == s.to_multiset(),
        decreases child,
    {
        let t = child.unwrap();
        t.lemma_built_from_content(s);
    }

    /// A well-formed tree built from a sequence of points is divided
    /// exactly when the sequence holds more points than a leaf buffers
    /// and the tree's region can be split.
    pub proof fn lemma_divided_iff_overfull(self, s: Seq<Point>)
        requires
            self.wf(),
            self.built_from(s),
        ensures
            self.divided <==> s.len() > self.capacity && self.boundary.can_split(),
    {
    }

    /// Two well-formed trees for the same region and capacity that were
    /// built from the same sequence of points store the same points in the
    /// same places: they give the same walk, the same answer to every
    /// query and the same drawing.
    pub proof fn lemma_same_insertions_same_tree(a: Quadtree, b: Quadtree, s: Seq<Point>)
        requires
            a.wf(),
            b.wf(),
            a.boundary == b.boundary,
            a.capacity == b.capacity,
            a.built_from(s),
            b.built_from(s),
        ensures
            a.divided == b.divided,
            a.points@ == b.points@,
            a.all_points() == b.all_points(),
            forall|range: AABB| #[trigger] a.matches_in(range) == b.matches_in(range),
            forall|color: Color| #[trigger] a.drawing(color) == b.drawing(color),
        decreases a,
    {
        let r = a.boundary;
        if a.divided {
            Self::lemma_same_insertions_same_child(a.ne, b.ne, r, a.capacity, Quadrant::NorthEast, s);
            Self::lemma_same_insertions_same_child(a.nw, b.nw, r, a.capacity, Quadrant::NorthWest, s);
            Self::lemma_same_insertions_same_child(a.se, b.se, r, a.capacity, Quadrant::SouthEast, s);
            Self::lemma_same_insertions_same_child(a.sw, b.sw, r, a.capacity, Quadrant::SouthWest, s);
            assert(a.points@ =~= b.points@);
        }
        assert(a.all_points() == b.all_points());
        assert forall|color: Color| #[trigger] a.drawing(color) == b.drawing(color) by {
            let below = color.darker();
            assert(Self::drawing_below(a.ne, below) == Self::drawing_below(b.ne, below));
            assert(Self::drawing_below(a.nw, below) == Self::drawing_below(b.nw, below));
            assert(Self::drawing_below(a.se, below) == Self::drawing_below(b.se, below));
            assert(Self::drawing_below(a.sw, below) == Self::drawing_below(b.sw, below));
        }
    }

    /// Two well-formed children for the same quadrant that were built from
    /// the same sequence of points give the same walk and the same drawing.
    proof fn lemma_same_insertions_same_child(
        a: Option<Box<Quadtree>>,
        b: Option<Box<Quadtree>>,
        parent: AABB,
        capacity: usize,
        q: Quadrant,
        s: Seq<Point>,
    )
        requires
            Self::child_wf(a, parent, capacity, q),
            Self::child_wf(b, parent, capacity, q),
            Self::below_built_from(a, s.filter(parent.owns(q))),
            Self::below_built_from(b, s.filter(parent.owns(q))),
        ensures
            Self::points_below(a) == Self::points_below(b),
            forall|color: Color| #[trigger]
                Self::drawing_below(a, color) == Self::drawing_below(b, color),
        decreases a,
    {
        let ta = *a.unwrap();
        let tb = *b.unwrap();
        Self::lemma_same_insertions_same_tree(ta, tb, s.filter(parent.owns(q)));
        assert forall|color: Color| #[trigger]
            Self::drawing_below(a, color) == Self::drawing_below(b, color) by {
            assert(ta.drawing(color) == tb.drawing(color));
        }
    }

    /// A query on a well-formed tree built from a sequence of points
    /// answers like a scan over that sequence: each point of `range`
    /// occurs among the matches as often as in the sequence, and no other
    /// point occurs.
    pub proof fn lemma_query_scans_insertions(self, s: Seq<Point>, range: AABB)
        requires
            self.wf(),
            self.built_from(s),
        ensures
            self.matches_in(range).to_multiset() == s.filter(range.selects()).to_multiset(),
            self.matches_in(range).len() == s.filter(range.selects()).len(),
    {
        self.lemma_built_from_content(s);
        assert forall|p: Point|
            self.matches_in(range).to_multiset().count(p) == s.filter(
                range.selects(),
            ).to_multiset().count(p) by {
            self.lemma_query_is_linear_scan(range, p);
            Self::lemma_filter_count(s, range.selects(), p);
        }
        assert(self.matches_in(range).to_multiset() =~= s.filter(range.selects()).to_multiset());
        vstd::seq_lib::to_multiset_len(self.matches_in(range));
        vstd::seq_lib::to_multiset_len(s.filter(range.selects()));
    }
}

impl Quadtree {
    /// A query whose range covers the whole region of a well-formed tree
    /// built from a sequence of points returns those points and no others:
    /// as many as the sequence holds, and none twice where the sequence
    /// holds none twice.
    pub proof fn lemma_covering_query_returns_insertions(self, s: Seq<Point>, range: AABB)
        requires
            self.wf(),
            self.built_from(s),
            self.boundary.within(range),
        ensures
            self.matches_in(range).to_multiset() == s.to_multiset(),
            self.matches_in(range).len() == s.len(),
            s.no_duplicates() ==> self.matches_in(range).no_duplicates(),
    {
        self.lemma_covering_query_returns_all(range);
        self.lemma_built_from_content(s);
        if s.no_duplicates() {
            s.lemma_multiset_has_no_duplicates();
            self.matches_in(range).lemma_multiset_has_no_duplicates_conv();
        }
    }
}

} // verus!
