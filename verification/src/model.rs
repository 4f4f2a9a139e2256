//! The mathematical model of the index: a ghost tree whose entry lists are
//! sequences. Every contract of the executable tree speaks of this model.

use vstd::prelude::*;
use crate::geometry::Rect;

verus! {

/// The four quadrant subtrees of an internal node, in the fixed
/// north-west, north-east, south-west, south-east order that insertion
/// and query follow.
#[verifier::ext_equal]
pub struct QuadsView {
    pub nw: TreeView,
    pub ne: TreeView,
    pub sw: TreeView,
    pub se: TreeView,
}

/// The abstract state of one node: its fixed boundary, the capacity and the
/// subdivision allowance it was built with, the entries stored directly at
/// the node in insertion order, and either no children (a leaf) or all four
/// (an internal node) -- the all-or-nothing shape is enforced by the type.
#[verifier::ext_equal]
pub struct TreeView {
    pub boundary: Rect,
    pub capacity: nat,
    pub depth_limit: nat,
    pub points: Seq<Rect>,
    pub quads: Option<Box<QuadsView>>,
}

/// The entries of `points` whose origin `region` contains, in order.
pub open spec fn hits_in(points: Seq<Rect>, region: Rect) -> Seq<Rect> {
    points.filter(|p: Rect| region.spec_contains(p))
}

/// Scanning one more entry extends the hits by that entry exactly when the
/// region contains its origin.
pub proof fn lemma_hits_in_step(points: Seq<Rect>, region: Rect, i: int)
    requires
        0 <= i < points.len(),
    ensures
        hits_in(points.take(i + 1), region) == (if region.spec_contains(points[i]) {
            hits_in(points.take(i), region).push(points[i])
        } else {
            hits_in(points.take(i), region)
        }),
{
    reveal(Seq::filter);
    assert(points.take(i + 1).drop_last() =~= points.take(i));
    assert(points.take(i + 1).last() == points[i]);
}

impl TreeView {
    /// A freshly constructed leaf: no entries, no children.
    pub open spec fn fresh(boundary: Rect, capacity: nat, depth_limit: nat) -> TreeView {
        TreeView { boundary, capacity, depth_limit, points: Seq::empty(), quads: None }
    }

    /// Well-formedness, established by the constructor and preserved by
    /// every operation:
    /// - the boundary has non-negative extent and its far corner is
    ///   representable;
    /// - no more than `capacity` entries sit directly at the node, and each
    ///   of them has its origin inside the boundary;
    /// - an internal node was subdivided exactly when full, still has room
    ///   in its subdivision allowance, and its four children cover the four
    ///   truncated-half quadrants, inherit the capacity unchanged, carry one
    ///   subdivision fewer, and are themselves well-formed.
    pub open spec fn wf(self) -> bool
        decreases self,
    {
        &&& self.boundary.w >= 0
        &&& self.boundary.h >= 0
        &&& self.boundary.x + self.boundary.w <= i32::MAX
        &&& self.boundary.y + self.boundary.h <= i32::MAX
        &&& self.points.len() <= self.capacity
        &&& (forall|i: int|
            0 <= i < self.points.len() ==> self.boundary.spec_contains(#[trigger] self.points[i]))
        &&& match self.quads {
            None => true,
            Some(q) => {
                &&& self.points.len() == self.capacity
                &&& self.depth_limit > 0
                &&& self.child_shape_ok(q.nw, self.boundary.nw_quadrant())
                &&& self.child_shape_ok(q.ne, self.boundary.ne_quadrant())
                &&& self.child_shape_ok(q.sw, self.boundary.sw_quadrant())
                &&& self.child_shape_ok(q.se, self.boundary.se_quadrant())
                &&& q.nw.wf()
                &&& q.ne.wf()
                &&& q.sw.wf()
                &&& q.se.wf()
            },
        }
    }

    /// A child owns the given quadrant, inherits the capacity unchanged,
    /// and has one level of subdivision fewer left.
    pub open spec fn child_shape_ok(self, child: TreeView, quadrant: Rect) -> bool {
        &&& child.boundary == quadrant
        &&& child.capacity == self.capacity
        &&& child.depth_limit == self.depth_limit - 1
    }

    /// Every entry stored in the subtree, in the deterministic order the
    /// operations follow: the node's own entries first, then the four
    /// quadrants' entries, north-west to south-east.
    pub open spec fn entries(self) -> Seq<Rect>
        decreases self,
    {
        match self.quads {
            None => self.points,
            Some(q) => self.points + q.nw.entries() + q.ne.entries() + q.sw.entries()
                + q.se.entries(),
        }
    }

    /// Every boundary in the subtree, in pre-order: the node's own first,
    /// then those of the four quadrants, north-west to south-east.
    pub open spec fn boundary_list(self) -> Seq<Rect>
        decreases self,
    {
        match self.quads {
            None => seq![self.boundary],
            Some(q) => seq![self.boundary] + q.nw.boundary_list() + q.ne.boundary_list()
                + q.sw.boundary_list() + q.se.boundary_list(),
        }
    }

    /// What the subtree contributes to a query: nothing when its boundary
    /// does not intersect the region; otherwise the directly stored entries
    /// whose origin the region contains, followed by the four quadrants'
    /// contributions in order.
    pub open spec fn query_hits(self, region: Rect) -> Seq<Rect>
        decreases self,
    {
        if !self.boundary.spec_intersects(region) {
            Seq::empty()
        } else {
            hits_in(self.points, region) + match self.quads {
                None => Seq::<Rect>::empty(),
                Some(q) => q.nw.query_hits(region) + q.ne.query_hits(region)
                    + q.sw.query_hits(region) + q.se.query_hits(region),
            }
        }
    }

    /// The result of a query: the pruning signal `None` exactly when the
    /// node's boundary does not intersect the region, and the collected
    /// hits otherwise.
    pub open spec fn spec_query(self, region: Rect) -> Option<Seq<Rect>> {
        if self.boundary.spec_intersects(region) {
            Some(self.query_hits(region))
        } else {
            None
        }
    }

    /// The one-time split of a leaf: four fresh leaf children, one per
    /// truncated-half quadrant, each inheriting the capacity and granted
    /// one subdivision fewer. The entries already stored at the node stay
    /// where they are.
    pub open spec fn subdivided(self) -> TreeView {
        TreeView {
            quads: Some(
                Box::new(
                    QuadsView {
                        nw: TreeView::fresh(
                            self.boundary.nw_quadrant(),
                            self.capacity,
                            (self.depth_limit - 1) as nat,
                        ),
                        ne: TreeView::fresh(
                            self.boundary.ne_quadrant(),
                            self.capacity,
                            (self.depth_limit - 1) as nat,
                        ),
                        sw: TreeView::fresh(
                            self.boundary.sw_quadrant(),
                            self.capacity,
                            (self.depth_limit - 1) as nat,
                        ),
                        se: TreeView::fresh(
                            self.boundary.se_quadrant(),
                            self.capacity,
                            (self.depth_limit - 1) as nat,
                        ),
                    },
                ),
            ),
            ..self
        }
    }

    /// `self` with its four children replaced.
    pub open spec fn with_quads(self, q: QuadsView) -> TreeView {
        TreeView { quads: Some(Box::new(q)), ..self }
    }

    /// One insertion step, with `fuel` bounding how many levels the entry
    /// may still descend (the executable tree keeps `fuel` equal to the
    /// node's remaining subdivision allowance):
    /// - an entry whose origin lies outside the boundary is rejected;
    /// - a leaf with room appends the entry;
    /// - a full leaf with no allowance left rejects the entry -- the bound
    ///   that replaces the unbounded recursion of a tree without one;
    /// - otherwise the node (subdivided first, if it was a leaf) offers the
    ///   entry to its children in the fixed quadrant order and keeps the
    ///   first acceptance. A rejecting child is kept as the attempt left
    ///   it: a failed descent can still have subdivided nodes on its way.
    pub open spec fn spec_insert_at(self, entry: Rect, fuel: nat) -> (TreeView, bool)
        decreases fuel,
    {
        if !self.boundary.spec_contains(entry) {
            (self, false)
        } else if self.quads is None && self.points.len() < self.capacity {
            (TreeView { points: self.points.push(entry), ..self }, true)
        } else if fuel == 0 {
            (self, false)
        } else {
            let t = if self.quads is None {
                self.subdivided()
            } else {
                self
            };
            match t.quads {
                None => (t, false),
                Some(q) => {
                    let (nw1, r1) = q.nw.spec_insert_at(entry, (fuel - 1) as nat);
                    if r1 {
                        (t.with_quads(QuadsView { nw: nw1, ..*q }), true)
                    } else {
                        let (ne1, r2) = q.ne.spec_insert_at(entry, (fuel - 1) as nat);
                        if r2 {
                            (t.with_quads(QuadsView { nw: nw1, ne: ne1, ..*q }), true)
                        } else {
                            let (sw1, r3) = q.sw.spec_insert_at(entry, (fuel - 1) as nat);
                            if r3 {
                                (t.with_quads(QuadsView { nw: nw1, ne: ne1, sw: sw1, ..*q }), true)
                            } else {
                                let (se1, r4) = q.se.spec_insert_at(entry, (fuel - 1) as nat);
                                (
                                    t.with_quads(QuadsView { nw: nw1, ne: ne1, sw: sw1, se: se1 }),
                                    r4,
                                )
                            }
                        }
                    }
                },
            }
        }
    }

    /// Insertion at a node, descending at most as many levels as the node
    /// has subdivisions left.
    pub open spec fn spec_insert(self, entry: Rect) -> (TreeView, bool) {
        self.spec_insert_at(entry, self.depth_limit)
    }

    /// Every node in the subtree has a boundary of positive extent. Deep
    /// subdivision of a narrow boundary truncates an extent to zero, and a
    /// zero-extent node intersects no region at all -- not even one that
    /// encloses it -- so only under this predicate is a query with an
    /// enclosing region guaranteed to reach every stored entry.
    pub open spec fn all_positive(self) -> bool
        decreases self,
    {
        &&& self.boundary.w > 0
        &&& self.boundary.h > 0
        &&& match self.quads {
            None => true,
            Some(q) => q.nw.all_positive() && q.ne.all_positive() && q.sw.all_positive()
                && q.se.all_positive(),
        }
    }

    /// Subdividing a full leaf that still has subdivision allowance yields
    /// a well-formed internal node.
    pub proof fn lemma_subdivided_wf(self)
        requires
            self.wf(),
            self.quads is None,
            self.points.len() == self.capacity,
            self.depth_limit > 0,
        ensures
            self.subdivided().wf(),
            self.subdivided().quads is Some,
    {
        let b = self.boundary;
        assert(0 <= b.w / 2 <= b.w);
        assert(0 <= b.h / 2 <= b.h);
        assert(b.w / 2 + b.w / 2 <= b.w);
        assert(b.h / 2 + b.h / 2 <= b.h);
        assert(((b.w / 2) as i32) == b.w / 2);
        assert(((b.h / 2) as i32) == b.h / 2);
        assert(((b.x + b.w / 2) as i32) == b.x + b.w / 2);
        assert(((b.y + b.h / 2) as i32) == b.y + b.h / 2);
        let t = self.subdivided();
        let q = *t.quads.unwrap();
        assert(q.nw.wf());
        assert(q.ne.wf());
        assert(q.sw.wf());
        assert(q.se.wf());
    }

    /// Insertion keeps the tree well-formed and never touches the node's
    /// boundary, capacity, or subdivision allowance.
    pub proof fn lemma_insert_at_wf(self, entry: Rect, fuel: nat)
        requires
            self.wf(),
            fuel == self.depth_limit,
        ensures
            self.spec_insert_at(entry, fuel).0.wf(),
            self.spec_insert_at(entry, fuel).0.boundary == self.boundary,
            self.spec_insert_at(entry, fuel).0.capacity == self.capacity,
            self.spec_insert_at(entry, fuel).0.depth_limit == self.depth_limit,
        decreases fuel,
    {
        if !self.boundary.spec_contains(entry) {
        } else if self.quads is None && self.points.len() < self.capacity {
            let t2 = TreeView { points: self.points.push(entry), ..self };
            assert forall|i: int| 0 <= i < t2.points.len() implies t2.boundary.spec_contains(
                #[trigger] t2.points[i],
            ) by {
                if i < self.points.len() {
                    assert(t2.points[i] == self.points[i]);
                }
            }
            assert(t2.wf());
        } else if fuel == 0 {
        } else {
            let t = if self.quads is None {
                self.lemma_subdivided_wf();
                self.subdivided()
            } else {
                self
            };
            assert(t.wf());
            let q = *t.quads.unwrap();
            let sub_fuel = (fuel - 1) as nat;
            q.nw.lemma_insert_at_wf(entry, sub_fuel);
            let (nw1, r1) = q.nw.spec_insert_at(entry, sub_fuel);
            assert(t.with_quads(QuadsView { nw: nw1, ..q }).wf());
            if !r1 {
                q.ne.lemma_insert_at_wf(entry, sub_fuel);
                let (ne1, r2) = q.ne.spec_insert_at(entry, sub_fuel);
                assert(t.with_quads(QuadsView { nw: nw1, ne: ne1, ..q }).wf());
                if !r2 {
                    q.sw.lemma_insert_at_wf(entry, sub_fuel);
                    let (sw1, r3) = q.sw.spec_insert_at(entry, sub_fuel);
                    assert(t.with_quads(QuadsView { nw: nw1, ne: ne1, sw: sw1, ..q }).wf());
                    if !r3 {
                        q.se.lemma_insert_at_wf(entry, sub_fuel);
                        let (se1, r4) = q.se.spec_insert_at(entry, sub_fuel);
                        assert(t.with_quads(
                            QuadsView { nw: nw1, ne: ne1, sw: sw1, se: se1 },
                        ).wf());
                    }
                }
            }
        }
    }
}

} // verus!
