//! The executable quadtree. Each node owns a bounded list of entries and,
//! once subdivided, four children covering the quadrants of its boundary.
//! Every operation's contract is stated over the ghost model in `model`.

use vstd::prelude::*;
use crate::geometry::Rect;
use crate::model::{QuadsView, TreeView};

verus! {

/// How many times a chain of nodes may subdivide below a fresh root. The
/// halving of a boundary's extent reaches zero after at most 31 steps on
/// 32-bit coordinates, so no useful split lies deeper; the bound also turns
/// the unbounded recursion that clustered entries would otherwise cause
/// into a rejected insertion.
pub const DEPTH_LIMIT: usize = 32;

/// The four child subtrees of an internal node.
pub struct Quadrants {
    pub north_west: QuadTree,
    pub north_east: QuadTree,
    pub south_west: QuadTree,
    pub south_east: QuadTree,
}

/// A quadtree node: a fixed boundary, a capacity-bounded list of directly
/// stored entries, the number of subdivisions still allowed below it, and
/// either no children or all four.
pub struct QuadTree {
    pub boundary: Rect,
    pub capacity: usize,
    pub depth_limit: usize,
    pub points: Vec<Rect>,
    pub children: Option<Box<Quadrants>>,
}

impl QuadTree {
    /// The ghost model of the subtree rooted here.
    pub open spec fn as_view(self) -> TreeView
        decreases self,
    {
        TreeView {
            boundary: self.boundary,
            capacity: self.capacity as nat,
            depth_limit: self.depth_limit as nat,
            points: self.points@,
            quads: match self.children {
                None => None,
                Some(q) => Some(
                    Box::new(
                        QuadsView {
                            nw: q.north_west.as_view(),
                            ne: q.north_east.as_view(),
                            sw: q.south_west.as_view(),
                            se: q.south_east.as_view(),
                        },
                    ),
                ),
            },
        }
    }
}

impl View for QuadTree {
    type V = TreeView;

    open spec fn view(&self) -> TreeView {
        self.as_view()
    }
}

impl QuadTree {
    /// A fresh leaf over `boundary` that will hold up to `capacity` entries
    /// directly and may still subdivide `depth_limit` times.
    fn leaf(boundary: Rect, capacity: usize, depth_limit: usize) -> (t: QuadTree)
        ensures
            t@ == TreeView::fresh(boundary, capacity as nat, depth_limit as nat),
    {
        let t = QuadTree { boundary, capacity, depth_limit, points: Vec::new(), children: None };
        proof {
            assert(t@ =~= TreeView::fresh(boundary, capacity as nat, depth_limit as nat));
        }
        t
    }

    /// A fresh index over `boundary`, holding up to `capacity` entries per
    /// node. The boundary must have non-negative extent and a representable
    /// far corner.
    pub fn new(boundary: Rect, capacity: usize) -> (t: QuadTree)
        requires
            boundary.w >= 0,
            boundary.h >= 0,
            boundary.x + boundary.w <= i32::MAX,
            boundary.y + boundary.h <= i32::MAX,
        ensures
            t@ == TreeView::fresh(boundary, capacity as nat, DEPTH_LIMIT as nat),
            t@.wf(),
    {
        Self::leaf(boundary, capacity, DEPTH_LIMIT)
    }

    /// The one-time split of a leaf into four fresh quadrant children.
    fn subdivide(&mut self)
        requires
            old(self).children is None,
            old(self).depth_limit > 0,
            old(self).boundary.w >= 0,
            old(self).boundary.h >= 0,
            old(self).boundary.x + old(self).boundary.w <= i32::MAX,
            old(self).boundary.y + old(self).boundary.h <= i32::MAX,
        ensures
            final(self)@ == old(self)@.subdivided(),
    {
        let x = self.boundary.x;
        let y = self.boundary.y;
        let half_w = self.boundary.w / 2;
        let half_h = self.boundary.h / 2;
        let capacity = self.capacity;
        let depth_limit = self.depth_limit - 1;

        let north_west = Self::leaf(Rect { x, y, w: half_w, h: half_h }, capacity, depth_limit);
        let north_east = Self::leaf(
            Rect { x: x + half_w, y, w: half_w, h: half_h },
            capacity,
            depth_limit,
        );
        let south_west = Self::leaf(
            Rect { x, y: y + half_h, w: half_w, h: half_h },
            capacity,
            depth_limit,
        );
        let south_east = Self::leaf(
            Rect { x: x + half_w, y: y + half_h, w: half_w, h: half_h },
            capacity,
            depth_limit,
        );
        self.children = Some(
            Box::new(Quadrants { north_west, north_east, south_west, south_east }),
        );
        proof {
            assert(self@ =~~= old(self)@.subdivided());
        }
    }

    /// Every boundary in the subtree, in pre-order: the node's own first,
    /// then those of the four quadrants in order. The read-only traversal a
    /// renderer draws the tree from.
    pub fn boundaries(&self) -> (r: Vec<Rect>)
        ensures
            r@ == self@.boundary_list(),
        decreases *self,
    {
        let mut out: Vec<Rect> = Vec::new();
        out.push(self.boundary);
        match &self.children {
            None => {},
            Some(q) => {
                let mut sub = q.north_west.boundaries();
                out.append(&mut sub);
                let mut sub = q.north_east.boundaries();
                out.append(&mut sub);
                let mut sub = q.south_west.boundaries();
                out.append(&mut sub);
                let mut sub = q.south_east.boundaries();
                out.append(&mut sub);
            },
        }
        proof {
            assert(out@ =~= self@.boundary_list());
        }
        out
    }

    /// Places `entry` in the subtree and reports whether it was accepted,
    /// exactly as `TreeView::spec_insert` states: an entry whose origin
    /// lies outside the boundary is rejected and nothing changes; a leaf
    /// with room stores the entry directly; a full leaf subdivides once
    /// (unless its subdivision allowance is spent, in which case the entry
    /// is rejected rather than recursing without bound) and the entry is
    /// then offered to the four quadrants in order, the first to accept it
    /// keeping it.
    pub fn insert(&mut self, entry: Rect) -> (accepted: bool)
        requires
            old(self)@.wf(),
        ensures
            final(self)@ == old(self)@.spec_insert(entry).0,
            accepted == old(self)@.spec_insert(entry).1,
            final(self)@.wf(),
            !old(self)@.boundary.spec_contains(entry) ==> !accepted && final(self)@ == old(self)@,
        decreases old(self).depth_limit,
    {
        proof {
            old(self)@.lemma_insert_at_wf(entry, old(self)@.depth_limit);
        }
        if !self.boundary.contains(&entry) {
            return false;
        }
        if self.children.is_none() {
            if self.points.len() < self.capacity {
                self.points.push(entry);
                proof {
                    assert(self@ =~~= old(self)@.spec_insert(entry).0);
                }
                return true;
            }
            if self.depth_limit == 0 {
                return false;
            }
            self.subdivide();
        }
        let ghost t_mid: TreeView = if old(self)@.quads is None {
            old(self)@.subdivided()
        } else {
            old(self)@
        };
        proof {
            if old(self)@.quads is None {
                old(self)@.lemma_subdivided_wf();
            }
            assert(self@ =~~= t_mid);
            assert(t_mid.wf());
        }
        let ghost q0: QuadsView = *t_mid.quads.unwrap();
        let ghost sub_fuel = (old(self)@.depth_limit - 1) as nat;
        let mut quads = self.children.take().unwrap();
        proof {
            assert(quads.north_west@ == q0.nw);
            assert(quads.north_east@ == q0.ne);
            assert(quads.south_west@ == q0.sw);
            assert(quads.south_east@ == q0.se);
            assert(t_mid.depth_limit == old(self).depth_limit as nat);
            assert(quads.north_west.depth_limit < old(self).depth_limit);
            assert(quads.north_east.depth_limit < old(self).depth_limit);
            assert(quads.south_west.depth_limit < old(self).depth_limit);
            assert(quads.south_east.depth_limit < old(self).depth_limit);
        }

        let accepted = quads.north_west.insert(entry);
        let ghost nw1 = q0.nw.spec_insert_at(entry, sub_fuel).0;
        if accepted {
            self.children = Some(quads);
            proof {
                assert(self@ =~~= t_mid.with_quads(QuadsView { nw: nw1, ..q0 }));
            }
            return true;
        }
        let accepted = quads.north_east.insert(entry);
        let ghost ne1 = q0.ne.spec_insert_at(entry, sub_fuel).0;
        if accepted {
            self.children = Some(quads);
            proof {
                assert(self@ =~~= t_mid.with_quads(QuadsView { nw: nw1, ne: ne1, ..q0 }));
            }
            return true;
        }
        let accepted = quads.south_west.insert(entry);
        let ghost sw1 = q0.sw.spec_insert_at(entry, sub_fuel).0;
        if accepted {
            self.children = Some(quads);
            proof {
                assert(self@ =~~= t_mid.with_quads(
                    QuadsView { nw: nw1, ne: ne1, sw: sw1, ..q0 },
                ));
            }
            return true;
        }
        let accepted = quads.south_east.insert(entry);
        let ghost se1 = q0.se.spec_insert_at(entry, sub_fuel).0;
        self.children = Some(quads);
        proof {
            assert(self@ =~~= t_mid.with_quads(
                QuadsView { nw: nw1, ne: ne1, sw: sw1, se: se1 },
            ));
        }
        accepted
    }

    /// Which stored entries fall inside `region`: `None` exactly when the
    /// node's boundary does not intersect the region (the whole subtree is
    /// pruned without being visited), and otherwise every stored entry
    /// whose origin the region contains, in the deterministic order of
    /// `TreeView::query_hits`. The same tree and region always give the
    /// same result.
    pub fn query(&self, region: Rect) -> (r: Option<Vec<Rect>>)
        ensures
            (match r {
                Some(v) => self@.spec_query(region) == Some(v@),
                None => self@.spec_query(region) is None,
            }),
        decreases *self,
    {
        if !self.boundary.intersects(&region) {
            return None;
        }
        let mut found: Vec<Rect> = Vec::new();
        let mut i: usize = 0;
        let n = self.points.len();
        while i < n
            invariant
                i <= n,
                n == self.points.len(),
                found@ == crate::model::hits_in(self.points@.take(i as int), region),
            decreases n - i,
        {
            proof {
                crate::model::lemma_hits_in_step(self.points@, region, i as int);
            }
            if region.contains(&self.points[i]) {
                found.push(self.points[i]);
            }
            i = i + 1;
        }
        proof {
            assert(self.points@.take(n as int) =~= self.points@);
        }
        match &self.children {
            None => {
                proof {
                    assert(found@ =~= self@.query_hits(region));
                }
                Some(found)
            },
            Some(q) => {
                let ghost own = crate::model::hits_in(self.points@, region);
                if let Some(mut sub) = q.north_west.query(region) {
                    found.append(&mut sub);
                }
                proof {
                    assert(found@ =~= own + q.north_west@.query_hits(region));
                }
                if let Some(mut sub) = q.north_east.query(region) {
                    found.append(&mut sub);
                }
                proof {
                    assert(found@ =~= own + q.north_west@.query_hits(region)
                        + q.north_east@.query_hits(region));
                }
                if let Some(mut sub) = q.south_west.query(region) {
                    found.append(&mut sub);
                }
                proof {
                    assert(found@ =~= own + q.north_west@.query_hits(region)
                        + q.north_east@.query_hits(region) + q.south_west@.query_hits(region));
                }
                if let Some(mut sub) = q.south_east.query(region) {
                    found.append(&mut sub);
                }
                proof {
                    assert(found@ =~= own + q.north_west@.query_hits(region)
                        + q.north_east@.query_hits(region) + q.south_west@.query_hits(region)
                        + q.south_east@.query_hits(region));
                    assert(found@ =~= self@.query_hits(region));
                }
                Some(found)
            },
        }
    }

    /// Every entry stored in the subtree, in the deterministic storage
    /// order of the model.
    pub fn stored_entries(&self) -> (r: Vec<Rect>)
        ensures
            r@ == self@.entries(),
        decreases *self,
    {
        let mut out: Vec<Rect> = Vec::new();
        let mut i: usize = 0;
        let n = self.points.len();
        while i < n
            invariant
                i <= n,
                n == self.points.len(),
                out@ == self.points@.take(i as int),
            decreases n - i,
        {
            out.push(self.points[i]);
            proof {
                assert(out@ =~= self.points@.take(i + 1 as int));
            }
            i = i + 1;
        }
        proof {
            assert(self.points@.take(n as int) =~= self.points@);
        }
        match &self.children {
            None => {},
            Some(q) => {
                let mut sub = q.north_west.stored_entries();
                out.append(&mut sub);
                let mut sub = q.north_east.stored_entries();
                out.append(&mut sub);
                let mut sub = q.south_west.stored_entries();
                out.append(&mut sub);
                let mut sub = q.south_east.stored_entries();
                out.append(&mut sub);
            },
        }
        proof {
            assert(out@ =~= self@.entries());
        }
        out
    }
}

} // verus!
