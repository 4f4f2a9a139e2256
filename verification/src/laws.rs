//! The laws of the index, each stated over the ghost model and proved once
//! for all trees: what a whole sequence of insertions does to a leaf, what
//! an accepted or rejected insertion does to the stored entries, and when a
//! query is guaranteed to report every entry.

use vstd::prelude::*;
use vstd::multiset::Multiset;
use crate::geometry::Rect;
use crate::model::{hits_in, TreeView};

verus! {

/// The tree after inserting every entry of `es` in order, oldest first.
pub open spec fn insert_all(t: TreeView, es: Seq<Rect>) -> TreeView
    decreases es.len(),
{
    if es.len() == 0 {
        t
    } else {
        insert_all(t.spec_insert(es[0]).0, es.drop_first())
    }
}

/// A leaf with room accepts an in-boundary entry by appending it, without
/// subdividing.
pub proof fn lemma_insert_leaf_with_room(t: TreeView, entry: Rect)
    requires
        t.quads is None,
        t.points.len() < t.capacity,
        t.boundary.spec_contains(entry),
    ensures
        t.spec_insert(entry) == (TreeView { points: t.points.push(entry), ..t }, true),
{
}

/// Capacity is respected before any split: as long as a leaf's capacity is
/// not exceeded, a sequence of in-boundary insertions is accepted and
/// stored directly at the leaf, in order, and no subdivision happens --
/// children stay absent.
pub proof fn lemma_capacity_respected(t: TreeView, es: Seq<Rect>)
    requires
        t.quads is None,
        t.points.len() + es.len() <= t.capacity,
        forall|i: int| 0 <= i < es.len() ==> t.boundary.spec_contains(#[trigger] es[i]),
    ensures
        accepts_all(t, es),
        insert_all(t, es).quads is None,
        insert_all(t, es).points == t.points + es,
        insert_all(t, es).boundary == t.boundary,
        insert_all(t, es).capacity == t.capacity,
        insert_all(t, es).depth_limit == t.depth_limit,
    decreases es.len(),
{
    if es.len() == 0 {
        assert(t.points + es =~= t.points);
    } else {
        lemma_insert_leaf_with_room(t, es[0]);
        let t1 = t.spec_insert(es[0]).0;
        assert(forall|i: int|
            0 <= i < es.drop_first().len() ==> t1.boundary.spec_contains(
                #[trigger] es.drop_first()[i],
            ));
        lemma_capacity_respected(t1, es.drop_first());
        assert(t.points.push(es[0]) + es.drop_first() =~= t.points + es);
    }
}

/// Inserting an element into the middle segment of a concatenation inserts
/// it into the whole, at the segment's offset.
proof fn lemma_insert_into_concat(
    pre: Seq<Rect>,
    seg: Seq<Rect>,
    seg2: Seq<Rect>,
    post: Seq<Rect>,
    entry: Rect,
    i: int,
)
    requires
        0 <= i <= seg.len(),
        seg2 == seg.insert(i, entry),
    ensures
        pre + seg2 + post == (pre + seg + post).insert(pre.len() + i, entry),
{
    assert(pre + seg2 + post =~= (pre + seg + post).insert(pre.len() + i, entry));
}

/// An accepted insertion adds exactly the inserted entry, at one position
/// of the stored order; a rejected insertion leaves the stored entries
/// untouched (though a failed descent may still have subdivided nodes).
#[verifier::rlimit(100)]
pub proof fn lemma_insert_entries(t: TreeView, entry: Rect, fuel: nat)
    ensures
        t.spec_insert_at(entry, fuel).1 ==> exists|i: int|
            0 <= i <= t.entries().len() && t.spec_insert_at(entry, fuel).0.entries()
                == t.entries().insert(i, entry),
        !t.spec_insert_at(entry, fuel).1 ==> t.spec_insert_at(entry, fuel).0.entries()
            == t.entries(),
    decreases fuel,
{
    if !t.boundary.spec_contains(entry) {
    } else if t.quads is None && t.points.len() < t.capacity {
        let t2 = TreeView { points: t.points.push(entry), ..t };
        let n = t.points.len() as int;
        assert(t2.entries() =~= t.entries().insert(n, entry));
        assert(0 <= n <= t.entries().len() && t.spec_insert_at(entry, fuel).0.entries()
            == t.entries().insert(n, entry));
    } else if fuel == 0 {
    } else {
        let mid = if t.quads is None {
            t.subdivided()
        } else {
            t
        };
        if t.quads is None {
            let qf = *mid.quads.unwrap();
            assert(qf.nw.entries() =~= Seq::<Rect>::empty());
            assert(qf.ne.entries() =~= Seq::<Rect>::empty());
            assert(qf.sw.entries() =~= Seq::<Rect>::empty());
            assert(qf.se.entries() =~= Seq::<Rect>::empty());
        }
        assert(mid.entries() =~= t.entries());
        let q = *mid.quads.unwrap();
        let sub_fuel = (fuel - 1) as nat;
        let out = t.spec_insert_at(entry, fuel).0;
        lemma_insert_entries(q.nw, entry, sub_fuel);
        let (nw1, r1) = q.nw.spec_insert_at(entry, sub_fuel);
        if r1 {
            let i = choose|i: int|
                0 <= i <= q.nw.entries().len() && nw1.entries() == q.nw.entries().insert(i, entry);
            lemma_insert_into_concat(
                mid.points,
                q.nw.entries(),
                nw1.entries(),
                q.ne.entries() + q.sw.entries() + q.se.entries(),
                entry,
                i,
            );
            let at = mid.points.len() + i;
            assert(out.entries() =~= mid.points + nw1.entries() + (q.ne.entries()
                + q.sw.entries() + q.se.entries()));
            assert(mid.entries() =~= mid.points + q.nw.entries() + (q.ne.entries()
                + q.sw.entries() + q.se.entries()));
            assert(0 <= at <= t.entries().len() && out.entries() == t.entries().insert(at, entry));
            return ;
        }
        lemma_insert_entries(q.ne, entry, sub_fuel);
        let (ne1, r2) = q.ne.spec_insert_at(entry, sub_fuel);
        if r2 {
            let i = choose|i: int|
                0 <= i <= q.ne.entries().len() && ne1.entries() == q.ne.entries().insert(i, entry);
            lemma_insert_into_concat(
                mid.points + q.nw.entries(),
                q.ne.entries(),
                ne1.entries(),
                q.sw.entries() + q.se.entries(),
                entry,
                i,
            );
            let at = mid.points.len() + q.nw.entries().len() + i;
            assert(out.entries() =~= (mid.points + q.nw.entries()) + ne1.entries()
                + (q.sw.entries() + q.se.entries()));
            assert(mid.entries() =~= (mid.points + q.nw.entries()) + q.ne.entries()
                + (q.sw.entries() + q.se.entries()));
            assert(0 <= at <= t.entries().len() && out.entries() == t.entries().insert(at, entry));
            return ;
        }
        lemma_insert_entries(q.sw, entry, sub_fuel);
        let (sw1, r3) = q.sw.spec_insert_at(entry, sub_fuel);
        if r3 {
            let i = choose|i: int|
                0 <= i <= q.sw.entries().len() && sw1.entries() == q.sw.entries().insert(i, entry);
            lemma_insert_into_concat(
                mid.points + q.nw.entries() + q.ne.entries(),
                q.sw.entries(),
                sw1.entries(),
                q.se.entries(),
                entry,
                i,
            );
            let at = mid.points.len() + q.nw.entries().len() + q.ne.entries().len() + i;
            assert(out.entries() =~= (mid.points + q.nw.entries() + q.ne.entries())
                + sw1.entries() + q.se.entries());
            assert(mid.entries() =~= (mid.points + q.nw.entries() + q.ne.entries())
                + q.sw.entries() + q.se.entries());
            assert(0 <= at <= t.entries().len() && out.entries() == t.entries().insert(at, entry));
            return ;
        }
        lemma_insert_entries(q.se, entry, sub_fuel);
        let (se1, r4) = q.se.spec_insert_at(entry, sub_fuel);
        if r4 {
            let i = choose|i: int|
                0 <= i <= q.se.entries().len() && se1.entries() == q.se.entries().insert(i, entry);
            lemma_insert_into_concat(
                mid.points + q.nw.entries() + q.ne.entries() + q.sw.entries(),
                q.se.entries(),
                se1.entries(),
                Seq::<Rect>::empty(),
                entry,
                i,
            );
            let at = mid.points.len() + q.nw.entries().len() + q.ne.entries().len()
                + q.sw.entries().len() + i;
            assert(out.entries() =~= (mid.points + q.nw.entries() + q.ne.entries()
                + q.sw.entries()) + se1.entries() + Seq::<Rect>::empty());
            assert(mid.entries() =~= (mid.points + q.nw.entries() + q.ne.entries()
                + q.sw.entries()) + q.se.entries() + Seq::<Rect>::empty());
            assert(0 <= at <= t.entries().len() && out.entries() == t.entries().insert(at, entry));
        } else {
            assert(out.entries() =~= mid.entries());
        }
    }
}

/// An entry whose origin lies outside the root boundary is rejected and the
/// stored entries -- in particular their count -- do not change at all.
pub proof fn lemma_insert_out_of_bounds(t: TreeView, entry: Rect)
    requires
        !t.boundary.spec_contains(entry),
    ensures
        !t.spec_insert(entry).1,
        t.spec_insert(entry).0 == t,
        t.spec_insert(entry).0.entries() == t.entries(),
{
}

/// All entries of `points` inside `region` is all of `points`.
proof fn lemma_hits_in_all(points: Seq<Rect>, region: Rect)
    requires
        forall|i: int| 0 <= i < points.len() ==> region.spec_contains(#[trigger] points[i]),
    ensures
        hits_in(points, region) == points,
    decreases points.len(),
{
    reveal(Seq::filter);
    if points.len() > 0 {
        assert(forall|i: int|
            0 <= i < points.drop_last().len() ==> region.spec_contains(
                #[trigger] points.drop_last()[i],
            ));
        lemma_hits_in_all(points.drop_last(), region);
        assert(hits_in(points, region) =~= points);
    } else {
        assert(hits_in(points, region) =~= points);
    }
}

/// A query whose region encloses a subtree's boundary reports every entry
/// of the subtree, in storage order -- provided no boundary in the subtree
/// has degenerate extent, since a zero-extent boundary intersects nothing
/// and its node would be pruned together with its entries.
#[verifier::rlimit(100)]
pub proof fn lemma_query_enclosing_complete(t: TreeView, region: Rect)
    requires
        t.wf(),
        t.all_positive(),
        region.spec_encloses(t.boundary),
    ensures
        t.boundary.spec_intersects(region),
        t.query_hits(region) == t.entries(),
    decreases t,
{
    let b = t.boundary;
    assert(b.spec_intersects(region));
    assert(forall|i: int| 0 <= i < t.points.len() ==> region.spec_contains(#[trigger] t.points[i]));
    lemma_hits_in_all(t.points, region);
    match t.quads {
        None => {
            assert(t.query_hits(region) =~= t.entries());
        },
        Some(q) => {
            assert(0 <= b.w / 2 <= b.w && b.w / 2 + b.w / 2 <= b.w);
            assert(0 <= b.h / 2 <= b.h && b.h / 2 + b.h / 2 <= b.h);
            assert(region.spec_encloses(q.nw.boundary));
            assert(region.spec_encloses(q.ne.boundary));
            assert(region.spec_encloses(q.sw.boundary));
            assert(region.spec_encloses(q.se.boundary));
            lemma_query_enclosing_complete(q.nw, region);
            lemma_query_enclosing_complete(q.ne, region);
            lemma_query_enclosing_complete(q.sw, region);
            lemma_query_enclosing_complete(q.se, region);
            assert(t.query_hits(region) =~= t.entries());
        },
    }
}

/// Insert/query consistency: querying with the root's own boundary returns
/// exactly the stored entries -- everything insertion accepted, nothing
/// else, in storage order -- on any well-formed tree all of whose node
/// boundaries have positive extent.
pub proof fn lemma_query_boundary_complete(t: TreeView)
    requires
        t.wf(),
        t.all_positive(),
    ensures
        t.spec_query(t.boundary) == Some(t.entries()),
{
    lemma_query_enclosing_complete(t, t.boundary);
}

/// Every entry of `es`, inserted in order into the trees the previous
/// insertions leave behind, is accepted.
pub open spec fn accepts_all(t: TreeView, es: Seq<Rect>) -> bool
    decreases es.len(),
{
    es.len() == 0 || (t.spec_insert(es[0]).1 && accepts_all(
        t.spec_insert(es[0]).0,
        es.drop_first(),
    ))
}

/// Insert/query consistency: after a sequence of insertions that were all
/// accepted, querying with the root's own boundary reports the entries that
/// were already stored plus exactly the inserted ones, disregarding order
/// -- provided no boundary of the resulting tree has degenerate extent.
pub proof fn lemma_insert_query_consistency(t: TreeView, es: Seq<Rect>)
    requires
        t.wf(),
        accepts_all(t, es),
        insert_all(t, es).all_positive(),
    ensures
        insert_all(t, es).wf(),
        insert_all(t, es).boundary == t.boundary,
        insert_all(t, es).spec_query(t.boundary) == Some(insert_all(t, es).entries()),
        insert_all(t, es).entries().to_multiset() == t.entries().to_multiset().add(
            es.to_multiset(),
        ),
    decreases es.len(),
{
    broadcast use vstd::seq_lib::group_to_multiset_ensures;
    broadcast use vstd::seq_lib::lemma_multiset_commutative;
    broadcast use vstd::multiset::group_multiset_axioms;

    if es.len() == 0 {
        lemma_query_boundary_complete(t);
        assert(es.to_multiset() =~= Multiset::<Rect>::empty());
        assert(t.entries().to_multiset().add(es.to_multiset()) =~= t.entries().to_multiset());
    } else {
        let e0 = es[0];
        let t1 = t.spec_insert(e0).0;
        t.lemma_insert_at_wf(e0, t.depth_limit);
        lemma_insert_entries(t, e0, t.depth_limit);
        let i = choose|i: int|
            0 <= i <= t.entries().len() && t1.entries() == t.entries().insert(i, e0);
        lemma_insert_query_consistency(t1, es.drop_first());
        assert(t1.entries().to_multiset() == t.entries().to_multiset().insert(e0));
        assert(es =~= seq![e0] + es.drop_first());
        assert(seq![e0].to_multiset() == Seq::<Rect>::empty().to_multiset().insert(e0)) by {
            assert(Seq::<Rect>::empty().push(e0) =~= seq![e0]);
        }
        assert(Seq::<Rect>::empty().to_multiset() =~= Multiset::<Rect>::empty());
        assert(insert_all(t, es).entries().to_multiset() =~= t.entries().to_multiset().add(
            es.to_multiset(),
        ));
    }
}

/// Query is deterministic: on an unchanged tree, two queries with the same
/// region return the same result. The executable `query` ensures its result
/// equals `spec_query`, a function of the tree and region alone, so any two
/// calls agree.
pub proof fn lemma_query_idempotent(
    t: TreeView,
    region: Rect,
    r1: Option<Seq<Rect>>,
    r2: Option<Seq<Rect>>,
)
    requires
        r1 == t.spec_query(region),
        r2 == t.spec_query(region),
    ensures
        r1 == r2,
{
}

} // verus!
