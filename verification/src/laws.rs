//! Global properties of the quadtree, each proved once and for all over
//! the tree model: capacity, partition, conservation, determinism,
//! duplicate handling and boundary routing.

use vstd::prelude::*;

use crate::dim2::Vec2;
use crate::quadtree::child_extent;
use crate::quadtree::insert_model;
use crate::quadtree::lemma_insert_entries;
use crate::quadtree::lemma_insert_wf;
use crate::quadtree::lemma_route_coverage;
use crate::quadtree::lemma_spec_mid;
use crate::quadtree::ne_extent;
use crate::quadtree::nw_extent;
use crate::quadtree::route;
use crate::quadtree::se_extent;
use crate::quadtree::spec_mid;
use crate::quadtree::sw_extent;
use crate::quadtree::Extent;
use crate::quadtree::NodeModel;

verus! {

/// Every leaf reachable anywhere in `m` holds at most `cap` entries.
pub open spec fn leaves_within_capacity<T>(m: NodeModel<T>, cap: nat) -> bool
    decreases m,
{
    match m {
        NodeModel::Leaf { entries, .. } => entries.len() <= cap,
        NodeModel::Internal { nw, ne, sw, se, .. } => {
            &&& leaves_within_capacity(*nw, cap)
            &&& leaves_within_capacity(*ne, cap)
            &&& leaves_within_capacity(*sw, cap)
            &&& leaves_within_capacity(*se, cap)
        },
    }
}

/// Capacity invariant: a well-formed tree keeps every reachable leaf
/// within capacity. Since construction yields a well-formed tree and a
/// returning insert preserves well-formedness, this holds at any time
/// after an insert returns.
pub proof fn lemma_capacity_invariant<T>(m: NodeModel<T>, cap: nat)
    requires
        m.wf(cap),
    ensures
        leaves_within_capacity(m, cap),
    decreases m,
{
    match m {
        NodeModel::Leaf { .. } => {},
        NodeModel::Internal { nw, ne, sw, se, .. } => {
            lemma_capacity_invariant(*nw, cap);
            lemma_capacity_invariant(*ne, cap);
            lemma_capacity_invariant(*sw, cap);
            lemma_capacity_invariant(*se, cap);
        },
    }
}

/// Partition invariant: the four quadrants of a valid extent cover it
/// exactly — a point lies in the extent if and only if it lies in some
/// quadrant — and two distinct quadrants overlap only on a splitting
/// line through the midpoint.
pub proof fn lemma_partition_invariant(e: Extent)
    requires
        e.wf(),
    ensures
        forall|p: Vec2|
            #[trigger] e.spec_contains(p) <==> (nw_extent(e).spec_contains(p) || ne_extent(
                e,
            ).spec_contains(p) || sw_extent(e).spec_contains(p) || se_extent(e).spec_contains(p)),
        forall|p: Vec2, j: int, k: int|
            0 <= j < k <= 3 && #[trigger] child_extent(e, j).spec_contains(p)
                && #[trigger] child_extent(e, k).spec_contains(p) ==> p.x == spec_mid(
                e.min.x,
                e.max.x,
            ) || p.y == spec_mid(e.min.y, e.max.y),
{
    lemma_spec_mid(e.min.x, e.max.x);
    lemma_spec_mid(e.min.y, e.max.y);
}

/// The partition invariant read off an internal node of a well-formed
/// tree: its children's extents cover its own extent exactly, and two
/// distinct children overlap only on a splitting line.
pub proof fn lemma_partition_invariant_node<T>(m: NodeModel<T>, cap: nat)
    requires
        m.wf(cap),
        m is Internal,
    ensures
        forall|p: Vec2|
            #[trigger] m.extent().spec_contains(p) <==> (m.child(0).extent().spec_contains(p)
                || m.child(1).extent().spec_contains(p) || m.child(2).extent().spec_contains(p)
                || m.child(3).extent().spec_contains(p)),
        forall|p: Vec2, j: int, k: int|
            0 <= j < k <= 3 && #[trigger] m.child(j).extent().spec_contains(p)
                && #[trigger] m.child(k).extent().spec_contains(p) ==> p.x == spec_mid(
                m.extent().min.x,
                m.extent().max.x,
            ) || p.y == spec_mid(m.extent().min.y, m.extent().max.y),
{
    lemma_partition_invariant(m.extent());
    assert(forall|k: int| 0 <= k <= 3 ==> #[trigger] m.child(k).extent() == child_extent(
        m.extent(),
        k,
    ));
}

/// Conservation: a successful insert leaves the multiset of reachable
/// (point, payload) entries equal to what was reachable before plus the
/// one new entry. In particular the split an insert may trigger never
/// loses or duplicates existing entries.
pub proof fn lemma_insert_conservation<T>(m: NodeModel<T>, p: Vec2, v: T, cap: nat, fuel: nat)
    requires
        m.wf(cap),
        m.extent().spec_contains(p),
        insert_model(m, p, v, cap, fuel) is Some,
    ensures
        insert_model(m, p, v, cap, fuel)->Some_0.entries().to_multiset() == m.entries(
        ).to_multiset().insert((p, v)),
{
    lemma_insert_entries(m, p, v, cap, fuel);
}

/// Inserting a sequence of entries in order, threading failures.
pub open spec fn insert_all<T>(
    m: NodeModel<T>,
    es: Seq<(Vec2, T)>,
    cap: nat,
    fuel: nat,
) -> Option<NodeModel<T>>
    decreases es.len(),
{
    if es.len() == 0 {
        Some(m)
    } else {
        match insert_model(m, es.first().0, es.first().1, cap, fuel) {
            Some(m2) => insert_all(m2, es.drop_first(), cap, fuel),
            None => None,
        }
    }
}

/// Determinism: the tree reached by a sequence of inserts is a function
/// of the starting tree and the sequence alone, so two indices that are
/// constructed with the same extent and capacity and receive the same
/// inserts are structurally identical.
pub proof fn lemma_insert_deterministic<T>(
    m1: NodeModel<T>,
    m2: NodeModel<T>,
    es: Seq<(Vec2, T)>,
    cap: nat,
    fuel: nat,
)
    requires
        m1 == m2,
    ensures
        insert_all(m1, es, cap, fuel) == insert_all(m2, es, cap, fuel),
{
}

/// Duplicates allowed: inserting an identical (point, payload) pair
/// twice yields two distinct entries — the reachable entry count grows
/// by exactly two, and the pair's multiplicity by exactly two.
pub proof fn lemma_duplicates_allowed<T>(m: NodeModel<T>, p: Vec2, v: T, cap: nat, fuel: nat)
    requires
        m.wf(cap),
        m.extent().spec_contains(p),
        insert_model(m, p, v, cap, fuel) is Some,
        insert_model(insert_model(m, p, v, cap, fuel)->Some_0, p, v, cap, fuel) is Some,
    ensures
        insert_model(insert_model(m, p, v, cap, fuel)->Some_0, p, v, cap, fuel)->Some_0.entries(
        ).len() == m.entries().len() + 2,
        insert_model(insert_model(m, p, v, cap, fuel)->Some_0, p, v, cap, fuel)->Some_0.entries(
        ).to_multiset().count((p, v)) == m.entries().to_multiset().count((p, v)) + 2,
{
    broadcast use vstd::seq_lib::group_to_multiset_ensures;

    let m1 = insert_model(m, p, v, cap, fuel)->Some_0;
    let m2 = insert_model(m1, p, v, cap, fuel)->Some_0;
    lemma_insert_conservation(m, p, v, cap, fuel);
    lemma_insert_wf(m, p, v, cap, fuel);
    lemma_insert_conservation(m1, p, v, cap, fuel);
    assert(m1.entries().to_multiset().len() == m.entries().to_multiset().len() + 1);
    assert(m2.entries().to_multiset().len() == m1.entries().to_multiset().len() + 1);
}

/// Boundary routing: which child receives a point is decided by the
/// spec function `route` of the parent extent and the point alone, so a
/// point lying exactly on a child-splitting line descends into the same
/// (first matching, in scan order) child on every insert; all other
/// children are untouched.
pub proof fn lemma_boundary_routing<T>(m: NodeModel<T>, p: Vec2, v: T, cap: nat, fuel: nat)
    requires
        m.wf(cap),
        m is Internal,
        m.extent().spec_contains(p),
        insert_model(m, p, v, cap, fuel) is Some,
    ensures
        0 <= route(m.extent(), p) <= 3,
        insert_model(m, p, v, cap, fuel)->Some_0 is Internal,
        forall|k: int|
            0 <= k <= 3 && k != route(m.extent(), p) ==> #[trigger] insert_model(
                m,
                p,
                v,
                cap,
                fuel,
            )->Some_0.child(k) == m.child(k),
        insert_model(m, p, v, cap, fuel)->Some_0.child(route(m.extent(), p)) == insert_model(
            m.child(route(m.extent(), p)),
            p,
            v,
            cap,
            fuel,
        )->Some_0,
{
    lemma_route_coverage(m.extent(), p);
}

} // verus!
