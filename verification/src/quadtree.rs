//! A quadtree spatial index over integer coordinates.
//!
//! The tree stores (point, payload) entries in leaves of bounded size.
//! Inserting into a full leaf splits it into four quadrant children and
//! redistributes its entries. Every public operation carries a contract
//! phrased over a mathematical model of the tree ([`NodeModel`]).

use vstd::multiset::Multiset;
use vstd::prelude::*;

use crate::dim2::Vec2;

verus! {

/// Errors surfaced by index construction and insertion.
#[derive(Clone, Copy, Debug, PartialEq, Eq, Structural)]
pub enum QuadtreeError {
    /// The extent's minimum corner exceeds its maximum corner on some axis.
    InvalidExtent,
    /// The inserted point lies outside the root extent.
    OutOfBounds,
    /// The entries cluster so tightly that no amount of subdivision down
    /// to the depth limit can bring every leaf back under capacity.
    Saturated,
}

/// An axis-aligned bounding box with inclusive bounds on both corners.
#[derive(Clone, Copy, Debug, PartialEq, Eq, Structural)]
pub struct Extent {
    pub min: Vec2,
    pub max: Vec2,
}

impl Extent {
    /// A valid extent never has its minimum corner beyond its maximum.
    pub open spec fn wf(self) -> bool {
        self.min.x <= self.max.x && self.min.y <= self.max.y
    }

    /// Containment is inclusive on all four bounds.
    pub open spec fn spec_contains(self, p: Vec2) -> bool {
        self.min.x <= p.x <= self.max.x && self.min.y <= p.y <= self.max.y
    }

    pub fn contains(&self, pos: Vec2) -> (r: bool)
        ensures
            r == self.spec_contains(pos),
    {
        self.min.x <= pos.x && pos.x <= self.max.x && self.min.y <= pos.y && pos.y <= self.max.y
    }
}

/// The midpoint of an axis range, rounding toward negative infinity.
pub open spec fn mid_val(lo: int, hi: int) -> int {
    (lo + hi) / 2
}

/// The midpoint as a machine integer; meaningful when `lo <= hi`.
pub open spec fn spec_mid(lo: i64, hi: i64) -> i64 {
    mid_val(lo as int, hi as int) as i64
}

proof fn lemma_mid_bounds(lo: int, hi: int)
    requires
        lo <= hi,
    ensures
        lo <= mid_val(lo, hi) <= hi,
{
    vstd::arithmetic::div_mod::lemma_div_multiples_vanish(lo, 2);
    vstd::arithmetic::div_mod::lemma_div_multiples_vanish(hi, 2);
    vstd::arithmetic::div_mod::lemma_div_is_ordered(2 * lo, lo + hi, 2);
    vstd::arithmetic::div_mod::lemma_div_is_ordered(lo + hi, 2 * hi, 2);
}

pub(crate) proof fn lemma_spec_mid(lo: i64, hi: i64)
    requires
        lo <= hi,
    ensures
        lo <= spec_mid(lo, hi) <= hi,
        spec_mid(lo, hi) as int == mid_val(lo as int, hi as int),
{
    lemma_mid_bounds(lo as int, hi as int);
}

/// Computes the midpoint of `[lo, hi]` without overflow.
fn mid_coord(lo: i64, hi: i64) -> (m: i64)
    requires
        lo <= hi,
    ensures
        m == spec_mid(lo, hi),
        lo <= m <= hi,
{
    proof {
        lemma_spec_mid(lo, hi);
    }
    let d: u64 = ((hi as i128) - (lo as i128)) as u64;
    let half: u64 = d / 2;
    let m: i64 = ((lo as i128) + (half as i128)) as i64;
    proof {
        let l = lo as int;
        let h = hi as int;
        vstd::arithmetic::div_mod::lemma_fundamental_div_mod(h - l, 2);
        vstd::arithmetic::div_mod::lemma_fundamental_div_mod_converse(
            l + h,
            2,
            l + (h - l) / 2,
            (h - l) % 2,
        );
    }
    m
}

/// The north-west quadrant: low x, high y.
pub open spec fn nw_extent(e: Extent) -> Extent {
    Extent {
        min: Vec2 { x: e.min.x, y: spec_mid(e.min.y, e.max.y) },
        max: Vec2 { x: spec_mid(e.min.x, e.max.x), y: e.max.y },
    }
}

/// The north-east quadrant: high x, high y.
pub open spec fn ne_extent(e: Extent) -> Extent {
    Extent {
        min: Vec2 { x: spec_mid(e.min.x, e.max.x), y: spec_mid(e.min.y, e.max.y) },
        max: e.max,
    }
}

/// The south-west quadrant: low x, low y.
pub open spec fn sw_extent(e: Extent) -> Extent {
    Extent {
        min: e.min,
        max: Vec2 { x: spec_mid(e.min.x, e.max.x), y: spec_mid(e.min.y, e.max.y) },
    }
}

/// The south-east quadrant: high x, low y.
pub open spec fn se_extent(e: Extent) -> Extent {
    Extent {
        min: Vec2 { x: spec_mid(e.min.x, e.max.x), y: e.min.y },
        max: Vec2 { x: e.max.x, y: spec_mid(e.min.y, e.max.y) },
    }
}

/// The quadrant extents in the fixed scan order used by insertion.
pub open spec fn child_extent(e: Extent, k: int) -> Extent {
    if k == 0 {
        nw_extent(e)
    } else if k == 1 {
        ne_extent(e)
    } else if k == 2 {
        sw_extent(e)
    } else {
        se_extent(e)
    }
}

/// The index of the first quadrant (in scan order) containing `p`,
/// or -1 when no quadrant contains it.
pub open spec fn route(e: Extent, p: Vec2) -> int {
    if nw_extent(e).spec_contains(p) {
        0
    } else if ne_extent(e).spec_contains(p) {
        1
    } else if sw_extent(e).spec_contains(p) {
        2
    } else if se_extent(e).spec_contains(p) {
        3
    } else {
        -1
    }
}

/// Every quadrant of a valid extent is itself valid.
pub(crate) proof fn lemma_quadrants_wf(e: Extent)
    requires
        e.wf(),
    ensures
        nw_extent(e).wf(),
        ne_extent(e).wf(),
        sw_extent(e).wf(),
        se_extent(e).wf(),
{
    lemma_spec_mid(e.min.x, e.max.x);
    lemma_spec_mid(e.min.y, e.max.y);
}

/// Every point of a valid extent lies in at least one quadrant, so the
/// first-match scan always finds a child for it.
pub(crate) proof fn lemma_route_coverage(e: Extent, p: Vec2)
    requires
        e.wf(),
        e.spec_contains(p),
    ensures
        0 <= route(e, p) <= 3,
        child_extent(e, route(e, p)).spec_contains(p),
{
    lemma_spec_mid(e.min.x, e.max.x);
    lemma_spec_mid(e.min.y, e.max.y);
}

/// One node of the quadtree: either a leaf holding entries directly, or
/// an internal node holding the four quadrant children.
#[derive(Debug, PartialEq, Eq)]
pub enum QuadtreeNode<T> {
    Leaf { extent: Extent, data: Vec<(Vec2, T)> },
    Internal { extent: Extent, children: Box<Quadrants<T>> },
}

/// The four children of an internal node, in scan order.
#[derive(Debug, PartialEq, Eq)]
pub struct Quadrants<T> {
    pub nw: QuadtreeNode<T>,
    pub ne: QuadtreeNode<T>,
    pub sw: QuadtreeNode<T>,
    pub se: QuadtreeNode<T>,
}

/// The mathematical model of a tree: the same shape with leaf vectors
/// abstracted to sequences.
#[verifier::ext_equal]
pub enum NodeModel<T> {
    Leaf { extent: Extent, entries: Seq<(Vec2, T)> },
    Internal {
        extent: Extent,
        nw: Box<NodeModel<T>>,
        ne: Box<NodeModel<T>>,
        sw: Box<NodeModel<T>>,
        se: Box<NodeModel<T>>,
    },
}

impl<T> QuadtreeNode<T> {
    /// The model abstracts each leaf's vector to its sequence view.
    pub open spec fn model(self) -> NodeModel<T>
        decreases self,
    {
        match self {
            QuadtreeNode::Leaf { extent, data } => NodeModel::Leaf { extent, entries: data@ },
            QuadtreeNode::Internal { extent, children } => NodeModel::Internal {
                extent,
                nw: Box::new(children.nw.model()),
                ne: Box::new(children.ne.model()),
                sw: Box::new(children.sw.model()),
                se: Box::new(children.se.model()),
            },
        }
    }
}

impl<T> View for QuadtreeNode<T> {
    type V = NodeModel<T>;

    open spec fn view(&self) -> NodeModel<T> {
        self.model()
    }
}

impl<T> NodeModel<T> {
    /// The extent this node covers.
    pub open spec fn extent(self) -> Extent {
        match self {
            NodeModel::Leaf { extent, .. } => extent,
            NodeModel::Internal { extent, .. } => extent,
        }
    }

    /// Well-formedness: extents are valid, every leaf is within capacity,
    /// every stored point lies in its leaf's extent, and the children of
    /// every internal node cover exactly the four quadrants of its extent.
    pub open spec fn wf(self, cap: nat) -> bool
        decreases self,
    {
        match self {
            NodeModel::Leaf { extent, entries } => {
                &&& extent.wf()
                &&& entries.len() <= cap
                &&& forall|i: int|
                    0 <= i < entries.len() ==> extent.spec_contains((#[trigger] entries[i]).0)
            },
            NodeModel::Internal { extent, nw, ne, sw, se } => {
                &&& extent.wf()
                &&& nw.extent() == nw_extent(extent)
                &&& ne.extent() == ne_extent(extent)
                &&& sw.extent() == sw_extent(extent)
                &&& se.extent() == se_extent(extent)
                &&& nw.wf(cap)
                &&& ne.wf(cap)
                &&& sw.wf(cap)
                &&& se.wf(cap)
            },
        }
    }

    /// The `k`-th child of an internal node, in scan order; a leaf is
    /// its own child.
    pub open spec fn child(self, k: int) -> NodeModel<T> {
        match self {
            NodeModel::Leaf { .. } => self,
            NodeModel::Internal { nw, ne, sw, se, .. } => {
                if k == 0 {
                    *nw
                } else if k == 1 {
                    *ne
                } else if k == 2 {
                    *sw
                } else {
                    *se
                }
            },
        }
    }

    /// All entries reachable by full traversal, children in scan order.
    pub open spec fn entries(self) -> Seq<(Vec2, T)>
        decreases self,
    {
        match self {
            NodeModel::Leaf { entries, .. } => entries,
            NodeModel::Internal { nw, ne, sw, se, .. } => nw.entries() + ne.entries()
                + sw.entries() + se.entries(),
        }
    }
}

/// The subsequence of entries routed to quadrant `k`, in original order.
pub open spec fn part_entries<T>(es: Seq<(Vec2, T)>, e: Extent, k: int) -> Seq<(Vec2, T)>
    decreases es.len(),
{
    if es.len() == 0 {
        Seq::empty()
    } else {
        let rest = part_entries(es.drop_last(), e, k);
        if route(e, es.last().0) == k {
            rest.push(es.last())
        } else {
            rest
        }
    }
}

/// The subsequence of points routed to quadrant `k`, in original order.
pub open spec fn part_points(ps: Seq<Vec2>, e: Extent, k: int) -> Seq<Vec2>
    decreases ps.len(),
{
    if ps.len() == 0 {
        Seq::empty()
    } else {
        let rest = part_points(ps.drop_last(), e, k);
        if route(e, ps.last()) == k {
            rest.push(ps.last())
        } else {
            rest
        }
    }
}

/// The points of a sequence of entries, in order.
pub open spec fn points_of<T>(es: Seq<(Vec2, T)>) -> Seq<Vec2> {
    es.map_values(|en: (Vec2, T)| en.0)
}

/// Whether recursively subdividing a region at most `fuel` more times can
/// bring every leaf under capacity for this multiset of points.
pub open spec fn fits(ps: Seq<Vec2>, e: Extent, cap: nat, fuel: nat) -> bool
    decreases fuel,
{
    if ps.len() <= cap {
        true
    } else if fuel == 0 {
        false
    } else {
        &&& fits(part_points(ps, e, 0), nw_extent(e), cap, (fuel - 1) as nat)
        &&& fits(part_points(ps, e, 1), ne_extent(e), cap, (fuel - 1) as nat)
        &&& fits(part_points(ps, e, 2), sw_extent(e), cap, (fuel - 1) as nat)
        &&& fits(part_points(ps, e, 3), se_extent(e), cap, (fuel - 1) as nat)
    }
}

/// The tree obtained by repeatedly splitting a region until every group
/// of entries is under capacity (or the depth limit is reached).
pub open spec fn build<T>(es: Seq<(Vec2, T)>, e: Extent, cap: nat, fuel: nat) -> NodeModel<T>
    decreases fuel,
{
    if es.len() <= cap || fuel == 0 {
        NodeModel::Leaf { extent: e, entries: es }
    } else {
        NodeModel::Internal {
            extent: e,
            nw: Box::new(build(part_entries(es, e, 0), nw_extent(e), cap, (fuel - 1) as nat)),
            ne: Box::new(build(part_entries(es, e, 1), ne_extent(e), cap, (fuel - 1) as nat)),
            sw: Box::new(build(part_entries(es, e, 2), sw_extent(e), cap, (fuel - 1) as nat)),
            se: Box::new(build(part_entries(es, e, 3), se_extent(e), cap, (fuel - 1) as nat)),
        }
    }
}

/// The functional specification of insertion. `None` means the insert is
/// refused because subdivision cannot restore the capacity invariant.
pub open spec fn insert_model<T>(m: NodeModel<T>, p: Vec2, v: T, cap: nat, fuel: nat) -> Option<
    NodeModel<T>,
>
    decreases m,
{
    match m {
        NodeModel::Leaf { extent, entries } => {
            let es2 = entries.push((p, v));
            if fits(points_of(es2), extent, cap, fuel) {
                Some(build(es2, extent, cap, fuel))
            } else {
                None
            }
        },
        NodeModel::Internal { extent, nw, ne, sw, se } => {
            let k = route(extent, p);
            if k == 0 {
                match insert_model(*nw, p, v, cap, fuel) {
                    Some(c) => Some(
                        NodeModel::Internal { extent, nw: Box::new(c), ne, sw, se },
                    ),
                    None => None,
                }
            } else if k == 1 {
                match insert_model(*ne, p, v, cap, fuel) {
                    Some(c) => Some(
                        NodeModel::Internal { extent, nw, ne: Box::new(c), sw, se },
                    ),
                    None => None,
                }
            } else if k == 2 {
                match insert_model(*sw, p, v, cap, fuel) {
                    Some(c) => Some(
                        NodeModel::Internal { extent, nw, ne, sw: Box::new(c), se },
                    ),
                    None => None,
                }
            } else if k == 3 {
                match insert_model(*se, p, v, cap, fuel) {
                    Some(c) => Some(
                        NodeModel::Internal { extent, nw, ne, sw, se: Box::new(c) },
                    ),
                    None => None,
                }
            } else {
                None
            }
        },
    }
}

/// Partitioning the points of a sequence of entries gives the points of
/// the partitioned entries.
proof fn lemma_points_part_commute<T>(es: Seq<(Vec2, T)>, e: Extent, k: int)
    ensures
        points_of(part_entries(es, e, k)) == part_points(points_of(es), e, k),
    decreases es.len(),
{
    if es.len() == 0 {
        assert(points_of(part_entries(es, e, k)) =~= part_points(points_of(es), e, k));
    } else {
        lemma_points_part_commute(es.drop_last(), e, k);
        assert(points_of(es).drop_last() =~= points_of(es.drop_last()));
        assert(points_of(es).last() == es.last().0);
        if route(e, es.last().0) == k {
            assert(points_of(part_entries(es.drop_last(), e, k).push(es.last())) =~= points_of(
                part_entries(es.drop_last(), e, k),
            ).push(es.last().0));
        }
    }
}

/// A sequence whose every element is routed somewhere splits, as a
/// multiset, into the four routed groups.
proof fn lemma_partition_multiset<T>(es: Seq<(Vec2, T)>, e: Extent)
    requires
        forall|i: int| 0 <= i < es.len() ==> 0 <= route(e, (#[trigger] es[i]).0) <= 3,
    ensures
        es.to_multiset() =~= part_entries(es, e, 0).to_multiset().add(
            part_entries(es, e, 1).to_multiset(),
        ).add(part_entries(es, e, 2).to_multiset()).add(part_entries(es, e, 3).to_multiset()),
    decreases es.len(),
{
    broadcast use vstd::seq_lib::group_to_multiset_ensures;

    if es.len() == 0 {
        assert(part_entries(es, e, 0).to_multiset() =~= Multiset::empty());
        assert(es.to_multiset() =~= Multiset::empty());
    } else {
        let dl = es.drop_last();
        let last = es.last();
        lemma_partition_multiset(dl, e);
        assert(dl.push(last) =~= es);
        assert(es.to_multiset() == dl.to_multiset().insert(last));
        let k = route(e, last.0);
        assert(0 <= k <= 3);
        assert(part_entries(es, e, k).to_multiset() == part_entries(dl, e, k).to_multiset().insert(
            last,
        ));
        assert forall|j: int| 0 <= j <= 3 && j != k implies part_entries(es, e, j)
            == part_entries(dl, e, j) by {}
        assert(es.to_multiset() =~= part_entries(es, e, 0).to_multiset().add(
            part_entries(es, e, 1).to_multiset(),
        ).add(part_entries(es, e, 2).to_multiset()).add(part_entries(es, e, 3).to_multiset()));
    }
}

/// Entries routed to quadrant `k` are contained in that quadrant, and the
/// groups cover everything when the parent extent contains every entry.
proof fn lemma_part_entries_contained<T>(es: Seq<(Vec2, T)>, e: Extent, k: int)
    requires
        0 <= k <= 3,
    ensures
        forall|i: int|
            0 <= i < part_entries(es, e, k).len() ==> child_extent(e, k).spec_contains(
                (#[trigger] part_entries(es, e, k)[i]).0,
            ),
    decreases es.len(),
{
    if es.len() > 0 {
        lemma_part_entries_contained(es.drop_last(), e, k);
        let g = part_entries(es, e, k);
        let gd = part_entries(es.drop_last(), e, k);
        if route(e, es.last().0) == k {
            assert(child_extent(e, k).spec_contains(es.last().0));
            assert forall|i: int| 0 <= i < g.len() implies child_extent(e, k).spec_contains(
                (#[trigger] g[i]).0,
            ) by {
                if i < gd.len() {
                    assert(g[i] == gd[i]);
                } else {
                    assert(g[i] == es.last());
                }
            }
        }
    }
}

/// Points routed to quadrant `k` are contained in that quadrant.
proof fn lemma_part_points_contained(ps: Seq<Vec2>, e: Extent, k: int)
    requires
        0 <= k <= 3,
    ensures
        forall|i: int|
            0 <= i < part_points(ps, e, k).len() ==> child_extent(e, k).spec_contains(
                #[trigger] part_points(ps, e, k)[i],
            ),
    decreases ps.len(),
{
    if ps.len() > 0 {
        lemma_part_points_contained(ps.drop_last(), e, k);
        let g = part_points(ps, e, k);
        let gd = part_points(ps.drop_last(), e, k);
        if route(e, ps.last()) == k {
            assert(child_extent(e, k).spec_contains(ps.last()));
            assert forall|i: int| 0 <= i < g.len() implies child_extent(e, k).spec_contains(
                #[trigger] g[i],
            ) by {
                if i < gd.len() {
                    assert(g[i] == gd[i]);
                } else {
                    assert(g[i] == ps.last());
                }
            }
        }
    }
}

/// Rebuilding a region from a sequence of contained entries preserves the
/// multiset of entries: splitting never loses or duplicates anything.
proof fn lemma_build_entries<T>(es: Seq<(Vec2, T)>, e: Extent, cap: nat, fuel: nat)
    requires
        e.wf(),
        forall|i: int| 0 <= i < es.len() ==> e.spec_contains((#[trigger] es[i]).0),
    ensures
        build(es, e, cap, fuel).entries().to_multiset() =~= es.to_multiset(),
    decreases fuel,
{
    broadcast use vstd::seq_lib::lemma_multiset_commutative;

    if es.len() <= cap || fuel == 0 {
    } else {
        assert forall|i: int| 0 <= i < es.len() implies 0 <= route(e, (#[trigger] es[i]).0)
            <= 3 by {
            lemma_route_coverage(e, es[i].0);
        }
        lemma_partition_multiset(es, e);
        lemma_quadrants_wf(e);
        let g0 = part_entries(es, e, 0);
        let g1 = part_entries(es, e, 1);
        let g2 = part_entries(es, e, 2);
        let g3 = part_entries(es, e, 3);
        lemma_part_entries_contained(es, e, 0);
        lemma_part_entries_contained(es, e, 1);
        lemma_part_entries_contained(es, e, 2);
        lemma_part_entries_contained(es, e, 3);
        lemma_build_entries(g0, nw_extent(e), cap, (fuel - 1) as nat);
        lemma_build_entries(g1, ne_extent(e), cap, (fuel - 1) as nat);
        lemma_build_entries(g2, sw_extent(e), cap, (fuel - 1) as nat);
        lemma_build_entries(g3, se_extent(e), cap, (fuel - 1) as nat);
        let b = build(es, e, cap, fuel);
        let c0 = build(g0, nw_extent(e), cap, (fuel - 1) as nat).entries();
        let c1 = build(g1, ne_extent(e), cap, (fuel - 1) as nat).entries();
        let c2 = build(g2, sw_extent(e), cap, (fuel - 1) as nat).entries();
        let c3 = build(g3, se_extent(e), cap, (fuel - 1) as nat).entries();
        assert(b.entries() == c0 + c1 + c2 + c3);
        assert((c0 + c1 + c2 + c3).to_multiset() =~= c0.to_multiset().add(c1.to_multiset()).add(
            c2.to_multiset(),
        ).add(c3.to_multiset())) by {
            assert(((c0 + c1) + c2) + c3 == c0 + c1 + c2 + c3);
            assert((c0 + c1).to_multiset() == c0.to_multiset().add(c1.to_multiset()));
            assert(((c0 + c1) + c2).to_multiset() == (c0 + c1).to_multiset().add(c2.to_multiset()));
        }
    }
}

/// Rebuilding a region from contained entries that fit yields a
/// well-formed tree covering the same extent.
proof fn lemma_build_wf<T>(es: Seq<(Vec2, T)>, e: Extent, cap: nat, fuel: nat)
    requires
        e.wf(),
        forall|i: int| 0 <= i < es.len() ==> e.spec_contains((#[trigger] es[i]).0),
        fits(points_of(es), e, cap, fuel),
    ensures
        build(es, e, cap, fuel).wf(cap),
        build(es, e, cap, fuel).extent() == e,
    decreases fuel,
{
    assert(points_of(es).len() == es.len());
    if es.len() <= cap {
        assert(build(es, e, cap, fuel) == NodeModel::Leaf { extent: e, entries: es });
    } else {
        assert(fuel > 0);
        lemma_quadrants_wf(e);
        lemma_points_part_commute(es, e, 0);
        lemma_points_part_commute(es, e, 1);
        lemma_points_part_commute(es, e, 2);
        lemma_points_part_commute(es, e, 3);
        lemma_part_entries_contained(es, e, 0);
        lemma_part_entries_contained(es, e, 1);
        lemma_part_entries_contained(es, e, 2);
        lemma_part_entries_contained(es, e, 3);
        lemma_build_wf(part_entries(es, e, 0), nw_extent(e), cap, (fuel - 1) as nat);
        lemma_build_wf(part_entries(es, e, 1), ne_extent(e), cap, (fuel - 1) as nat);
        lemma_build_wf(part_entries(es, e, 2), sw_extent(e), cap, (fuel - 1) as nat);
        lemma_build_wf(part_entries(es, e, 3), se_extent(e), cap, (fuel - 1) as nat);
    }
}

/// A successful insert preserves well-formedness and the covered extent.
pub(crate) proof fn lemma_insert_wf<T>(m: NodeModel<T>, p: Vec2, v: T, cap: nat, fuel: nat)
    requires
        m.wf(cap),
        m.extent().spec_contains(p),
        insert_model(m, p, v, cap, fuel) is Some,
    ensures
        insert_model(m, p, v, cap, fuel)->Some_0.wf(cap),
        insert_model(m, p, v, cap, fuel)->Some_0.extent() == m.extent(),
    decreases m,
{
    match m {
        NodeModel::Leaf { extent, entries } => {
            let es2 = entries.push((p, v));
            assert(forall|i: int|
                0 <= i < es2.len() ==> extent.spec_contains((#[trigger] es2[i]).0));
            lemma_build_wf(es2, extent, cap, fuel);
        },
        NodeModel::Internal { extent, nw, ne, sw, se } => {
            let k = route(extent, p);
            lemma_route_coverage(extent, p);
            if k == 0 {
                lemma_insert_wf(*nw, p, v, cap, fuel);
            } else if k == 1 {
                lemma_insert_wf(*ne, p, v, cap, fuel);
            } else if k == 2 {
                lemma_insert_wf(*sw, p, v, cap, fuel);
            } else {
                lemma_insert_wf(*se, p, v, cap, fuel);
            }
        },
    }
}

/// A successful insert adds exactly the new entry to the multiset of
/// reachable entries; everything already stored is conserved.
pub(crate) proof fn lemma_insert_entries<T>(m: NodeModel<T>, p: Vec2, v: T, cap: nat, fuel: nat)
    requires
        m.wf(cap),
        m.extent().spec_contains(p),
        insert_model(m, p, v, cap, fuel) is Some,
    ensures
        insert_model(m, p, v, cap, fuel)->Some_0.entries().to_multiset() =~= m.entries(
        ).to_multiset().insert((p, v)),
    decreases m,
{
    broadcast use vstd::seq_lib::lemma_multiset_commutative, vstd::seq_lib::to_multiset_build;

    match m {
        NodeModel::Leaf { extent, entries } => {
            let es2 = entries.push((p, v));
            assert(forall|i: int|
                0 <= i < es2.len() ==> extent.spec_contains((#[trigger] es2[i]).0));
            lemma_build_entries(es2, extent, cap, fuel);
        },
        NodeModel::Internal { extent, nw, ne, sw, se } => {
            let k = route(extent, p);
            lemma_route_coverage(extent, p);
            let a = nw.entries();
            let b = ne.entries();
            let c = sw.entries();
            let d = se.entries();
            assert(((a + b) + c) + d == a + b + c + d);
            let m2 = insert_model(m, p, v, cap, fuel)->Some_0;
            if k == 0 {
                lemma_insert_entries(*nw, p, v, cap, fuel);
                let a2 = insert_model(*nw, p, v, cap, fuel)->Some_0.entries();
                assert(((a2 + b) + c) + d == a2 + b + c + d);
                assert(m2.entries() == a2 + b + c + d);
            } else if k == 1 {
                lemma_insert_entries(*ne, p, v, cap, fuel);
                let b2 = insert_model(*ne, p, v, cap, fuel)->Some_0.entries();
                assert(((a + b2) + c) + d == a + b2 + c + d);
                assert(m2.entries() == a + b2 + c + d);
            } else if k == 2 {
                lemma_insert_entries(*sw, p, v, cap, fuel);
                let c2 = insert_model(*sw, p, v, cap, fuel)->Some_0.entries();
                assert(((a + b) + c2) + d == a + b + c2 + d);
                assert(m2.entries() == a + b + c2 + d);
            } else {
                lemma_insert_entries(*se, p, v, cap, fuel);
                let d2 = insert_model(*se, p, v, cap, fuel)->Some_0.entries();
                assert(((a + b) + c) + d2 == a + b + c + d2);
                assert(m2.entries() == a + b + c + d2);
            }
        },
    }
}

/// How many levels of subdivision an insert may create. Each level at
/// least halves the side lengths of a quadrant, so any group of points
/// that can be separated at all separates within the bit width of a
/// coordinate per axis; beyond that only inseparable clusters remain.
pub const SPLIT_FUEL: u32 = 130;

/// Decides `fits`: whether these points can be spread over leaves of at
/// most `cap` entries by at most `fuel` levels of subdivision.
fn fits_check(pts: &Vec<Vec2>, e: Extent, cap: usize, fuel: u32) -> (b: bool)
    requires
        e.wf(),
        forall|i: int| 0 <= i < pts@.len() ==> e.spec_contains(#[trigger] pts@[i]),
    ensures
        b == fits(pts@, e, cap as nat, fuel as nat),
    decreases fuel,
{
    if pts.len() <= cap {
        return true;
    }
    if fuel == 0 {
        return false;
    }
    let mx = mid_coord(e.min.x, e.max.x);
    let my = mid_coord(e.min.y, e.max.y);
    let e0 = Extent { min: Vec2 { x: e.min.x, y: my }, max: Vec2 { x: mx, y: e.max.y } };
    let e1 = Extent { min: Vec2 { x: mx, y: my }, max: e.max };
    let e2 = Extent { min: e.min, max: Vec2 { x: mx, y: my } };
    let e3 = Extent { min: Vec2 { x: mx, y: e.min.y }, max: Vec2 { x: e.max.x, y: my } };
    assert(e0 == nw_extent(e) && e1 == ne_extent(e) && e2 == sw_extent(e) && e3 == se_extent(e));
    let mut g0: Vec<Vec2> = Vec::new();
    let mut g1: Vec<Vec2> = Vec::new();
    let mut g2: Vec<Vec2> = Vec::new();
    let mut g3: Vec<Vec2> = Vec::new();
    let mut i: usize = 0;
    while i < pts.len()
        invariant
            0 <= i <= pts@.len(),
            e.wf(),
            forall|j: int| 0 <= j < pts@.len() ==> e.spec_contains(#[trigger] pts@[j]),
            e0 == nw_extent(e) && e1 == ne_extent(e) && e2 == sw_extent(e) && e3 == se_extent(e),
            g0@ == part_points(pts@.take(i as int), e, 0),
            g1@ == part_points(pts@.take(i as int), e, 1),
            g2@ == part_points(pts@.take(i as int), e, 2),
            g3@ == part_points(pts@.take(i as int), e, 3),
        decreases pts@.len() - i,
    {
        let p = pts[i];
        proof {
            lemma_route_coverage(e, p);
            assert(pts@.take(i as int + 1).drop_last() =~= pts@.take(i as int));
            assert(pts@.take(i as int + 1).last() == p);
        }
        if e0.contains(p) {
            g0.push(p);
        } else if e1.contains(p) {
            g1.push(p);
        } else if e2.contains(p) {
            g2.push(p);
        } else {
            assert(route(e, p) == 3);
            g3.push(p);
        }
        i = i + 1;
    }
    proof {
        assert(pts@.take(pts@.len() as int) =~= pts@);
        lemma_quadrants_wf(e);
        lemma_part_points_contained(pts@, e, 0);
        lemma_part_points_contained(pts@, e, 1);
        lemma_part_points_contained(pts@, e, 2);
        lemma_part_points_contained(pts@, e, 3);
    }
    let r0 = fits_check(&g0, e0, cap, fuel - 1);
    let r1 = fits_check(&g1, e1, cap, fuel - 1);
    let r2 = fits_check(&g2, e2, cap, fuel - 1);
    let r3 = fits_check(&g3, e3, cap, fuel - 1);
    r0 && r1 && r2 && r3
}

/// Splits a region holding these entries into a subtree whose leaves are
/// all within capacity, redistributing every entry into the quadrant
/// found by the fixed first-match scan.
fn split<T>(data: Vec<(Vec2, T)>, extent: Extent, cap: usize, fuel: u32) -> (r: QuadtreeNode<T>)
    requires
        extent.wf(),
        cap >= 1,
        forall|i: int| 0 <= i < data@.len() ==> extent.spec_contains((#[trigger] data@[i]).0),
        fits(points_of(data@), extent, cap as nat, fuel as nat),
    ensures
        r@ == build(data@, extent, cap as nat, fuel as nat),
    decreases fuel,
{
    let ghost orig = data@;
    assert(points_of(orig).len() == orig.len());
    if data.len() <= cap {
        return QuadtreeNode::Leaf { extent, data };
    }
    assert(fuel > 0);
    let mx = mid_coord(extent.min.x, extent.max.x);
    let my = mid_coord(extent.min.y, extent.max.y);
    let e0 = Extent {
        min: Vec2 { x: extent.min.x, y: my },
        max: Vec2 { x: mx, y: extent.max.y },
    };
    let e1 = Extent { min: Vec2 { x: mx, y: my }, max: extent.max };
    let e2 = Extent { min: extent.min, max: Vec2 { x: mx, y: my } };
    let e3 = Extent {
        min: Vec2 { x: mx, y: extent.min.y },
        max: Vec2 { x: extent.max.x, y: my },
    };
    assert(e0 == nw_extent(extent) && e1 == ne_extent(extent) && e2 == sw_extent(extent) && e3
        == se_extent(extent));
    let mut g0: Vec<(Vec2, T)> = Vec::new();
    let mut g1: Vec<(Vec2, T)> = Vec::new();
    let mut g2: Vec<(Vec2, T)> = Vec::new();
    let mut g3: Vec<(Vec2, T)> = Vec::new();
    let mut rest = data;
    let ghost j: int = 0;
    while rest.len() > 0
        invariant
            0 <= j <= orig.len(),
            extent.wf(),
            rest@ =~= orig.skip(j),
            forall|i: int| 0 <= i < orig.len() ==> extent.spec_contains((#[trigger] orig[i]).0),
            e0 == nw_extent(extent) && e1 == ne_extent(extent) && e2 == sw_extent(extent) && e3
                == se_extent(extent),
            g0@ == part_entries(orig.take(j), extent, 0),
            g1@ == part_entries(orig.take(j), extent, 1),
            g2@ == part_entries(orig.take(j), extent, 2),
            g3@ == part_entries(orig.take(j), extent, 3),
        decreases rest@.len(),
    {
        proof {
            assert(j < orig.len());
            assert(rest@[0] == orig[j]);
        }
        let en = rest.remove(0);
        let p = en.0;
        proof {
            assert(en == orig[j]);
            assert(extent.spec_contains(p));
            lemma_route_coverage(extent, p);
            assert(orig.take(j + 1).drop_last() =~= orig.take(j));
            assert(orig.take(j + 1).last() == en);
            assert(rest@ =~= orig.skip(j + 1));
        }
        if e0.contains(p) {
            g0.push(en);
        } else if e1.contains(p) {
            g1.push(en);
        } else if e2.contains(p) {
            g2.push(en);
        } else {
            assert(route(extent, p) == 3);
            g3.push(en);
        }
        proof {
            j = j + 1;
        }
    }
    proof {
        assert(orig.take(j) =~= orig);
        lemma_quadrants_wf(extent);
        lemma_part_entries_contained(orig, extent, 0);
        lemma_part_entries_contained(orig, extent, 1);
        lemma_part_entries_contained(orig, extent, 2);
        lemma_part_entries_contained(orig, extent, 3);
        lemma_points_part_commute(orig, extent, 0);
        lemma_points_part_commute(orig, extent, 1);
        lemma_points_part_commute(orig, extent, 2);
        lemma_points_part_commute(orig, extent, 3);
    }
    let nw = split(g0, e0, cap, fuel - 1);
    let ne = split(g1, e1, cap, fuel - 1);
    let sw = split(g2, e2, cap, fuel - 1);
    let se = split(g3, e3, cap, fuel - 1);
    QuadtreeNode::Internal { extent, children: Box::new(Quadrants { nw, ne, sw, se }) }
}

impl<T> QuadtreeNode<T> {
    /// Constructs an empty tree covering `extent`, given as a
    /// `[min, max]` pair of corners. Rejects an extent whose minimum
    /// corner exceeds its maximum on either axis.
    pub fn new(extent: [Vec2; 2]) -> (r: Result<Self, QuadtreeError>)
        ensures
            match r {
                Ok(n) => {
                    &&& (Extent { min: extent[0], max: extent[1] }).wf()
                    &&& n@ == (NodeModel::Leaf {
                        extent: Extent { min: extent[0], max: extent[1] },
                        entries: Seq::<(Vec2, T)>::empty(),
                    })
                },
                Err(err) => {
                    &&& err == QuadtreeError::InvalidExtent
                    &&& !(Extent { min: extent[0], max: extent[1] }).wf()
                },
            },
    {
        let e = Extent { min: extent[0], max: extent[1] };
        if e.min.x <= e.max.x && e.min.y <= e.max.y {
            let data: Vec<(Vec2, T)> = Vec::new();
            assert(data@ =~= Seq::<(Vec2, T)>::empty());
            Ok(QuadtreeNode::Leaf { extent: e, data })
        } else {
            Err(QuadtreeError::InvalidExtent)
        }
    }

    /// Whether this node's extent contains the point.
    pub fn contains(&self, pos: Vec2) -> (r: bool)
        ensures
            r == self@.extent().spec_contains(pos),
    {
        match self {
            QuadtreeNode::Leaf { extent, .. } => extent.contains(pos),
            QuadtreeNode::Internal { extent, .. } => extent.contains(pos),
        }
    }

    /// Inserts `(pos, new_data)` by descending to the leaf whose extent
    /// contains `pos`, splitting any full leaf on the way.
    ///
    /// A point outside this node's extent is rejected with
    /// [`QuadtreeError::OutOfBounds`]; an entry cluster that subdivision
    /// cannot spread under capacity is rejected with
    /// [`QuadtreeError::Saturated`]. On any error the tree is unchanged.
    pub fn insert(&mut self, pos: Vec2, new_data: T, capacity: usize) -> (r: Result<
        (),
        QuadtreeError,
    >)
        requires
            old(self)@.wf(capacity as nat),
            capacity >= 1,
        ensures
            match r {
                Ok(()) => {
                    &&& old(self)@.extent().spec_contains(pos)
                    &&& insert_model(old(self)@, pos, new_data, capacity as nat, SPLIT_FUEL as nat)
                        == Some(final(self)@)
                    &&& final(self)@.wf(capacity as nat)
                    &&& final(self)@.extent() == old(self)@.extent()
                },
                Err(QuadtreeError::OutOfBounds) => {
                    &&& !old(self)@.extent().spec_contains(pos)
                    &&& final(self)@ == old(self)@
                },
                Err(QuadtreeError::Saturated) => {
                    &&& old(self)@.extent().spec_contains(pos)
                    &&& insert_model(old(self)@, pos, new_data, capacity as nat, SPLIT_FUEL as nat)
                        is None
                    &&& final(self)@ == old(self)@
                },
                Err(QuadtreeError::InvalidExtent) => false,
            },
        decreases *old(self),
    {
        if !self.contains(pos) {
            return Err(QuadtreeError::OutOfBounds);
        }
        match self {
            QuadtreeNode::Leaf { extent, data } => {
                let ext = *extent;
                if data.len() < capacity {
                    data.push((pos, new_data));
                    proof {
                        let es2 = old(self)@->Leaf_entries.push((pos, new_data));
                        assert(fits(points_of(es2), ext, capacity as nat, SPLIT_FUEL as nat));
                        assert(build(es2, ext, capacity as nat, SPLIT_FUEL as nat)
                            == NodeModel::Leaf { extent: ext, entries: es2 });
                    }
                    Ok(())
                } else {
                    let mut entries: Vec<(Vec2, T)> = Vec::new();
                    core::mem::swap(data, &mut entries);
                    entries.push((pos, new_data));
                    let ghost es2 = entries@;
                    let mut pts: Vec<Vec2> = Vec::new();
                    let mut i: usize = 0;
                    while i < entries.len()
                        invariant
                            0 <= i <= entries@.len(),
                            pts@.len() == i,
                            forall|j: int| 0 <= j < i ==> pts@[j] == (#[trigger] entries@[j]).0,
                        decreases entries@.len() - i,
                    {
                        let p = entries[i].0;
                        pts.push(p);
                        i = i + 1;
                    }
                    proof {
                        assert(pts@ =~= points_of(entries@));
                        assert(forall|j: int|
                            0 <= j < es2.len() ==> ext.spec_contains((#[trigger] es2[j]).0));
                        assert(forall|j: int|
                            0 <= j < pts@.len() ==> ext.spec_contains(#[trigger] pts@[j]));
                    }
                    if fits_check(&pts, ext, capacity, SPLIT_FUEL) {
                        *self = split(entries, ext, capacity, SPLIT_FUEL);
                        proof {
                            lemma_build_wf(es2, ext, capacity as nat, SPLIT_FUEL as nat);
                        }
                        Ok(())
                    } else {
                        let _ = entries.pop();
                        proof {
                            assert(entries@ =~= old(self)@->Leaf_entries);
                        }
                        core::mem::swap(data, &mut entries);
                        Err(QuadtreeError::Saturated)
                    }
                }
            },
            QuadtreeNode::Internal { extent, children } => {
                let ext = *extent;
                proof {
                    lemma_route_coverage(ext, pos);
                }
                let r = if children.nw.contains(pos) {
                    assert(route(ext, pos) == 0);
                    children.nw.insert(pos, new_data, capacity)
                } else if children.ne.contains(pos) {
                    assert(route(ext, pos) == 1);
                    children.ne.insert(pos, new_data, capacity)
                } else if children.sw.contains(pos) {
                    assert(route(ext, pos) == 2);
                    children.sw.insert(pos, new_data, capacity)
                } else {
                    assert(route(ext, pos) == 3);
                    assert(children.se@.extent().spec_contains(pos));
                    children.se.insert(pos, new_data, capacity)
                };
                proof {
                    // the routed child contains the point, so its insert
                    // can only succeed or report saturation
                    assert(!(r is Err && r->Err_0 is OutOfBounds));
                    if r is Ok {
                        lemma_insert_wf(old(self)@, pos, new_data, capacity as nat,
                            SPLIT_FUEL as nat);
                    }
                }
                r
            },
        }
    }
}

impl<T> QuadtreeNode<T> {
    /// Appends references to every entry of this subtree to `out`, in
    /// traversal order (children in scan order).
    fn collect_entries<'a>(&'a self, out: &mut Vec<&'a (Vec2, T)>)
        ensures
            final(out)@.len() == old(out)@.len() + self@.entries().len(),
            forall|i: int| 0 <= i < old(out)@.len() ==> final(out)@[i] == old(out)@[i],
            forall|i: int|
                0 <= i < self@.entries().len() ==> *(#[trigger] final(out)@[old(out)@.len() + i])
                    == self@.entries()[i],
        decreases self,
    {
        match self {
            QuadtreeNode::Leaf { data, .. } => {
                let mut i: usize = 0;
                while i < data.len()
                    invariant
                        0 <= i <= data@.len(),
                        out@.len() == old(out)@.len() + i,
                        forall|j: int| 0 <= j < old(out)@.len() ==> out@[j] == old(out)@[j],
                        forall|j: int|
                            0 <= j < i ==> *(#[trigger] out@[old(out)@.len() + j]) == data@[j],
                    decreases data@.len() - i,
                {
                    out.push(&data[i]);
                    i = i + 1;
                }
            },
            QuadtreeNode::Internal { children, .. } => {
                let ghost a = children.nw@.entries();
                let ghost b = children.ne@.entries();
                let ghost c = children.sw@.entries();
                let ghost d = children.se@.entries();
                let ghost base = out@.len() as int;
                children.nw.collect_entries(out);
                let ghost s1 = out@;
                children.ne.collect_entries(out);
                let ghost s2 = out@;
                children.sw.collect_entries(out);
                let ghost s3 = out@;
                children.se.collect_entries(out);
                proof {
                    assert(self@.entries() == a + b + c + d);
                    assert forall|i: int| 0 <= i < self@.entries().len() implies *(
                    #[trigger] out@[base + i]) == self@.entries()[i] by {
                        assert(s1.len() == base + a.len());
                        assert(s2.len() == base + a.len() + b.len());
                        assert(s3.len() == base + a.len() + b.len() + c.len());
                        if i < a.len() {
                            assert((a + b + c + d)[i] == a[i]);
                            assert(*(s1[base + i]) == a[i]);
                            assert(s2[base + i] == s1[base + i]);
                            assert(s3[base + i] == s2[base + i]);
                            assert(out@[base + i] == s3[base + i]);
                        } else if i < a.len() + b.len() {
                            assert((a + b + c + d)[i] == b[i - a.len()]);
                            assert(*(s2[s1.len() as int + (i - a.len())]) == b[i - a.len()]);
                            assert(s3[base + i] == s2[base + i]);
                            assert(out@[base + i] == s3[base + i]);
                        } else if i < a.len() + b.len() + c.len() {
                            assert((a + b + c + d)[i] == c[i - a.len() - b.len()]);
                            assert(*(s3[s2.len() as int + (i - a.len() - b.len())]) == c[i - a.len()
                                - b.len()]);
                            assert(out@[base + i] == s3[base + i]);
                        } else {
                            assert((a + b + c + d)[i] == d[i - a.len() - b.len() - c.len()]);
                            assert(*(out@[s3.len() as int + (i - a.len() - b.len() - c.len())])
                                == d[i - a.len() - b.len() - c.len()]);
                        }
                    }
                }
            },
        }
    }

    /// All stored entries in traversal order, as references.
    pub fn entries(&self) -> (r: Vec<&(Vec2, T)>)
        ensures
            r@.len() == self@.entries().len(),
            forall|i: int| 0 <= i < r@.len() ==> *(#[trigger] r@[i]) == self@.entries()[i],
    {
        let mut out: Vec<&(Vec2, T)> = Vec::new();
        self.collect_entries(&mut out);
        proof {
            assert forall|i: int| 0 <= i < out@.len() implies *(#[trigger] out@[i]) == self@.entries(
            )[i] by {
                assert(*(out@[0 + i]) == self@.entries()[i]);
            }
        }
        out
    }

    /// The number of stored entries.
    pub fn len(&self) -> (n: usize)
        ensures
            n == self@.entries().len(),
    {
        let out = self.entries();
        out.len()
    }
}

/// The spatial index: one root node together with the capacity every
/// leaf is held to. The root's extent is fixed at construction.
pub struct SpatialIndex<T> {
    pub root: QuadtreeNode<T>,
    pub capacity: usize,
}

impl<T> SpatialIndex<T> {
    /// The index is well-formed when its tree is, under its capacity.
    pub open spec fn wf(self) -> bool {
        self.capacity >= 1 && self.root@.wf(self.capacity as nat)
    }

    /// The model of the whole index is the model of its root.
    pub open spec fn model(self) -> NodeModel<T> {
        self.root@
    }

    /// Constructs an empty index covering `extent` with the given leaf
    /// capacity. Rejects an extent whose minimum corner exceeds its
    /// maximum on either axis.
    pub fn new(extent: [Vec2; 2], capacity: usize) -> (r: Result<Self, QuadtreeError>)
        requires
            capacity >= 1,
        ensures
            match r {
                Ok(s) => {
                    &&& (Extent { min: extent[0], max: extent[1] }).wf()
                    &&& s.wf()
                    &&& s.capacity == capacity
                    &&& s.model() == (NodeModel::Leaf {
                        extent: Extent { min: extent[0], max: extent[1] },
                        entries: Seq::<(Vec2, T)>::empty(),
                    })
                },
                Err(err) => {
                    &&& err == QuadtreeError::InvalidExtent
                    &&& !(Extent { min: extent[0], max: extent[1] }).wf()
                },
            },
    {
        match QuadtreeNode::new(extent) {
            Ok(root) => Ok(SpatialIndex { root, capacity }),
            Err(e) => Err(e),
        }
    }

    /// Inserts one (point, payload) entry; see [`QuadtreeNode::insert`].
    pub fn insert(&mut self, pos: Vec2, data: T) -> (r: Result<(), QuadtreeError>)
        requires
            old(self).wf(),
        ensures
            final(self).wf(),
            final(self).capacity == old(self).capacity,
            match r {
                Ok(()) => {
                    &&& old(self).model().extent().spec_contains(pos)
                    &&& insert_model(
                        old(self).model(),
                        pos,
                        data,
                        old(self).capacity as nat,
                        SPLIT_FUEL as nat,
                    ) == Some(final(self).model())
                    &&& final(self).model().extent() == old(self).model().extent()
                },
                Err(QuadtreeError::OutOfBounds) => {
                    &&& !old(self).model().extent().spec_contains(pos)
                    &&& final(self).model() == old(self).model()
                },
                Err(QuadtreeError::Saturated) => {
                    &&& old(self).model().extent().spec_contains(pos)
                    &&& insert_model(
                        old(self).model(),
                        pos,
                        data,
                        old(self).capacity as nat,
                        SPLIT_FUEL as nat,
                    ) is None
                    &&& final(self).model() == old(self).model()
                },
                Err(QuadtreeError::InvalidExtent) => false,
            },
    {
        let cap = self.capacity;
        self.root.insert(pos, data, cap)
    }

    /// All stored entries in traversal order, as references.
    pub fn entries(&self) -> (r: Vec<&(Vec2, T)>)
        ensures
            r@.len() == self.model().entries().len(),
            forall|i: int| 0 <= i < r@.len() ==> *(#[trigger] r@[i]) == self.model().entries()[i],
    {
        self.root.entries()
    }

    /// The number of stored entries.
    pub fn len(&self) -> (n: usize)
        ensures
            n == self.model().entries().len(),
    {
        self.root.len()
    }
}

} // verus!
