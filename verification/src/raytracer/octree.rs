//! A spatial index over the bounding boxes of primitives.
//!
//! The tree cuts space into boxes, each box into eight octants, and notes in
//! every leaf the primitives whose boxes reach it. A query walks down the
//! boxes that a ray hits and hands out what the leaves on the way note. The
//! tree does no arithmetic: where a box is cut and whether a ray hits a box
//! are the caller's to compute.

use crate::geometry::bbox::BBox;
use crate::vec3::Vec3;
use vstd::prelude::*;

verus! {

/// A primitive as the tree knows it: its bounding box and its index in the
/// caller's list.
#[derive(Clone, Copy, Debug, PartialEq, Eq)]
pub struct OctreeData {
    pub bbox: BBox,
    pub index: usize,
}

/// A node of the tree. A node without children is a leaf; any other has
/// eight, given by their places in the list of nodes.
#[derive(Clone, Debug, PartialEq, Eq)]
pub struct OctreeNode {
    pub bbox: BBox,
    /// How many more times the space of this node may be cut.
    pub depth: u32,
    pub children: Vec<usize>,
    pub leaf_data: Vec<OctreeData>,
}

/// Whether the box of child `k` of node `n` holds the point `p`.
pub open spec fn child_holds(nodes: Seq<OctreeNode>, n: int, k: int, p: Vec3) -> bool {
    nodes[nodes[n].children@[k] as int].bbox.holds(p)
}

/// What a node has to meet: it is a leaf or has eight children; children
/// stand behind their parent in the list and may be cut once less; and the
/// boxes of the children leave no point of the parent's box out.
pub open spec fn node_ok(nodes: Seq<OctreeNode>, n: int) -> bool {
    let c = nodes[n].children@;
    &&& c.len() == 0 || c.len() == 8
    &&& forall|k: int| 0 <= k < c.len() ==> n < #[trigger] c[k] < nodes.len()
    &&& forall|k: int| 0 <= k < c.len() ==> nodes[#[trigger] c[k] as int].depth + 1 == nodes[n].depth
    &&& forall|p: Vec3|
        c.len() > 0 && #[trigger] nodes[n].bbox.holds(p) ==> exists|k: int|
            0 <= k < c.len() && #[trigger] child_holds(nodes, n, k, p)
}

/// Every node of the list meets [`node_ok`].
pub open spec fn well_formed(nodes: Seq<OctreeNode>) -> bool {
    forall|n: int| 0 <= n < nodes.len() ==> #[trigger] node_ok(nodes, n)
}

/// Whether the walk from node `n` that follows the boxes holding the point
/// `p` can end at a leaf that notes `e`.
pub open spec fn reaches(nodes: Seq<OctreeNode>, n: int, e: OctreeData, p: Vec3) -> bool
    decreases nodes.len() - n,
{
    if n < 0 || n >= nodes.len() {
        false
    } else if nodes[n].children@.len() == 0 {
        nodes[n].leaf_data@.contains(e)
    } else {
        let c = nodes[n].children@;
        exists|k: int|
            0 <= k < c.len() && n < (#[trigger] c[k]) < nodes.len() && nodes[c[k] as int].bbox.holds(
                p,
            ) && reaches(nodes, c[k] as int, e, p)
    }
}

/// Whether some leaf of the list notes `e`.
pub open spec fn listed(nodes: Seq<OctreeNode>, e: OctreeData) -> bool {
    exists|n: int|
        0 <= n < nodes.len() && nodes[n].children@.len() == 0 && (
        #[trigger] nodes[n].leaf_data@).contains(e)
}

/// Whether node `n` of `old` has become node `n` of `new` in a way that loses
/// nothing: box and depth are kept, an inner node keeps its children, and
/// what a leaf noted can still be reached from it.
pub open spec fn kept(old: Seq<OctreeNode>, new: Seq<OctreeNode>, n: int) -> bool {
    &&& new[n].bbox == old[n].bbox
    &&& new[n].depth == old[n].depth
    &&& old[n].children@.len() > 0 ==> new[n].children@ == old[n].children@
    &&& old[n].children@.len() == 0 ==> forall|e: OctreeData, p: Vec3|
        old[n].leaf_data@.contains(e) && e.bbox.holds(p) && old[n].bbox.holds(p)
            ==> #[trigger] reaches(new, n, e, p)
}

/// Whether `new` is `old` grown: no shorter, and every node kept.
pub open spec fn grown(old: Seq<OctreeNode>, new: Seq<OctreeNode>) -> bool {
    &&& old.len() <= new.len()
    &&& forall|n: int| 0 <= n < old.len() ==> #[trigger] kept(old, new, n)
}

/// Whether `split` can answer, for the box `b`, a point that the box does
/// not hold, so that the box is not cut.
pub open spec fn may_refuse<F: Fn(&BBox) -> Vec3>(split: &F, b: BBox) -> bool {
    exists|s: Vec3| #[trigger] call_ensures(*split, (&b,), s) && !b.holds(s)
}

/// Whether node `n` is cut if it can be: a leaf that notes more than one
/// primitive may not be cut further, or `split` can answer a point outside
/// its box, or the list of nodes has no room for eight more.
pub open spec fn settled<F: Fn(&BBox) -> Vec3>(nodes: Seq<OctreeNode>, split: &F, n: int) -> bool {
    nodes[n].children@.len() == 0 && nodes[n].leaf_data@.len() > 1 ==> nodes[n].depth == 0
        || may_refuse(split, nodes[n].bbox) || nodes.len() + 8 > usize::MAX
}

/// Whether every node is cut if it can be.
pub open spec fn cut_where_possible<F: Fn(&BBox) -> Vec3>(
    nodes: Seq<OctreeNode>,
    split: &F,
) -> bool {
    forall|n: int| 0 <= n < nodes.len() ==> #[trigger] settled(nodes, split, n)
}

/// Whether the test `hits` never says no to a box that holds the point `p`.
pub open spec fn never_misses<F: Fn(&BBox) -> bool>(hits: &F, p: Vec3) -> bool {
    forall|b: BBox, r: bool| b.holds(p) && #[trigger] call_ensures(*hits, (&b,), r) ==> r
}

/// Whether a walk from node `n` that goes only into children whose boxes
/// meet `ok` can end at a leaf that notes `e`.
pub open spec fn walks_to(
    nodes: Seq<OctreeNode>,
    n: int,
    ok: spec_fn(BBox) -> bool,
    e: OctreeData,
) -> bool
    decreases nodes.len() - n,
{
    if n < 0 || n >= nodes.len() {
        false
    } else if nodes[n].children@.len() == 0 {
        nodes[n].leaf_data@.contains(e)
    } else {
        let c = nodes[n].children@;
        exists|k: int|
            0 <= k < c.len() && n < (#[trigger] c[k]) < nodes.len() && ok(nodes[c[k] as int].bbox)
                && walks_to(nodes, c[k] as int, ok, e)
    }
}

/// The boxes to which the test `hits` can say yes.
pub open spec fn says_yes<F: Fn(&BBox) -> bool>(hits: &F) -> spec_fn(BBox) -> bool {
    |b: BBox| call_ensures(*hits, (&b,), true)
}

/// The boxes to which the test `hits` cannot say no.
pub open spec fn always_yes<F: Fn(&BBox) -> bool>(hits: &F) -> spec_fn(BBox) -> bool {
    |b: BBox| forall|r: bool| #[trigger] call_ensures(*hits, (&b,), r) ==> r
}

/// Whether `index` belongs to a primitive that the walk from node `n` finds
/// under the test `hits`: the walk goes only into boxes that the test
/// accepted and comes to a leaf that notes the primitive, whose own box the
/// test accepted too.
pub open spec fn accepted_below<F: Fn(&BBox) -> bool>(
    nodes: Seq<OctreeNode>,
    n: int,
    hits: &F,
    index: usize,
) -> bool {
    exists|e: OctreeData|
        #[trigger] walks_to(nodes, n, says_yes(hits), e) && e.index == index && call_ensures(
            *hits,
            (&e.bbox,),
            true,
        )
}

/// Whether `index` belongs to a primitive that the walk from the root finds
/// under the test `hits`.
pub open spec fn accepted<F: Fn(&BBox) -> bool>(
    nodes: Seq<OctreeNode>,
    hits: &F,
    index: usize,
) -> bool {
    accepted_below(nodes, 0, hits, index)
}

/// Where a point leads to a primitive, so does any test that holds of every
/// box with the point in it.
pub proof fn lemma_reaches_walks(
    nodes: Seq<OctreeNode>,
    n: int,
    e: OctreeData,
    p: Vec3,
    ok: spec_fn(BBox) -> bool,
)
    requires
        reaches(nodes, n, e, p),
        forall|b: BBox| #[trigger] b.holds(p) ==> ok(b),
    ensures
        walks_to(nodes, n, ok, e),
    decreases nodes.len() - n,
{
    if nodes[n].children@.len() > 0 {
        let c = nodes[n].children@;
        let k = choose|k: int|
            0 <= k < c.len() && n < (#[trigger] c[k]) < nodes.len() && nodes[c[k] as int].bbox.holds(p)
                && reaches(nodes, c[k] as int, e, p);
        lemma_reaches_walks(nodes, c[k] as int, e, p, ok);
    }
}

/// A walk ends only at what some leaf notes.
pub proof fn lemma_walks_to_listed(
    nodes: Seq<OctreeNode>,
    n: int,
    ok: spec_fn(BBox) -> bool,
    e: OctreeData,
)
    requires
        walks_to(nodes, n, ok, e),
    ensures
        listed(nodes, e),
    decreases nodes.len() - n,
{
    if nodes[n].children@.len() > 0 {
        let c = nodes[n].children@;
        let k = choose|k: int|
            0 <= k < c.len() && n < (#[trigger] c[k]) < nodes.len() && ok(nodes[c[k] as int].bbox)
                && walks_to(nodes, c[k] as int, ok, e);
        lemma_walks_to_listed(nodes, c[k] as int, ok, e);
    }
}

/// A walk that a test allows is allowed by any test that says yes at least
/// as often.
pub proof fn lemma_walks_to_wider(
    nodes: Seq<OctreeNode>,
    n: int,
    ok: spec_fn(BBox) -> bool,
    wider: spec_fn(BBox) -> bool,
    e: OctreeData,
)
    requires
        walks_to(nodes, n, ok, e),
        forall|b: BBox| #[trigger] ok(b) ==> wider(b),
    ensures
        walks_to(nodes, n, wider, e),
    decreases nodes.len() - n,
{
    if nodes[n].children@.len() > 0 {
        let c = nodes[n].children@;
        let k = choose|k: int|
            0 <= k < c.len() && n < (#[trigger] c[k]) < nodes.len() && ok(nodes[c[k] as int].bbox)
                && walks_to(nodes, c[k] as int, ok, e);
        lemma_walks_to_wider(nodes, c[k] as int, ok, wider, e);
    }
}

/// What could be reached in a list can be reached in one grown from it.
proof fn lemma_grown_reaches(
    old: Seq<OctreeNode>,
    new: Seq<OctreeNode>,
    n: int,
    e: OctreeData,
    p: Vec3,
)
    requires
        grown(old, new),
        0 <= n < old.len(),
        e.bbox.holds(p),
        old[n].bbox.holds(p),
        reaches(old, n, e, p),
    ensures
        reaches(new, n, e, p),
    decreases old.len() - n,
{
    assert(kept(old, new, n));
    if old[n].children@.len() > 0 {
        let c = old[n].children@;
        let k = choose|k: int|
            0 <= k < c.len() && n < (#[trigger] c[k]) < old.len() && old[c[k] as int].bbox.holds(p)
                && reaches(old, c[k] as int, e, p);
        lemma_grown_reaches(old, new, c[k] as int, e, p);
        assert(kept(old, new, c[k] as int));
        assert(new[n].children@[k] == c[k]);
    }
}

/// Growing twice is growing.
proof fn lemma_grown_twice(a: Seq<OctreeNode>, b: Seq<OctreeNode>, c: Seq<OctreeNode>)
    requires
        grown(a, b),
        grown(b, c),
    ensures
        grown(a, c),
{
    assert forall|n: int| 0 <= n < a.len() implies #[trigger] kept(a, c, n) by {
        assert(kept(a, b, n));
        assert(kept(b, c, n));
        if a[n].children@.len() == 0 {
            assert forall|e: OctreeData, p: Vec3|
                a[n].leaf_data@.contains(e) && e.bbox.holds(p) && a[n].bbox.holds(p)
                    implies #[trigger] reaches(c, n, e, p) by {
                assert(reaches(b, n, e, p));
                lemma_grown_reaches(b, c, n, e, p);
            }
        }
    }
}

/// A list has grown from itself.
proof fn lemma_grown_from_itself(a: Seq<OctreeNode>)
    ensures
        grown(a, a),
{
    assert forall|n: int| 0 <= n < a.len() implies #[trigger] kept(a, a, n) by {}
}


/// The leaf at `bbox` that may be cut `depth` times and notes nothing.
fn empty_leaf(bbox: BBox, depth: u32) -> (node: OctreeNode)
    ensures
        node.bbox == bbox,
        node.depth == depth,
        node.children@.len() == 0,
        node.leaf_data@.len() == 0,
{
    OctreeNode { bbox, depth, children: Vec::new(), leaf_data: Vec::new() }
}

/// Notes `e` in the leaf `n`.
fn note(nodes: &mut Vec<OctreeNode>, n: usize, e: OctreeData)
    requires
        well_formed(old(nodes)@),
        n < old(nodes)@.len(),
        old(nodes)@[n as int].children@.len() == 0,
    ensures
        well_formed(final(nodes)@),
        grown(old(nodes)@, final(nodes)@),
        forall|p: Vec3| #[trigger] reaches(final(nodes)@, n as int, e, p),
        forall|e2: OctreeData| #[trigger]
            listed(final(nodes)@, e2) ==> listed(old(nodes)@, e2) || e2 == e,
        final(nodes)@.len() == old(nodes)@.len(),
        forall|m: int| 0 <= m < old(nodes)@.len() && m != n ==> final(nodes)@[m] == old(nodes)@[m],
        final(nodes)@[n as int].bbox == old(nodes)@[n as int].bbox,
        final(nodes)@[n as int].depth == old(nodes)@[n as int].depth,
        final(nodes)@[n as int].children@.len() == 0,
        final(nodes)@[n as int].leaf_data@ == old(nodes)@[n as int].leaf_data@.push(e),
{
    nodes[n].leaf_data.push(e);
    proof {
        let a = old(nodes)@;
        let b = nodes@;
        assert(b[n as int].leaf_data@.last() == e);
        assert forall|m: int| 0 <= m < b.len() implies #[trigger] node_ok(b, m) by {
            assert(node_ok(a, m));
            assert(b[m].children@ == a[m].children@);
            let c = a[m].children@;
            assert forall|p: Vec3| c.len() > 0 && #[trigger] b[m].bbox.holds(p) implies exists|
                k: int,
            |
                0 <= k < c.len() && #[trigger] child_holds(b, m, k, p) by {
                assert(a[m].bbox.holds(p));
                let k = choose|k: int| 0 <= k < c.len() && #[trigger] child_holds(a, m, k, p);
                assert(child_holds(b, m, k, p));
            }
        }
        assert forall|m: int| 0 <= m < a.len() implies #[trigger] kept(a, b, m) by {
            if a[m].children@.len() == 0 {
                assert forall|e2: OctreeData, p: Vec3|
                    a[m].leaf_data@.contains(e2) && e2.bbox.holds(p) && a[m].bbox.holds(p)
                        implies #[trigger] reaches(b, m, e2, p) by {
                    let i = choose|i: int| 0 <= i < a[m].leaf_data@.len() && a[m].leaf_data@[i] == e2;
                    assert(b[m].leaf_data@[i] == e2);
                }
            }
        }
        assert forall|e2: OctreeData| #[trigger] listed(b, e2) implies listed(a, e2) || e2 == e by {
            let m = choose|m: int|
                0 <= m < b.len() && b[m].children@.len() == 0 && (#[trigger] b[m].leaf_data@).contains(
                    e2,
                );
            if m != n || e2 != e {
                let i = choose|i: int| 0 <= i < b[m].leaf_data@.len() && b[m].leaf_data@[i] == e2;
                assert(a[m].leaf_data@[i] == e2);
                assert(a[m].leaf_data@.contains(e2));
            }
        }
    }
}

/// Cuts the leaf `n` at the point `s` of its box: eight empty leaves are put
/// at the end of the list and become its children, and what it noted is
/// dropped.
fn subdivide(nodes: &mut Vec<OctreeNode>, n: usize, s: &Vec3)
    requires
        well_formed(old(nodes)@),
        n < old(nodes)@.len(),
        old(nodes)@[n as int].children@.len() == 0,
        old(nodes)@[n as int].depth > 0,
        old(nodes)@[n as int].bbox.holds(*s),
        old(nodes)@.len() + 8 <= usize::MAX,
    ensures
        well_formed(final(nodes)@),
        final(nodes)@.len() == old(nodes)@.len() + 8,
        forall|m: int| 0 <= m < old(nodes)@.len() && m != n ==> final(nodes)@[m] == old(nodes)@[m],
        final(nodes)@[n as int].bbox == old(nodes)@[n as int].bbox,
        final(nodes)@[n as int].depth == old(nodes)@[n as int].depth,
        final(nodes)@[n as int].children@.len() == 8,
        forall|k: int|
            0 <= k < 8 ==> {
                let c = #[trigger] final(nodes)@[n as int].children@[k];
                &&& c == old(nodes)@.len() + k
                &&& final(nodes)@[c as int].children@.len() == 0
                &&& final(nodes)@[c as int].leaf_data@.len() == 0
            },
{
    let first: usize = nodes.len();
    let bbox: BBox = nodes[n].bbox;
    let depth: u32 = nodes[n].depth;
    let mut children: Vec<usize> = Vec::new();
    let mut k: usize = 0;
    while k < 8
        invariant
            k <= 8,
            first == old(nodes)@.len(),
            first + 8 <= usize::MAX,
            depth > 0,
            nodes@.len() == first + k,
            children@.len() == k,
            forall|m: int| 0 <= m < first ==> nodes@[m] == old(nodes)@[m],
            forall|j: int|
                0 <= j < k ==> {
                    &&& #[trigger] children@[j] == first + j
                    &&& nodes@[first + j].bbox == bbox.octant(*s, j)
                    &&& nodes@[first + j].depth + 1 == depth
                    &&& nodes@[first + j].children@.len() == 0
                    &&& nodes@[first + j].leaf_data@.len() == 0
                },
        decreases 8 - k,
    {
        nodes.push(empty_leaf(bbox.octant_at(s, k), depth - 1));
        children.push(first + k);
        k = k + 1;
    }
    nodes[n].children = children;
    nodes[n].leaf_data = Vec::new();
    proof {
        let a = old(nodes)@;
        let b = nodes@;
        assert forall|m: int| 0 <= m < b.len() implies #[trigger] node_ok(b, m) by {
            if m >= first {
                assert(b[m].children@.len() == 0) by {
                    let j = m - first;
                    assert(children@[j] == first + j);
                }
            } else if m == n {
                let c = b[m].children@;
                assert forall|j: int| 0 <= j < c.len() implies b[#[trigger] c[j] as int].depth + 1
                    == b[m].depth by {
                    assert(children@[j] == first + j);
                }
                assert forall|p: Vec3| c.len() > 0 && #[trigger] b[m].bbox.holds(p) implies exists|
                    j: int,
                |
                    0 <= j < c.len() && #[trigger] child_holds(b, m, j, p) by {
                    bbox.lemma_octants_cover(*s, p);
                    let j = choose|j: int| 0 <= j < 8 && #[trigger] bbox.octant(*s, j).holds(p);
                    assert(children@[j] == first + j);
                    assert(child_holds(b, m, j, p));
                }
            } else {
                assert(node_ok(a, m));
                let c = a[m].children@;
                assert forall|p: Vec3| c.len() > 0 && #[trigger] b[m].bbox.holds(p) implies exists|
                    j: int,
                |
                    0 <= j < c.len() && #[trigger] child_holds(b, m, j, p) by {
                    let j = choose|j: int| 0 <= j < c.len() && #[trigger] child_holds(a, m, j, p);
                    assert(child_holds(b, m, j, p));
                }
            }
        }
        assert forall|j: int| 0 <= j < 8 implies {
            let c = #[trigger] b[n as int].children@[j];
            &&& c == a.len() + j
            &&& b[c as int].children@.len() == 0
            &&& b[c as int].leaf_data@.len() == 0
        } by {
            assert(children@[j] == first + j);
        }
    }
}

/// Notes `e` below the inner node `n`: in every child whose box touches the
/// box of `e`.
fn insert_below<F: Fn(&BBox) -> Vec3>(nodes: &mut Vec<OctreeNode>, n: usize, e: OctreeData, split: &F)
    requires
        well_formed(old(nodes)@),
        n < old(nodes)@.len(),
        old(nodes)@[n as int].children@.len() > 0,
        forall|b: &BBox| call_requires(*split, (b,)),
        cut_where_possible(old(nodes)@, split),
    ensures
        well_formed(final(nodes)@),
        cut_where_possible(final(nodes)@, split),
        grown(old(nodes)@, final(nodes)@),
        forall|p: Vec3|
            e.bbox.holds(p) && old(nodes)@[n as int].bbox.holds(p) ==> #[trigger] reaches(
                final(nodes)@,
                n as int,
                e,
                p,
            ),
        forall|e2: OctreeData| #[trigger]
            listed(final(nodes)@, e2) ==> listed(old(nodes)@, e2) || e2 == e,
    decreases old(nodes)@[n as int].depth, 0int,
{
    proof {
        lemma_grown_from_itself(nodes@);
        assert(node_ok(nodes@, n as int));
    }
    let mut k: usize = 0;
    while k < 8
        invariant
            k <= 8,
            n < old(nodes)@.len(),
            old(nodes)@[n as int].children@.len() == 8,
            well_formed(old(nodes)@),
            well_formed(nodes@),
            cut_where_possible(nodes@, split),
            grown(old(nodes)@, nodes@),
            forall|b: &BBox| call_requires(*split, (b,)),
            forall|j: int, p: Vec3|
                0 <= j < k && e.bbox.holds(p) && #[trigger] child_holds(old(nodes)@, n as int, j, p)
                    ==> reaches(nodes@, old(nodes)@[n as int].children@[j] as int, e, p),
            forall|e2: OctreeData| #[trigger]
                listed(nodes@, e2) ==> listed(old(nodes)@, e2) || e2 == e,
        decreases 8 - k,
    {
        let ghost before = nodes@;
        proof {
            assert(kept(old(nodes)@, before, n as int));
            assert(node_ok(before, n as int));
            assert(node_ok(old(nodes)@, n as int));
        }
        let c: usize = nodes[n].children[k];
        proof {
            assert(c == old(nodes)@[n as int].children@[k as int]);
            assert(kept(old(nodes)@, before, c as int));
        }
        if nodes[c].bbox.overlaps(&e.bbox) {
            insert(nodes, c, e, split);
        }
        proof {
            let a = old(nodes)@;
            let now = nodes@;
            lemma_grown_from_itself(before);
            assert(grown(before, now));
            lemma_grown_twice(a, before, now);
            assert forall|j: int, p: Vec3|
                0 <= j < k + 1 && e.bbox.holds(p) && #[trigger] child_holds(a, n as int, j, p)
                    implies reaches(now, a[n as int].children@[j] as int, e, p) by {
                let cj = a[n as int].children@[j];
                assert(kept(a, before, cj as int));
                if j < k {
                    lemma_grown_reaches(before, now, cj as int, e, p);
                } else {
                    before[c as int].bbox.lemma_shared_point_touches(e.bbox, p);
                }
            }
        }
        k = k + 1;
    }
    proof {
        let a = old(nodes)@;
        let now = nodes@;
        assert(kept(a, now, n as int));
        assert forall|p: Vec3| e.bbox.holds(p) && a[n as int].bbox.holds(p) implies #[trigger] reaches(
            now,
            n as int,
            e,
            p,
        ) by {
            assert(node_ok(a, n as int));
            let j = choose|j: int| 0 <= j < 8 && #[trigger] child_holds(a, n as int, j, p);
            let cj = a[n as int].children@[j];
            assert(kept(a, now, cj as int));
            assert(now[n as int].children@[j] == cj);
            assert(reaches(now, cj as int, e, p));
        }
    }
}

/// Notes `e` in the tree under node `n`. A leaf that may still be cut and
/// notes one primitive already is cut where `split` says, and both
/// primitives go to the octants that their boxes touch; any other leaf takes
/// the primitive as it is.
fn insert<F: Fn(&BBox) -> Vec3>(nodes: &mut Vec<OctreeNode>, n: usize, e: OctreeData, split: &F)
    requires
        well_formed(old(nodes)@),
        n < old(nodes)@.len(),
        forall|b: &BBox| call_requires(*split, (b,)),
        cut_where_possible(old(nodes)@, split),
    ensures
        well_formed(final(nodes)@),
        cut_where_possible(final(nodes)@, split),
        grown(old(nodes)@, final(nodes)@),
        forall|p: Vec3|
            e.bbox.holds(p) && old(nodes)@[n as int].bbox.holds(p) ==> #[trigger] reaches(
                final(nodes)@,
                n as int,
                e,
                p,
            ),
        forall|e2: OctreeData| #[trigger]
            listed(final(nodes)@, e2) ==> listed(old(nodes)@, e2) || e2 == e,
    decreases old(nodes)@[n as int].depth, 1int,
{
    proof {
        assert(node_ok(nodes@, n as int));
    }
    if nodes[n].children.len() > 0 {
        insert_below(nodes, n, e, split);
        return ;
    }
    if nodes[n].depth == 0 || nodes[n].leaf_data.len() != 1 || nodes.len() > usize::MAX - 8 {
        note(nodes, n, e);
        proof {
            assert forall|m: int| 0 <= m < nodes@.len() implies #[trigger] settled(
                nodes@,
                split,
                m,
            ) by {
                assert(settled(old(nodes)@, split, m));
            }
        }
        return ;
    }
    let s: Vec3 = split(&nodes[n].bbox);
    if !nodes[n].bbox.inside(&s) {
        note(nodes, n, e);
        proof {
            assert(call_ensures(*split, (&old(nodes)@[n as int].bbox,), s));
            assert(may_refuse(split, old(nodes)@[n as int].bbox));
            assert forall|m: int| 0 <= m < nodes@.len() implies #[trigger] settled(
                nodes@,
                split,
                m,
            ) by {
                assert(settled(old(nodes)@, split, m));
            }
        }
        return ;
    }
    let first: OctreeData = nodes[n].leaf_data[0];
    subdivide(nodes, n, &s);
    let ghost a = old(nodes)@;
    let ghost cut = nodes@;
    proof {
        assert forall|m: int| 0 <= m < cut.len() implies #[trigger] settled(cut, split, m) by {
            if m < a.len() {
                assert(settled(a, split, m));
            } else {
                let j = m - a.len();
                assert(cut[n as int].children@[j] == a.len() + j);
            }
        }
        assert forall|e2: OctreeData| #[trigger] listed(cut, e2) implies listed(a, e2) by {
            let m = choose|m: int|
                0 <= m < cut.len() && cut[m].children@.len() == 0 && (
                #[trigger] cut[m].leaf_data@).contains(e2);
            if m >= a.len() {
                let j = m - a.len();
                assert(cut[n as int].children@[j] == a.len() + j);
            }
        }
        assert(a[n as int].leaf_data@[0] == first);
        assert(listed(a, first));
    }
    insert_below(nodes, n, first, split);
    let ghost mid = nodes@;
    proof {
        assert forall|m: int| 0 <= m < a.len() implies #[trigger] kept(a, mid, m) by {
            assert(kept(cut, mid, m));
            if m == n {
                assert forall|e2: OctreeData, p: Vec3|
                    a[m].leaf_data@.contains(e2) && e2.bbox.holds(p) && a[m].bbox.holds(p)
                        implies #[trigger] reaches(mid, m, e2, p) by {
                    assert(e2 == first);
                }
            }
        }
        assert(grown(a, mid));
        assert(kept(cut, mid, n as int));
        assert(kept(a, mid, n as int));
    }
    insert_below(nodes, n, e, split);
    proof {
        lemma_grown_twice(a, mid, nodes@);
    }
}

/// Walks the tree under node `n` and adds to `out` the index of every
/// primitive noted in a leaf on the way whose own box `hits` accepts. The
/// walk goes into a child only where `hits` accepts the child's box.
fn collect<F: Fn(&BBox) -> bool>(nodes: &Vec<OctreeNode>, n: usize, hits: &F, out: &mut Vec<usize>)
    requires
        well_formed(nodes@),
        n < nodes@.len(),
        forall|b: &BBox| call_requires(*hits, (b,)),
    ensures
        old(out)@.len() <= final(out)@.len(),
        forall|i: int| 0 <= i < old(out)@.len() ==> final(out)@[i] == old(out)@[i],
        forall|e: OctreeData|
            #[trigger] walks_to(nodes@, n as int, always_yes(hits), e) && always_yes(hits)(e.bbox)
                ==> final(out)@.contains(e.index),
        forall|i: int|
            old(out)@.len() <= i < final(out)@.len() ==> accepted_below(
                nodes@,
                n as int,
                hits,
                #[trigger] final(out)@[i],
            ),
    decreases nodes@.len() - n,
{
    proof {
        assert(node_ok(nodes@, n as int));
    }
    if nodes[n].children.len() == 0 {
        let data = &nodes[n].leaf_data;
        let mut i: usize = 0;
        while i < data.len()
            invariant
                i <= data@.len(),
                n < nodes@.len(),
                nodes@[n as int].children@.len() == 0,
                data@ == nodes@[n as int].leaf_data@,
                forall|b: &BBox| call_requires(*hits, (b,)),
                old(out)@.len() <= out@.len(),
                forall|j: int| 0 <= j < old(out)@.len() ==> out@[j] == old(out)@[j],
                forall|j: int|
                    0 <= j < i && always_yes(hits)((#[trigger] data@[j]).bbox) ==> out@.contains(
                        data@[j].index,
                    ),
                forall|j: int|
                    old(out)@.len() <= j < out@.len() ==> accepted_below(
                        nodes@,
                        n as int,
                        hits,
                        #[trigger] out@[j],
                    ),
            decreases data@.len() - i,
        {
            let e: OctreeData = data[i];
            let ghost before = out@;
            let hit: bool = hits(&e.bbox);
            if hit {
                out.push(e.index);
            }
            proof {
                assert(data@.contains(e));
                assert forall|j: int|
                    0 <= j < i + 1 && always_yes(hits)((#[trigger] data@[j]).bbox)
                        implies out@.contains(data@[j].index) by {
                    if j < i {
                        let w = choose|w: int| 0 <= w < before.len() && before[w] == data@[j].index;
                        assert(out@[w] == data@[j].index);
                    } else {
                        assert(call_ensures(*hits, (&e.bbox,), hit));
                        assert(hit);
                        assert(out@[out@.len() - 1] == e.index);
                    }
                }
                assert forall|j: int| old(out)@.len() <= j < out@.len() implies accepted_below(
                    nodes@,
                    n as int,
                    hits,
                    #[trigger] out@[j],
                ) by {
                    if j < before.len() {
                        assert(out@[j] == before[j]);
                    } else {
                        assert(walks_to(nodes@, n as int, says_yes(hits), e) && e.index == out@[j]);
                    }
                }
            }
            i = i + 1;
        }
        proof {
            assert forall|e: OctreeData|
                #[trigger] walks_to(nodes@, n as int, always_yes(hits), e) && always_yes(hits)(
                    e.bbox,
                ) implies out@.contains(e.index) by {
                let j = choose|j: int| 0 <= j < data@.len() && data@[j] == e;
                assert(always_yes(hits)(data@[j].bbox));
            }
        }
    } else {
        let mut k: usize = 0;
        while k < 8
            invariant
                k <= 8,
                n < nodes@.len(),
                well_formed(nodes@),
                nodes@[n as int].children@.len() == 8,
                forall|b: &BBox| call_requires(*hits, (b,)),
                old(out)@.len() <= out@.len(),
                forall|j: int| 0 <= j < old(out)@.len() ==> out@[j] == old(out)@[j],
                forall|j: int, e: OctreeData|
                    0 <= j < k && always_yes(hits)(
                        nodes@[nodes@[n as int].children@[j] as int].bbox,
                    ) && #[trigger] walks_to(
                        nodes@,
                        nodes@[n as int].children@[j] as int,
                        always_yes(hits),
                        e,
                    ) && always_yes(hits)(e.bbox) ==> out@.contains(e.index),
                forall|j: int|
                    old(out)@.len() <= j < out@.len() ==> accepted_below(
                        nodes@,
                        n as int,
                        hits,
                        #[trigger] out@[j],
                    ),
            decreases 8 - k,
        {
            proof {
                assert(node_ok(nodes@, n as int));
            }
            let c: usize = nodes[n].children[k];
            let ghost before = out@;
            let hit: bool = hits(&nodes[c].bbox);
            if hit {
                collect(nodes, c, hits, out);
            }
            proof {
                assert forall|j: int, e: OctreeData|
                    0 <= j < k + 1 && always_yes(hits)(
                        nodes@[nodes@[n as int].children@[j] as int].bbox,
                    ) && #[trigger] walks_to(
                        nodes@,
                        nodes@[n as int].children@[j] as int,
                        always_yes(hits),
                        e,
                    ) && always_yes(hits)(e.bbox) implies out@.contains(e.index) by {
                    if j < k {
                        let w = choose|w: int| 0 <= w < before.len() && before[w] == e.index;
                        assert(out@[w] == e.index);
                    } else {
                        assert(call_ensures(*hits, (&nodes@[c as int].bbox,), hit));
                        assert(hit);
                    }
                }
                assert forall|j: int| old(out)@.len() <= j < out@.len() implies accepted_below(
                    nodes@,
                    n as int,
                    hits,
                    #[trigger] out@[j],
                ) by {
                    if j < before.len() {
                        assert(out@[j] == before[j]);
                    } else {
                        let e = choose|e: OctreeData|
                            #[trigger] walks_to(nodes@, c as int, says_yes(hits), e) && e.index
                                == out@[j] && call_ensures(*hits, (&e.bbox,), true);
                        assert(says_yes(hits)(nodes@[c as int].bbox));
                        assert(nodes@[n as int].children@[k as int] == c);
                        assert(walks_to(nodes@, n as int, says_yes(hits), e));
                    }
                }
            }
            k = k + 1;
        }
        proof {
            assert forall|e: OctreeData|
                #[trigger] walks_to(nodes@, n as int, always_yes(hits), e) && always_yes(hits)(
                    e.bbox,
                ) implies out@.contains(e.index) by {
                let c = nodes@[n as int].children@;
                let j = choose|j: int|
                    0 <= j < c.len() && n < (#[trigger] c[j]) < nodes@.len() && always_yes(hits)(
                        nodes@[c[j] as int].bbox,
                    ) && walks_to(nodes@, c[j] as int, always_yes(hits), e);
            }
        }
    }
}

/// The index: a tree of boxes over the primitives that have a bounding box,
/// and beside it the primitives that have none.
#[derive(Debug, PartialEq, Eq)]
pub struct Octree {
    nodes: Vec<OctreeNode>,
    infinites: Vec<usize>,
}

impl Octree {
    #[verifier::type_invariant]
    spec fn sound(self) -> bool {
        well_formed(self.nodes@) && self.nodes@.len() >= 1
    }

    /// The nodes of the tree; the first is the root.
    pub closed spec fn nodes(&self) -> Seq<OctreeNode> {
        self.nodes@
    }

    /// The primitives without a bounding box, which every query hands out.
    pub closed spec fn unbounded(&self) -> Seq<usize> {
        self.infinites@
    }

    /// Whether some leaf notes `e`.
    pub open spec fn lists(&self, e: OctreeData) -> bool {
        listed(self.nodes(), e)
    }

    /// Whether `index` is one that a query can hand out: that of a primitive
    /// without a box, or of one that some leaf notes.
    pub open spec fn names(&self, index: usize) -> bool {
        self.unbounded().contains(index) || exists|e: OctreeData|
            #[trigger] self.lists(e) && e.index == index
    }

    /// Whether the tree leads to `e` from every point of the box of `e`: a
    /// walk from the root that follows the boxes holding the point can end at
    /// a leaf that notes `e`.
    pub open spec fn indexes(&self, e: OctreeData) -> bool {
        forall|p: Vec3| e.bbox.holds(p) ==> #[trigger] reaches(self.nodes(), 0, e, p)
    }

    /// Builds the index of the primitives whose bounding boxes are `boxes`,
    /// `None` standing for a primitive without one. The root is the union of
    /// the boxes, or the origin where there is none, and may be cut `depth`
    /// times on any way down. `split` says where to cut a box; a box is not
    /// cut where the answer lies outside it.
    ///
    /// The tree then leads to every primitive from every point of its box,
    /// notes no primitive but those given, and keeps those without a box in
    /// their order. It is cut wherever it can be: a leaf notes more than one
    /// primitive only where it may not be cut further, where `split` can
    /// answer a point outside its box, or where the list of nodes is full.
    pub fn build<F: Fn(&BBox) -> Vec3>(boxes: &Vec<Option<BBox>>, depth: u32, split: F) -> (tree:
        Octree)
        requires
            forall|b: &BBox| call_requires(split, (b,)),
        ensures
            forall|i: int|
                0 <= i < boxes@.len() ==> match #[trigger] boxes@[i] {
                    Some(b) => tree.indexes(OctreeData { bbox: b, index: i as usize }),
                    None => tree.unbounded().contains(i as usize),
                },
            forall|e: OctreeData| #[trigger]
                tree.lists(e) ==> e.index < boxes@.len() && boxes@[e.index as int] == Some(e.bbox),
            forall|j: int|
                0 <= j < tree.unbounded().len() ==> (#[trigger] tree.unbounded()[j]) < boxes@.len()
                    && boxes@[tree.unbounded()[j] as int] is None,
            forall|j: int, k: int|
                0 <= j < k < tree.unbounded().len() ==> (#[trigger] tree.unbounded()[j]) < (
                #[trigger] tree.unbounded()[k]),
            tree.nodes()[0].bbox == match BBox::union_of(boxes@) {
                Some(u) => u,
                None => BBox::origin(),
            },
            tree.nodes()[0].depth == depth,
            cut_where_possible(tree.nodes(), &split),
    {
        let bounds: BBox = match BBox::from_union(boxes) {
            Some(b) => b,
            None => BBox::zero(),
        };
        let mut nodes: Vec<OctreeNode> = Vec::new();
        nodes.push(empty_leaf(bounds, depth));
        let mut infinites: Vec<usize> = Vec::new();
        assert(node_ok(nodes@, 0));
        assert(settled(nodes@, &split, 0));
        assert forall|e: OctreeData| #[trigger] listed(nodes@, e) implies false by {
            let m = choose|m: int|
                0 <= m < nodes@.len() && nodes@[m].children@.len() == 0 && (
                #[trigger] nodes@[m].leaf_data@).contains(e);
        }
        let mut i: usize = 0;
        while i < boxes.len()
            invariant
                i <= boxes@.len(),
                forall|b: &BBox| call_requires(split, (b,)),
                well_formed(nodes@),
                cut_where_possible(nodes@, &split),
                nodes@.len() >= 1,
                nodes@[0].bbox == bounds,
                nodes@[0].depth == depth,
                BBox::union_of(boxes@) is Some ==> BBox::union_of(boxes@).unwrap() == bounds,
                forall|j: int, p: Vec3|
                    0 <= j < i && (#[trigger] boxes@[j]) is Some && boxes@[j].unwrap().holds(p)
                        ==> #[trigger] reaches(
                        nodes@,
                        0,
                        OctreeData { bbox: boxes@[j].unwrap(), index: j as usize },
                        p,
                    ),
                forall|j: int|
                    0 <= j < i && (#[trigger] boxes@[j]) is None ==> infinites@.contains(j as usize),
                forall|e: OctreeData| #[trigger]
                    listed(nodes@, e) ==> e.index < i && boxes@[e.index as int] == Some(e.bbox),
                forall|j: int|
                    0 <= j < infinites@.len() ==> (#[trigger] infinites@[j]) < i
                        && boxes@[infinites@[j] as int] is None,
                forall|j: int, k: int|
                    0 <= j < k < infinites@.len() ==> (#[trigger] infinites@[j]) < (
                    #[trigger] infinites@[k]),
            decreases boxes@.len() - i,
        {
            let ghost before = nodes@;
            let ghost unbounded_before = infinites@;
            match boxes[i] {
                Some(b) => {
                    let e = OctreeData { bbox: b, index: i };
                    insert(&mut nodes, 0, e, &split);
                    proof {
                        assert(kept(before, nodes@, 0));
                        assert forall|j: int, p: Vec3|
                            0 <= j < i + 1 && (#[trigger] boxes@[j]) is Some && boxes@[j].unwrap().holds(p)
                                implies #[trigger] reaches(
                            nodes@,
                            0,
                            OctreeData { bbox: boxes@[j].unwrap(), index: j as usize },
                            p,
                        ) by {
                            BBox::lemma_union_of_holds(boxes@, j, p);
                            let e2 = OctreeData { bbox: boxes@[j].unwrap(), index: j as usize };
                            if j < i {
                                lemma_grown_reaches(before, nodes@, 0, e2, p);
                            }
                        }
                    }
                },
                None => {
                    infinites.push(i);
                    proof {
                        assert(infinites@[infinites@.len() - 1] == i);
                        assert forall|j: int|
                            0 <= j < i + 1 && (#[trigger] boxes@[j]) is None
                                implies infinites@.contains(j as usize) by {
                            if j < i {
                                let w = choose|w: int|
                                    0 <= w < unbounded_before.len() && unbounded_before[w]
                                        == j as usize;
                                assert(infinites@[w] == j as usize);
                            }
                        }
                    }
                },
            }
            i = i + 1;
        }
        Octree { nodes, infinites }
    }

    /// The primitives that a ray may meet, given the test `hits` that says
    /// whether the ray hits a box: every primitive without a box, then what a
    /// walk from the root finds that goes only into boxes that pass the test
    /// and takes from a leaf the primitives whose own boxes pass it. A
    /// primitive may come more than once, and in no order of distance.
    ///
    /// What comes after the primitives without a box was found by such a
    /// walk, and whatever such a walk must find is there: a primitive in a
    /// leaf to which only boxes lead that the test cannot refuse, its own
    /// among them. So no primitive is lost: if `hits` says yes to every box
    /// that holds some point `p`, every primitive whose box holds `p` is
    /// handed out.
    pub fn intersect<F: Fn(&BBox) -> bool>(&self, hits: &F) -> (out: Vec<usize>)
        requires
            forall|b: &BBox| call_requires(*hits, (b,)),
        ensures
            self.unbounded().is_prefix_of(out@),
            forall|i: int|
                self.unbounded().len() <= i < out@.len() ==> accepted(
                    self.nodes(),
                    hits,
                    #[trigger] out@[i],
                ),
            forall|e: OctreeData|
                #[trigger] walks_to(self.nodes(), 0, always_yes(hits), e) && always_yes(hits)(
                    e.bbox,
                ) ==> out@.contains(e.index),
            forall|e: OctreeData, p: Vec3|
                self.indexes(e) && #[trigger] e.bbox.holds(p) && never_misses(hits, p)
                    ==> out@.contains(e.index),
    {
        proof {
            use_type_invariant(self);
        }
        let mut out: Vec<usize> = Vec::new();
        let mut j: usize = 0;
        while j < self.infinites.len()
            invariant
                j <= self.infinites@.len(),
                out@ == self.infinites@.take(j as int),
            decreases self.infinites@.len() - j,
        {
            out.push(self.infinites[j]);
            assert(out@ =~= self.infinites@.take(j + 1));
            j = j + 1;
        }
        assert(self.infinites@.take(j as int) =~= self.infinites@);
        collect(&self.nodes, 0, hits, &mut out);
        proof {
            assert(self.unbounded() =~= out@.subrange(0, self.unbounded().len() as int));
            assert forall|e: OctreeData, p: Vec3|
                self.indexes(e) && #[trigger] e.bbox.holds(p) && never_misses(
                    hits,
                    p,
                ) implies out@.contains(e.index) by {
                assert(reaches(self.nodes(), 0, e, p));
                lemma_reaches_walks(self.nodes(), 0, e, p, always_yes(hits));
            }
        }
        out
    }

    /// How many nodes the tree has.
    pub fn node_count(&self) -> (n: usize)
        ensures
            n == self.nodes().len(),
            n >= 1,
    {
        proof {
            use_type_invariant(self);
        }
        self.nodes.len()
    }

    /// The box of the root: the union of the boxes of the primitives.
    pub fn bounds(&self) -> (b: BBox)
        ensures
            b == self.nodes()[0].bbox,
    {
        proof {
            use_type_invariant(self);
        }
        self.nodes[0].bbox
    }
}

} // verus!
