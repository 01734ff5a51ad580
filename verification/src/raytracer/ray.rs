//! Rays and the search for the nearest intersection along one.

use crate::geometry::bbox::BBox;
use crate::raytracer::intersection::Intersection;
use crate::raytracer::octree::{
    always_yes, lemma_walks_to_listed, lemma_walks_to_wider, says_yes, walks_to, OctreeData,
    OctreeNode,
};
use crate::scalar::{Scalar, INFINITY_BITS};
use crate::scene::Scene;
use crate::vec3::Vec3;
use vstd::prelude::*;

verus! {

/// The encoding of 0.000001, the least distance at which a hit counts. It
/// keeps a ray that leaves a surface from hitting that surface again.
pub const T_MIN_BITS: u64 = 0x3EB0_C6F7_A0B5_ED8D;

/// A half line: where it starts, where it goes, the reciprocal of each
/// component of the direction, and for each axis whether that reciprocal is
/// above zero. A box test reads the last two in place of dividing.
#[derive(Clone, Copy, Debug, PartialEq, Eq)]
pub struct Ray {
    pub origin: Vec3,
    pub direction: Vec3,
    pub inverse_dir: Vec3,
    pub signs: [bool; 3],
}

/// The least distance at which a hit counts.
pub open spec fn t_min() -> Scalar {
    Scalar { bits: T_MIN_BITS }
}

/// Whether a hit at distance `t` counts when the nearest so far is at
/// `t_max`: strictly between the least distance and `t_max`.
pub open spec fn in_reach(t: Scalar, t_max: Scalar) -> bool {
    t_min().below(t) && t.below(t_max)
}

/// The state of a search: the nearest hit found so far, and the distance
/// that the next hit has to stay below.
#[derive(Clone, Copy, Debug, PartialEq, Eq)]
pub struct NearestHit {
    pub hit: Option<Intersection>,
    pub t_max: Scalar,
}

impl NearestHit {
    /// The search before any candidate: no hit, and any finite distance is in
    /// reach.
    pub open spec fn start() -> NearestHit {
        NearestHit { hit: None, t_max: Scalar::infinity() }
    }

    /// The search after one more candidate. A candidate that missed, or hit
    /// out of reach, changes nothing; a hit in reach becomes the nearest.
    pub open spec fn offered(self, candidate: Option<Intersection>) -> NearestHit {
        match candidate {
            Some(i) if in_reach(i.t, self.t_max) => NearestHit { hit: Some(i), t_max: i.t },
            _ => self,
        }
    }

    /// The search after all of `candidates`, in their order.
    pub open spec fn after(candidates: Seq<Option<Intersection>>) -> NearestHit
        decreases candidates.len(),
    {
        if candidates.len() == 0 {
            NearestHit::start()
        } else {
            NearestHit::after(candidates.drop_last()).offered(candidates.last())
        }
    }

    /// A search holds a hit exactly when it has brought `t_max` down to the
    /// distance of that hit, which is in reach of any larger distance.
    pub open spec fn well_formed(self) -> bool {
        match self.hit {
            Some(i) => self.t_max == i.t && in_reach(i.t, Scalar::infinity()),
            None => self.t_max == Scalar::infinity(),
        }
    }

    /// Starts a search.
    pub fn new() -> (s: NearestHit)
        ensures
            s == NearestHit::start(),
    {
        NearestHit { hit: None, t_max: Scalar::from_bits(INFINITY_BITS) }
    }

    /// Takes what one more primitive gave for the ray, asked for a hit
    /// between the least distance and `t_max`.
    pub fn offer(self, candidate: Option<Intersection>) -> (s: NearestHit)
        ensures
            s == self.offered(candidate),
    {
        match candidate {
            Some(i) => {
                if i.t.gt(Scalar::from_bits(T_MIN_BITS)) && i.t.lt(self.t_max) {
                    NearestHit { hit: Some(i), t_max: i.t }
                } else {
                    self
                }
            },
            None => self,
        }
    }
}


/// Whether the box test `hits` may be asked about a ray and a box.
pub open spec fn may_ask<F: Fn(&Ray, &BBox) -> bool>(hits: &F, ray: &Ray, b: &BBox) -> bool {
    call_requires(*hits, (ray, b))
}

/// Whether the box test `hits` can answer `r` for a ray and a box.
pub open spec fn can_answer<F: Fn(&Ray, &BBox) -> bool>(
    hits: &F,
    ray: &Ray,
    b: &BBox,
    r: bool,
) -> bool {
    call_ensures(*hits, (ray, b), r)
}

/// Whether a candidate is a hit that counts on its own: in reach of every
/// finite distance.
pub open spec fn counts(candidate: Option<Intersection>) -> bool {
    candidate matches Some(i) && in_reach(i.t, Scalar::infinity())
}

/// A hit in reach of some distance counts on its own, and a hit that counts
/// is in reach of any distance above it.
proof fn lemma_in_reach(t: Scalar, t_max: Scalar)
    ensures
        in_reach(t, t_max) ==> in_reach(t, Scalar::infinity()),
        in_reach(t, Scalar::infinity()) && !in_reach(t, t_max) && !t_max.nan() ==> t_max.at_most(t),
{
}

/// A search is well formed after any candidates.
pub proof fn lemma_search_well_formed(candidates: Seq<Option<Intersection>>)
    ensures
        NearestHit::after(candidates).well_formed(),
    decreases candidates.len(),
{
    if candidates.len() > 0 {
        lemma_search_well_formed(candidates.drop_last());
    }
}

/// The hit that a search ends with is one of the candidates, counts, lies
/// strictly nearer than every candidate before it that counts, and no
/// candidate that counts lies nearer. Where no candidate counts the search
/// ends without a hit, and only there.
pub proof fn lemma_nearest_hit_is_nearest(candidates: Seq<Option<Intersection>>)
    ensures
        NearestHit::after(candidates).hit matches Some(h) ==> exists|i: int|
            {
                &&& 0 <= i < candidates.len()
                &&& #[trigger] candidates[i] == Some(h)
                &&& counts(candidates[i])
                &&& forall|j: int|
                    0 <= j < i && counts(#[trigger] candidates[j]) ==> h.t.below(
                        candidates[j].unwrap().t,
                    )
            },
        forall|j: int|
            0 <= j < candidates.len() && counts(#[trigger] candidates[j]) ==> {
                &&& NearestHit::after(candidates).hit is Some
                &&& NearestHit::after(candidates).hit.unwrap().t.at_most(candidates[j].unwrap().t)
            },
        NearestHit::after(candidates).hit is None <==> forall|j: int|
            0 <= j < candidates.len() ==> !counts(#[trigger] candidates[j]),
    decreases candidates.len(),
{
    if candidates.len() > 0 {
        let before = candidates.drop_last();
        let last = candidates.last();
        let n = before.len() as int;
        let s = NearestHit::after(before);
        let r = NearestHit::after(candidates);
        lemma_nearest_hit_is_nearest(before);
        lemma_search_well_formed(before);
        lemma_search_well_formed(candidates);
        assert(r == s.offered(last));
        assert(forall|j: int| 0 <= j < n ==> before[j] == candidates[j]);
        if let Some(i) = last {
            lemma_in_reach(i.t, s.t_max);
        }
        if r == s {
            if let Some(h) = r.hit {
                let i = choose|i: int|
                    {
                        &&& 0 <= i < before.len()
                        &&& #[trigger] before[i] == Some(h)
                        &&& counts(before[i])
                        &&& forall|j: int|
                            0 <= j < i && counts(#[trigger] before[j]) ==> h.t.below(
                                before[j].unwrap().t,
                            )
                    };
                assert(candidates[i] == Some(h));
                assert forall|j: int| 0 <= j < i && counts(#[trigger] candidates[j]) implies h.t.below(
                    candidates[j].unwrap().t,
                ) by {
                    assert(before[j] == candidates[j]);
                }
            }
            assert forall|j: int|
                0 <= j < candidates.len() && counts(#[trigger] candidates[j]) implies {
                &&& r.hit is Some
                &&& r.hit.unwrap().t.at_most(candidates[j].unwrap().t)
            } by {
                if j < n {
                    assert(before[j] == candidates[j]);
                }
            }
            if r.hit is None {
                assert forall|j: int| 0 <= j < candidates.len() implies !counts(
                    #[trigger] candidates[j],
                ) by {
                    if j < n {
                        assert(before[j] == candidates[j]);
                    }
                }
            }
        } else {
            let h = last.unwrap();
            assert(r.hit == Some(h));
            assert(candidates[n] == Some(h));
            assert forall|j: int| 0 <= j < n && counts(#[trigger] candidates[j]) implies h.t.below(
                candidates[j].unwrap().t,
            ) by {
                assert(before[j] == candidates[j]);
            }
            assert forall|j: int|
                0 <= j < candidates.len() && counts(#[trigger] candidates[j]) implies {
                &&& r.hit is Some
                &&& r.hit.unwrap().t.at_most(candidates[j].unwrap().t)
            } by {
                if j < n {
                    assert(before[j] == candidates[j]);
                }
            }
            assert(counts(candidates[n]));
        }
    }
}

/// A search over candidates that all missed ends without a hit.
pub proof fn lemma_no_candidate_no_hit(candidates: Seq<Option<Intersection>>)
    requires
        forall|j: int| 0 <= j < candidates.len() ==> candidates[j] is None,
    ensures
        NearestHit::after(candidates).hit is None,
{
    lemma_nearest_hit_is_nearest(candidates);
}

/// Whether two lists of candidates hold the same hits that count, whatever
/// their order, their repetitions and the candidates among them that missed.
pub open spec fn same_hits(a: Seq<Option<Intersection>>, b: Seq<Option<Intersection>>) -> bool {
    &&& forall|i: int| 0 <= i < a.len() && counts(#[trigger] a[i]) ==> b.contains(a[i])
    &&& forall|i: int| 0 <= i < b.len() && counts(#[trigger] b[i]) ==> a.contains(b[i])
}

/// Whether no two different hits that count lie at the same distance.
pub open spec fn no_ties(a: Seq<Option<Intersection>>) -> bool {
    forall|i: int, j: int|
        0 <= i < a.len() && 0 <= j < a.len() && counts(#[trigger] a[i]) && counts(#[trigger] a[j])
            && a[i].unwrap().t == a[j].unwrap().t ==> a[i] == a[j]
}

/// Whether `answers` are what primitives gave that were asked with the bound
/// of the search so far, where `full` is what they give asked without a
/// bound: each answer is the full one, or the bound made the difference and
/// neither is in reach of it.
pub open spec fn steady(
    answers: Seq<Option<Intersection>>,
    full: Seq<Option<Intersection>>,
) -> bool {
    &&& answers.len() == full.len()
    &&& forall|k: int|
        0 <= k < answers.len() ==> #[trigger] answers[k] == full[k] || {
            let bound = NearestHit::after(answers.take(k)).t_max;
            &&& !(answers[k] matches Some(i) && in_reach(i.t, bound))
            &&& !(full[k] matches Some(i) && in_reach(i.t, bound))
        }
}

/// The distance of the nearest hit does not depend on the order of the
/// candidates, nor on candidates that missed: two searches over the same
/// hits that count end at the same distance, and either both with a hit or
/// both without.
pub proof fn lemma_nearest_distance_ignores_order(
    a: Seq<Option<Intersection>>,
    b: Seq<Option<Intersection>>,
)
    requires
        same_hits(a, b),
    ensures
        NearestHit::after(a).t_max == NearestHit::after(b).t_max,
        NearestHit::after(a).hit is Some <==> NearestHit::after(b).hit is Some,
{
    let ra = NearestHit::after(a);
    let rb = NearestHit::after(b);
    lemma_nearest_hit_is_nearest(a);
    lemma_nearest_hit_is_nearest(b);
    lemma_search_well_formed(a);
    lemma_search_well_formed(b);
    if let Some(h) = ra.hit {
        let i = choose|i: int| 0 <= i < a.len() && #[trigger] a[i] == Some(h) && counts(a[i]);
        assert(b.contains(a[i]));
        let j = choose|j: int| 0 <= j < b.len() && b[j] == a[i];
        assert(counts(b[j]));
    }
    if let Some(h) = rb.hit {
        let i = choose|i: int| 0 <= i < b.len() && #[trigger] b[i] == Some(h) && counts(b[i]);
        assert(a.contains(b[i]));
        let j = choose|j: int| 0 <= j < a.len() && a[j] == b[i];
        assert(counts(a[j]));
    }
    if ra.hit is Some && rb.hit is Some {
        let ta = ra.hit.unwrap().t;
        let tb = rb.hit.unwrap().t;
        assert(ta.at_most(tb) && tb.at_most(ta));
        assert(ta.rank() == tb.rank());
        assert(t_min().rank() > 0);
        assert(ta.bits == tb.bits);
    }
}

/// The nearest hit does not depend on the order of the candidates, nor on
/// candidates that missed, where no two different hits lie at the same
/// distance: two searches over the same hits that count end with the same
/// hit. At equal distances the first asked wins, so there the order shows.
pub proof fn lemma_nearest_hit_ignores_order(
    a: Seq<Option<Intersection>>,
    b: Seq<Option<Intersection>>,
)
    requires
        same_hits(a, b),
        no_ties(a),
    ensures
        NearestHit::after(a) == NearestHit::after(b),
{
    let ra = NearestHit::after(a);
    let rb = NearestHit::after(b);
    lemma_nearest_distance_ignores_order(a, b);
    lemma_nearest_hit_is_nearest(a);
    lemma_nearest_hit_is_nearest(b);
    lemma_search_well_formed(a);
    lemma_search_well_formed(b);
    if ra.hit is Some {
        let ha = ra.hit.unwrap();
        let hb = rb.hit.unwrap();
        let i = choose|i: int| 0 <= i < a.len() && #[trigger] a[i] == Some(ha) && counts(a[i]);
        let j = choose|j: int| 0 <= j < b.len() && #[trigger] b[j] == Some(hb) && counts(b[j]);
        assert(a.contains(b[j]));
        let k = choose|k: int| 0 <= k < a.len() && a[k] == b[j];
        assert(counts(a[k]));
        assert(a[i] == a[k]);
    }
}

/// A candidate that missed, or hit where it does not count, changes
/// nothing, wherever it stands among the others.
pub proof fn lemma_miss_changes_nothing(
    before: Seq<Option<Intersection>>,
    miss: Option<Intersection>,
    behind: Seq<Option<Intersection>>,
)
    requires
        !counts(miss),
    ensures
        NearestHit::after(before.push(miss) + behind) == NearestHit::after(before + behind),
    decreases behind.len(),
{
    let with = before.push(miss) + behind;
    let without = before + behind;
    if behind.len() == 0 {
        assert(with =~= before.push(miss));
        assert(without =~= before);
        assert(with.drop_last() =~= before);
        if let Some(i) = miss {
            lemma_in_reach(i.t, NearestHit::after(before).t_max);
        }
    } else {
        lemma_miss_changes_nothing(before, miss, behind.drop_last());
        assert(with.drop_last() =~= before.push(miss) + behind.drop_last());
        assert(without.drop_last() =~= before + behind.drop_last());
        assert(with.last() == behind.last());
        assert(without.last() == behind.last());
    }
}

/// Asking with the bound of the search so far changes nothing: the search
/// over answers that are steady ends as the search over the full answers.
pub proof fn lemma_bound_changes_nothing(
    answers: Seq<Option<Intersection>>,
    full: Seq<Option<Intersection>>,
)
    requires
        steady(answers, full),
    ensures
        NearestHit::after(answers) == NearestHit::after(full),
    decreases answers.len(),
{
    if answers.len() > 0 {
        let n = answers.len() - 1;
        let shorter = answers.drop_last();
        let fuller = full.drop_last();
        assert forall|k: int| 0 <= k < shorter.len() implies #[trigger] shorter[k] == fuller[k] || {
            let bound = NearestHit::after(shorter.take(k)).t_max;
            &&& !(shorter[k] matches Some(i) && in_reach(i.t, bound))
            &&& !(fuller[k] matches Some(i) && in_reach(i.t, bound))
        } by {
            assert(shorter.take(k) =~= answers.take(k));
            assert(answers[k] == full[k] || {
                let bound = NearestHit::after(answers.take(k)).t_max;
                &&& !(answers[k] matches Some(i) && in_reach(i.t, bound))
                &&& !(full[k] matches Some(i) && in_reach(i.t, bound))
            });
        }
        lemma_bound_changes_nothing(shorter, fuller);
        assert(answers.take(n) =~= shorter);
        assert(answers[n] == full[n] || {
            let bound = NearestHit::after(answers.take(n)).t_max;
            &&& !(answers[n] matches Some(i) && in_reach(i.t, bound))
            &&& !(full[n] matches Some(i) && in_reach(i.t, bound))
        });
    } else {
        assert(full =~= answers);
    }
}

/// Two searches for the nearest hit of one ray end with the same hit where
/// the primitives that were asked answer steadily, the full answers hold the
/// same hits that count, and no two different hits lie at the same distance.
/// So neither the order in which primitives stand in the index, nor the
/// primitives that the index names in vain, show in the result.
pub proof fn lemma_same_hits_same_nearest(
    answers_a: Seq<Option<Intersection>>,
    full_a: Seq<Option<Intersection>>,
    answers_b: Seq<Option<Intersection>>,
    full_b: Seq<Option<Intersection>>,
)
    requires
        steady(answers_a, full_a),
        steady(answers_b, full_b),
        same_hits(full_a, full_b),
        no_ties(full_a),
    ensures
        NearestHit::after(answers_a).hit == NearestHit::after(answers_b).hit,
{
    lemma_bound_changes_nothing(answers_a, full_a);
    lemma_bound_changes_nothing(answers_b, full_b);
    lemma_nearest_hit_ignores_order(full_a, full_b);
}

impl Ray {
    /// Whether each sign says that the reciprocal on its axis is above zero.
    pub open spec fn well_formed(&self) -> bool {
        &&& self.signs@[0] == Scalar::zero().below(self.inverse_dir.x)
        &&& self.signs@[1] == Scalar::zero().below(self.inverse_dir.y)
        &&& self.signs@[2] == Scalar::zero().below(self.inverse_dir.z)
    }

    /// The ray from `origin` along `direction`. The caller divides: it hands
    /// in `inverse_dir`, the reciprocal of each component of the direction,
    /// which is infinite where the component is zero.
    pub fn new(origin: Vec3, direction: Vec3, inverse_dir: Vec3) -> (ray: Ray)
        ensures
            ray.origin == origin,
            ray.direction == direction,
            ray.inverse_dir == inverse_dir,
            ray.well_formed(),
    {
        let zero = Scalar::from_bits(0);
        Ray {
            origin,
            direction,
            inverse_dir,
            signs: [inverse_dir.x.gt(zero), inverse_dir.y.gt(zero), inverse_dir.z.gt(zero)],
        }
    }

    /// Whether the box test `hits` never says no, for this ray, to a box
    /// that holds the point `p`.
    pub open spec fn never_misses<F: Fn(&Ray, &BBox) -> bool>(&self, hits: &F, p: Vec3) -> bool {
        forall|b: BBox, r: bool| b.holds(p) && #[trigger] call_ensures(*hits, (self, &b), r) ==> r
    }

    /// The boxes to which the test `hits` can say yes for this ray.
    pub open spec fn says_yes<F: Fn(&Ray, &BBox) -> bool>(&self, hits: &F) -> spec_fn(BBox) -> bool {
        |b: BBox| call_ensures(*hits, (self, &b), true)
    }

    /// The boxes to which the test `hits` cannot say no for this ray.
    pub open spec fn always_yes<F: Fn(&Ray, &BBox) -> bool>(&self, hits: &F) -> spec_fn(
        BBox,
    ) -> bool {
        |b: BBox| forall|r: bool| #[trigger] call_ensures(*hits, (self, &b), r) ==> r
    }

    /// Whether `index` belongs to a primitive that a walk from the root of
    /// `nodes` finds for this ray under the test `hits`: the walk goes only
    /// into boxes that the test accepted and comes to a leaf that notes the
    /// primitive, whose own box the test accepted too.
    pub open spec fn accepted<F: Fn(&Ray, &BBox) -> bool>(
        &self,
        nodes: Seq<OctreeNode>,
        hits: &F,
        index: usize,
    ) -> bool {
        exists|e: OctreeData|
            #[trigger] walks_to(nodes, 0, self.says_yes(hits), e) && e.index == index
                && call_ensures(*hits, (self, &e.bbox), true)
    }

    /// Whether `asked` can be the primitives that the index of `scene` hands
    /// out for this ray under the box test `hits`: the primitives without a
    /// box come first, each of the others was found by a walk through boxes
    /// that passed the test, and among them is every primitive to which only
    /// boxes lead that the test cannot refuse for this ray, so every
    /// primitive whose box holds a point at which the test never misses.
    pub open spec fn candidates<F: Fn(&Ray, &BBox) -> bool>(
        &self,
        scene: &Scene,
        hits: &F,
        asked: Seq<usize>,
    ) -> bool {
        &&& scene.octree.unbounded().is_prefix_of(asked)
        &&& forall|e: OctreeData|
            #[trigger] walks_to(scene.octree.nodes(), 0, self.always_yes(hits), e)
                && self.always_yes(hits)(e.bbox) ==> asked.contains(e.index)
        &&& forall|e: OctreeData, p: Vec3|
            scene.octree.indexes(e) && #[trigger] e.bbox.holds(p) && self.never_misses(hits, p)
                ==> asked.contains(e.index)
        &&& forall|k: int|
            scene.octree.unbounded().len() <= k < asked.len() ==> self.accepted(
                scene.octree.nodes(),
                hits,
                #[trigger] asked[k],
            )
    }

    /// Whether `answers` can be what the primitives `asked` gave in turn,
    /// each asked for a hit between the least distance and the distance of
    /// the nearest hit among the answers before.
    pub open spec fn answered<G: Fn(&Ray, usize, Scalar, Scalar) -> Option<Intersection>>(
        &self,
        intersects: &G,
        asked: Seq<usize>,
        answers: Seq<Option<Intersection>>,
    ) -> bool {
        &&& answers.len() == asked.len()
        &&& forall|k: int|
            0 <= k < asked.len() ==> call_ensures(
                *intersects,
                (self, #[trigger] asked[k], t_min(), NearestHit::after(answers.take(k)).t_max),
                answers[k],
            )
    }

    /// The nearest hit of this ray in a scene.
    ///
    /// The index of the scene names the primitives that the ray may meet,
    /// going by the box test `hits`. Each of them is asked through
    /// `intersects` where the ray meets it between the least distance and the
    /// nearest hit so far, and the nearest answer is kept: the first one at
    /// the least distance that counts, or `None` when none counts. Only
    /// primitives that the index names are ever asked.
    ///
    /// The tests are the caller's, so the result is stated for whatever they
    /// answered: there are primitives `asked` and answers of theirs such that
    /// the result is where the search over the answers ends. A ray for which
    /// the box test refuses the box of every primitive, in a scene where
    /// every primitive has a box, has no hit.
    pub fn get_nearest_hit<F, G>(&self, scene: &Scene, hits: &F, intersects: &G) -> (hit: Option<
        Intersection,
    >) where
        F: Fn(&Ray, &BBox) -> bool,
        G: Fn(&Ray, usize, Scalar, Scalar) -> Option<Intersection>,

        requires
            forall|b: &BBox| call_requires(*hits, (self, b)),
            forall|i: usize, lo: Scalar, hi: Scalar|
                scene.octree.names(i) ==> call_requires(*intersects, (self, i, lo, hi)),
        ensures
            exists|asked: Seq<usize>, answers: Seq<Option<Intersection>>|
                {
                    &&& self.candidates(scene, hits, asked)
                    &&& #[trigger] self.answered(intersects, asked, answers)
                    &&& hit == NearestHit::after(answers).hit
                },
            scene.octree.unbounded().len() == 0 && (forall|e: OctreeData| #[trigger]
                scene.octree.lists(e) ==> !call_ensures(*hits, (self, &e.bbox), true)) ==> hit
                is None,
            hit is Some ==> counts(hit),
    {
        let test = |b: &BBox| -> (r: bool)
            requires
                may_ask(hits, self, b),
            ensures
                can_answer(hits, self, b, r),
            { hits(self, b) };
        let asked: Vec<usize> = scene.octree.intersect(&test);
        proof {
            assert forall|e: OctreeData|
                #[trigger] walks_to(scene.octree.nodes(), 0, self.always_yes(hits), e)
                    && self.always_yes(hits)(e.bbox) implies asked@.contains(e.index) by {
                assert forall|b: BBox| #[trigger] self.always_yes(hits)(b) implies always_yes(
                    &test,
                )(b) by {
                    assert forall|r: bool| #[trigger] call_ensures(test, (&b,), r) implies r by {
                        assert(can_answer(hits, self, &b, r));
                    }
                }
                lemma_walks_to_wider(
                    scene.octree.nodes(),
                    0,
                    self.always_yes(hits),
                    always_yes(&test),
                    e,
                );
            }
            assert forall|e: OctreeData, p: Vec3|
                scene.octree.indexes(e) && #[trigger] e.bbox.holds(p) && self.never_misses(
                    hits,
                    p,
                ) implies asked@.contains(e.index) by {
                assert forall|b: BBox, r: bool|
                    b.holds(p) && #[trigger] call_ensures(test, (&b,), r) implies r by {
                    assert(call_ensures(*hits, (self, &b), r));
                }
            }
            assert forall|k: int|
                scene.octree.unbounded().len() <= k < asked@.len() implies self.accepted(
                scene.octree.nodes(),
                hits,
                #[trigger] asked@[k],
            ) by {
                let e = choose|e: OctreeData|
                    #[trigger] walks_to(scene.octree.nodes(), 0, says_yes(&test), e) && e.index
                        == asked@[k] && call_ensures(test, (&e.bbox,), true);
                assert forall|b: BBox| #[trigger] says_yes(&test)(b) implies self.says_yes(hits)(
                    b,
                ) by {
                    assert(can_answer(hits, self, &b, true));
                }
                lemma_walks_to_wider(
                    scene.octree.nodes(),
                    0,
                    says_yes(&test),
                    self.says_yes(hits),
                    e,
                );
                assert(call_ensures(*hits, (self, &e.bbox), true));
            }
            assert(self.candidates(scene, hits, asked@));
            assert forall|k: int| 0 <= k < asked@.len() implies scene.octree.names(
                #[trigger] asked@[k],
            ) by {
                if k < scene.octree.unbounded().len() {
                    assert(asked@[k] == scene.octree.unbounded()[k]);
                } else {
                    let e = choose|e: OctreeData|
                        #[trigger] walks_to(scene.octree.nodes(), 0, self.says_yes(hits), e)
                            && e.index == asked@[k] && call_ensures(*hits, (self, &e.bbox), true);
                    lemma_walks_to_listed(scene.octree.nodes(), 0, self.says_yes(hits), e);
                    assert(scene.octree.lists(e));
                }
            }
        }
        let least = Scalar::from_bits(T_MIN_BITS);
        let mut search = NearestHit::new();
        let ghost mut answers: Seq<Option<Intersection>> = Seq::empty();
        let mut k: usize = 0;
        while k < asked.len()
            invariant
                k <= asked@.len(),
                least == t_min(),
                forall|j: int| 0 <= j < asked@.len() ==> scene.octree.names(#[trigger] asked@[j]),
                forall|i: usize, lo: Scalar, hi: Scalar|
                    scene.octree.names(i) ==> call_requires(*intersects, (self, i, lo, hi)),
                answers.len() == k,
                search == NearestHit::after(answers),
                forall|j: int|
                    0 <= j < k ==> call_ensures(
                        *intersects,
                        (
                            self,
                            #[trigger] asked@[j],
                            t_min(),
                            NearestHit::after(answers.take(j)).t_max,
                        ),
                        answers[j],
                    ),
            decreases asked@.len() - k,
        {
            let answer = intersects(self, asked[k], least, search.t_max);
            proof {
                let longer = answers.push(answer);
                assert(longer.drop_last() =~= answers);
                assert forall|j: int| 0 <= j < k + 1 implies call_ensures(
                    *intersects,
                    (self, #[trigger] asked@[j], t_min(), NearestHit::after(longer.take(j)).t_max),
                    longer[j],
                ) by {
                    if j < k {
                        assert(longer.take(j) =~= answers.take(j));
                    } else {
                        assert(longer.take(j) =~= answers);
                    }
                }
                answers = longer;
            }
            search = search.offer(answer);
            k = k + 1;
        }
        proof {
            lemma_search_well_formed(answers);
            assert(self.answered(intersects, asked@, answers));
            if scene.octree.unbounded().len() == 0 && (forall|e: OctreeData| #[trigger]
                scene.octree.lists(e) ==> !call_ensures(*hits, (self, &e.bbox), true)) {
                if asked@.len() > 0 {
                    assert(self.accepted(scene.octree.nodes(), hits, asked@[0]));
                    let e = choose|e: OctreeData|
                        #[trigger] walks_to(scene.octree.nodes(), 0, self.says_yes(hits), e)
                            && e.index == asked@[0] && call_ensures(*hits, (self, &e.bbox), true);
                    lemma_walks_to_listed(scene.octree.nodes(), 0, self.says_yes(hits), e);
                    assert(scene.octree.lists(e));
                }
                assert(answers =~= Seq::empty());
            }
        }
        search.hit
    }
}

impl NearestHit {
    /// The nearest of the hits that primitives gave for one ray, in the
    /// order in which they were asked: the first one at the least distance
    /// that counts, or `None` when none counts.
    pub fn nearest(candidates: &Vec<Option<Intersection>>) -> (hit: Option<Intersection>)
        ensures
            hit == NearestHit::after(candidates@).hit,
    {
        let mut search = NearestHit::new();
        let mut i: usize = 0;
        while i < candidates.len()
            invariant
                i <= candidates@.len(),
                search == NearestHit::after(candidates@.take(i as int)),
            decreases candidates@.len() - i,
        {
            proof {
                let next = candidates@.take(i + 1);
                assert(next.drop_last() =~= candidates@.take(i as int));
                assert(next.last() == candidates@[i as int]);
            }
            search = search.offer(candidates[i]);
            i = i + 1;
        }
        proof {
            assert(candidates@.take(i as int) =~= candidates@);
        }
        search.hit
    }
}

} // verus!
