//! The bounding-volume hierarchy: built once over a run of primitives,
//! which it reorders in place, then queried for the nearest hit of a ray.
use crate::aabb::{lemma_union_associative, lemma_union_identity, AxisAlignedBoundingBox};
use crate::split::{
    all_wf, lemma_prims_bounds, lemma_rearranged, prims_bounds, rearranged, run_bounds, subrun,
    Primitive, Split,
};
use vstd::prelude::*;

verus! {

/// A node of the hierarchy over the primitives `start..end`.
pub struct Bvh {
    pub bounds: AxisAlignedBoundingBox,
    pub start: usize,
    pub end: usize,
    pub contents: BvhContents,
    /// The run as it stood when the strategy was asked about it.
    pub run: Ghost<Seq<Primitive>>,
}

pub enum BvhContents {
    /// Two children: the first over `start..k`, the second over `k..end`.
    Node { left: Box<Bvh>, right: Box<Bvh> },
    /// The primitives `start..end` themselves.
    Leaf,
}

impl Bvh {
    /// Every node covers a non-empty run, has as box the union of that run's
    /// boxes, and an interior node's children cover the two halves of its run.
    pub open spec fn wf(self, prims: Seq<Primitive>) -> bool
        decreases self,
    {
        &&& self.start < self.end <= prims.len()
        &&& self.bounds == prims_bounds(prims.subrange(self.start as int, self.end as int))
        &&& match self.contents {
            BvhContents::Leaf => true,
            BvhContents::Node { left, right } => {
                &&& left.start == self.start
                &&& left.end == right.start
                &&& right.end == self.end
                &&& left.wf(prims)
                &&& right.wf(prims)
            },
        }
    }
}

impl Bvh {
    /// The tree records the answers of `method`: every node holds the
    /// elements of its run; a leaf is a run the strategy keeps whole, left as
    /// it was when asked; an interior node is a run the strategy cut.
    pub open spec fn follows<T: Split>(self, method: &T, prims: Seq<Primitive>) -> bool
        decreases self,
    {
        &&& self.run@.to_multiset() == prims.subrange(self.start as int, self.end as int).to_multiset()
        &&& match self.contents {
            BvhContents::Leaf => {
                &&& method.declines(self.run@)
                &&& self.run@ == prims.subrange(self.start as int, self.end as int)
            },
            BvhContents::Node { left, right } => {
                &&& !method.declines(self.run@)
                &&& left.follows(method, prims)
                &&& right.follows(method, prims)
            },
        }
    }
}

/// A tree keeps following its strategy when nothing changes within its run.
pub proof fn lemma_follows_frame<T: Split>(t: &Bvh, method: &T, a: Seq<Primitive>, b: Seq<Primitive>)
    requires
        t.wf(a),
        t.follows(method, a),
        b.len() == a.len(),
        forall|i: int| t.start <= i < t.end ==> b[i] == a[i],
    ensures
        t.follows(method, b),
    decreases t,
{
    assert(b.subrange(t.start as int, t.end as int) =~= a.subrange(t.start as int, t.end as int));
    match &t.contents {
        BvhContents::Leaf => {},
        BvhContents::Node { left, right } => {
            assert(left.wf(a) && right.wf(a));
            assert(left.start < left.end && right.start < right.end);
            lemma_follows_frame(left, method, a, b);
            lemma_follows_frame(right, method, a, b);
        },
    }
}

/// The union of the boxes of `s + t` is the union of the two unions.
pub proof fn lemma_prims_bounds_concat(s: Seq<Primitive>, t: Seq<Primitive>)
    ensures
        prims_bounds(s + t) == prims_bounds(s).spec_union_box(prims_bounds(t)),
    decreases t.len(),
{
    if t.len() == 0 {
        assert(s + t =~= s);
        lemma_union_identity(prims_bounds(s));
    } else {
        assert((s + t).drop_last() =~= s + t.drop_last());
        lemma_prims_bounds_concat(s, t.drop_last());
        lemma_union_associative(prims_bounds(s), prims_bounds(t.drop_last()), t.last().bounds);
    }
}

/// A tree stays well formed when nothing changes within its run.
pub proof fn lemma_wf_frame(t: &Bvh, a: Seq<Primitive>, b: Seq<Primitive>)
    requires
        t.wf(a),
        b.len() == a.len(),
        forall|i: int| t.start <= i < t.end ==> b[i] == a[i],
    ensures
        t.wf(b),
    decreases t,
{
    assert(b.subrange(t.start as int, t.end as int) =~= a.subrange(t.start as int, t.end as int));
    match &t.contents {
        BvhContents::Leaf => {},
        BvhContents::Node { left, right } => {
            assert(left.wf(a) && right.wf(a));
            assert(left.start < left.end && right.start < right.end);
            lemma_wf_frame(left, a, b);
            lemma_wf_frame(right, a, b);
        },
    }
}

/// Rearranging `start..k`, then `k..end`, rearranges `start..end`.
proof fn lemma_rearranged_halves(
    p0: Seq<Primitive>,
    p1: Seq<Primitive>,
    p2: Seq<Primitive>,
    start: int,
    k: int,
    end: int,
)
    requires
        0 <= start <= k <= end <= p0.len(),
        rearranged(p0, p1, start, k),
        rearranged(p1, p2, k, end),
    ensures
        rearranged(p0, p2, start, end),
{
    assert(p0.subrange(start, end) =~= p0.subrange(start, k) + p0.subrange(k, end));
    assert(p2.subrange(start, end) =~= p2.subrange(start, k) + p2.subrange(k, end));
    assert(p2.subrange(start, k) =~= p1.subrange(start, k));
    assert(p1.subrange(k, end) =~= p0.subrange(k, end));
    vstd::seq_lib::lemma_multiset_commutative(p0.subrange(start, k), p0.subrange(k, end));
    vstd::seq_lib::lemma_multiset_commutative(p2.subrange(start, k), p2.subrange(k, end));
}

/// Rearranging a run twice rearranges it.
proof fn lemma_rearranged_twice(
    p0: Seq<Primitive>,
    p1: Seq<Primitive>,
    p2: Seq<Primitive>,
    start: int,
    end: int,
)
    requires
        0 <= start <= end <= p0.len(),
        rearranged(p0, p1, start, end),
        rearranged(p1, p2, start, end),
    ensures
        rearranged(p0, p2, start, end),
{
}

impl Bvh {
    /// Builds the hierarchy over all of `prims`, which it reorders, with a
    /// node for each run that `method` cuts and a leaf for each run it keeps
    /// whole.
    pub fn build<T: Split>(prims: &mut Vec<Primitive>, method: &T) -> (r: Bvh)
        requires
            0 < old(prims)@.len() <= u32::MAX,
            all_wf(old(prims)@),
        ensures
            final(prims)@.len() == old(prims)@.len(),
            final(prims)@.to_multiset() == old(prims)@.to_multiset(),
            all_wf(final(prims)@),
            r.wf(final(prims)@),
            r.follows(method, final(prims)@),
            r.run@ == old(prims)@,
            r.contents is Leaf <==> method.declines(old(prims)@),
            r.contents is Leaf ==> final(prims)@ == old(prims)@,
            r.start == 0,
            r.end == final(prims)@.len(),
    {
        let n = prims.len();
        let r = Self::build_range(prims, 0, n, method);
        assert(prims@.subrange(0, n as int) =~= prims@);
        assert(old(prims)@.subrange(0, n as int) =~= old(prims)@);
        r
    }

    fn build_range<T: Split>(prims: &mut Vec<Primitive>, start: usize, end: usize, method: &T) -> (r: Bvh)
        requires
            start < end <= old(prims)@.len(),
            end - start <= u32::MAX,
            all_wf(old(prims)@),
        ensures
            rearranged(old(prims)@, final(prims)@, start as int, end as int),
            all_wf(final(prims)@),
            r.wf(final(prims)@),
            r.follows(method, final(prims)@),
            r.run@ == subrun(old(prims)@, start, end),
            r.start == start,
            r.end == end,
        decreases end - start,
    {
        let ghost p0 = prims@;
        let cut = method.split(prims, start, end);
        let ghost p1 = prims@;
        proof {
            lemma_rearranged(p0, p1, start as int, end as int);
        }
        if let Some(k) = cut {
            let left = Self::build_range(prims, start, k, method);
            let ghost p2 = prims@;
            let right = Self::build_range(prims, k, end, method);
            let ghost p3 = prims@;
            proof {
                assert(rearranged(p1, p2, start as int, k as int));
                assert(rearranged(p2, p3, k as int, end as int));
                assert(p3.subrange(start as int, k as int) =~= p2.subrange(start as int, k as int));
                lemma_wf_frame(&left, p2, p3);
                lemma_follows_frame(&left, method, p2, p3);
                lemma_rearranged_halves(p1, p2, p3, start as int, k as int, end as int);
                lemma_rearranged_twice(p0, p1, p3, start as int, end as int);
                assert(p3.subrange(start as int, end as int) =~= p3.subrange(start as int, k as int)
                    + p3.subrange(k as int, end as int));
                lemma_prims_bounds_concat(
                    p3.subrange(start as int, k as int),
                    p3.subrange(k as int, end as int),
                );
            }
            let bounds = left.bounds.union_box(right.bounds);
            return Bvh {
                bounds,
                start,
                end,
                contents: BvhContents::Node { left: Box::new(left), right: Box::new(right) },
                run: Ghost(subrun(p0, start, end)),
            };
        }
        let bounds = run_bounds(prims, start, end);
        Bvh { bounds, start, end, contents: BvhContents::Leaf, run: Ghost(subrun(p0, start, end)) }
    }

    pub fn bounding_box(&self) -> (r: AxisAlignedBoundingBox)
        ensures
            r == self.bounds,
    {
        self.bounds
    }
}

/// A hit narrowed to distances below `h`.
pub open spec fn cap(o: Option<u64>, h: u64) -> Option<u64> {
    match o {
        Some(t) => if t < h {
            Some(t)
        } else {
            None
        },
        None => None,
    }
}

/// The nearer of two hits.
pub open spec fn nearer(a: Option<u64>, b: Option<u64>) -> Option<u64> {
    match (a, b) {
        (Some(x), Some(y)) => if y < x {
            Some(y)
        } else {
            Some(x)
        },
        (Some(x), None) => Some(x),
        (None, _) => b,
    }
}

/// The distance of a hit.
pub open spec fn distance(h: Option<(usize, u64)>) -> Option<u64> {
    match h {
        Some(p) => Some(p.1),
        None => None,
    }
}

/// `prim_hit` answers "the nearest hit of primitive `i` at a distance in
/// `lo..hi`": narrowing `hi` only drops hits that no longer fit.
pub open spec fn nearest_model(prim_hit: spec_fn(usize, u64, u64) -> Option<u64>) -> bool {
    forall|i: usize, lo: u64, hi: u64, h: u64|
        h <= hi ==> #[trigger] prim_hit(i, lo, h) == cap(#[trigger] prim_hit(i, lo, hi), h)
}

/// `box_hit` never misses a box that encloses a primitive hit in `lo..hi`.
pub open spec fn conservative(
    box_hit: spec_fn(AxisAlignedBoundingBox, u64, u64) -> bool,
    prim_hit: spec_fn(usize, u64, u64) -> Option<u64>,
    prims: Seq<Primitive>,
) -> bool {
    forall|b: AxisAlignedBoundingBox, i: int, lo: u64, hi: u64|
        0 <= i < prims.len() && b.encloses(prims[i].bounds) && (#[trigger] prim_hit(
            i as usize,
            lo,
            hi,
        )) is Some ==> #[trigger] box_hit(b, lo, hi)
}

/// The nearest hit over the primitives `start..end`, each tested on its own.
pub open spec fn scan_nearest(
    prim_hit: spec_fn(usize, u64, u64) -> Option<u64>,
    start: int,
    end: int,
    lo: u64,
    hi: u64,
) -> Option<u64>
    decreases end - start,
{
    if end <= start {
        None
    } else {
        nearer(scan_nearest(prim_hit, start, end - 1, lo, hi), prim_hit((end - 1) as usize, lo, hi))
    }
}

/// A leaf's answer: its primitives in order, each asked for a hit nearer
/// than the best so far.
pub open spec fn leaf_hit(
    prim_hit: spec_fn(usize, u64, u64) -> Option<u64>,
    start: int,
    end: int,
    lo: u64,
    hi: u64,
) -> Option<(usize, u64)>
    decreases end - start,
{
    if end <= start {
        None
    } else {
        let prev = leaf_hit(prim_hit, start, end - 1, lo, hi);
        let bound = match prev {
            Some(p) => p.1,
            None => hi,
        };
        match prim_hit((end - 1) as usize, lo, bound) {
            Some(t) => Some(((end - 1) as usize, t)),
            None => prev,
        }
    }
}

/// `f` answers as `m` does.
pub open spec fn answers_box<B: Fn(AxisAlignedBoundingBox, u64, u64) -> bool>(
    f: B,
    m: spec_fn(AxisAlignedBoundingBox, u64, u64) -> bool,
) -> bool {
    forall|b: AxisAlignedBoundingBox, lo: u64, hi: u64, r: bool|
        f.ensures((b, lo, hi), r) ==> r == m(b, lo, hi)
}

/// `f` answers as `m` does.
pub open spec fn answers_prim<P: Fn(usize, u64, u64) -> Option<u64>>(
    f: P,
    m: spec_fn(usize, u64, u64) -> Option<u64>,
) -> bool {
    forall|i: usize, lo: u64, hi: u64, r: Option<u64>|
        f.ensures((i, lo, hi), r) ==> r == m(i, lo, hi)
}

impl Bvh {
    /// The traversal's answer: nothing where the box is missed; a leaf asks
    /// its primitives; an interior node asks its first child, then its
    /// second below the first child's hit, and keeps the nearer.
    pub open spec fn spec_hit(
        self,
        box_hit: spec_fn(AxisAlignedBoundingBox, u64, u64) -> bool,
        prim_hit: spec_fn(usize, u64, u64) -> Option<u64>,
        lo: u64,
        hi: u64,
    ) -> Option<(usize, u64)>
        decreases self,
    {
        if !box_hit(self.bounds, lo, hi) {
            None
        } else {
            match self.contents {
                BvhContents::Leaf => leaf_hit(prim_hit, self.start as int, self.end as int, lo, hi),
                BvhContents::Node { left, right } => match left.spec_hit(box_hit, prim_hit, lo, hi) {
                    Some(l) => match right.spec_hit(box_hit, prim_hit, lo, l.1) {
                        Some(r) => Some(r),
                        None => Some(l),
                    },
                    None => right.spec_hit(box_hit, prim_hit, lo, hi),
                },
            }
        }
    }

    /// The nearest hit below this node at a distance in `lo..hi`, as the
    /// position of the primitive and the distance. `test_box` says whether
    /// the ray passes through a box within a range of distances; `test_prim`
    /// gives the nearest hit of one primitive in a range.
    ///
    /// It finds the distance that a scan of every primitive under the node
    /// finds, whenever the primitive test reports each primitive's nearest
    /// hit in the range asked and the box test never misses a box that
    /// encloses a primitive hit.
    pub fn hit<B, P>(&self, test_box: &B, test_prim: &P, lo: u64, hi: u64) -> (r: Option<(usize, u64)>) where
        B: Fn(AxisAlignedBoundingBox, u64, u64) -> bool,
        P: Fn(usize, u64, u64) -> Option<u64>,

        requires
            forall|b: AxisAlignedBoundingBox, l: u64, h: u64| test_box.requires((b, l, h)),
            forall|i: usize, l: u64, h: u64| test_prim.requires((i, l, h)),
        ensures
            forall|
                mb: spec_fn(AxisAlignedBoundingBox, u64, u64) -> bool,
                mp: spec_fn(usize, u64, u64) -> Option<u64>,
            |
                answers_box(*test_box, mb) && answers_prim(*test_prim, mp) ==> r == self.spec_hit(
                    mb,
                    mp,
                    lo,
                    hi,
                ),
            forall|
                mb: spec_fn(AxisAlignedBoundingBox, u64, u64) -> bool,
                mp: spec_fn(usize, u64, u64) -> Option<u64>,
                prims: Seq<Primitive>,
            |
                answers_box(*test_box, mb) && answers_prim(*test_prim, mp) && nearest_model(mp)
                    && #[trigger] self.wf(prims) && #[trigger] conservative(mb, mp, prims) ==> {
                    &&& distance(r) == scan_nearest(mp, self.start as int, self.end as int, lo, hi)
                    &&& r matches Some(p) ==> self.start <= p.0 < self.end
                },
    {
        let r = self.hit_model(test_box, test_prim, lo, hi);
        assert forall|
            mb: spec_fn(AxisAlignedBoundingBox, u64, u64) -> bool,
            mp: spec_fn(usize, u64, u64) -> Option<u64>,
            prims: Seq<Primitive>,
        |
            answers_box(*test_box, mb) && answers_prim(*test_prim, mp) && nearest_model(mp)
                && #[trigger] self.wf(prims) && #[trigger] conservative(mb, mp, prims) implies {
            &&& distance(r) == scan_nearest(mp, self.start as int, self.end as int, lo, hi)
            &&& r matches Some(p) ==> self.start <= p.0 < self.end
        } by {
            lemma_hit_matches_scan(self, prims, mb, mp, lo, hi);
        }
        r
    }

    /// The traversal behind `hit`, stated over the models of its two tests.
    fn hit_model<B, P>(&self, test_box: &B, test_prim: &P, lo: u64, hi: u64) -> (r: Option<(usize, u64)>) where
        B: Fn(AxisAlignedBoundingBox, u64, u64) -> bool,
        P: Fn(usize, u64, u64) -> Option<u64>,

        requires
            forall|b: AxisAlignedBoundingBox, l: u64, h: u64| test_box.requires((b, l, h)),
            forall|i: usize, l: u64, h: u64| test_prim.requires((i, l, h)),
        ensures
            forall|
                mb: spec_fn(AxisAlignedBoundingBox, u64, u64) -> bool,
                mp: spec_fn(usize, u64, u64) -> Option<u64>,
            |
                answers_box(*test_box, mb) && answers_prim(*test_prim, mp) ==> r == self.spec_hit(
                    mb,
                    mp,
                    lo,
                    hi,
                ),
        decreases self,
    {
        let inside = test_box(self.bounds, lo, hi);
        if !inside {
            assert forall|
                mb: spec_fn(AxisAlignedBoundingBox, u64, u64) -> bool,
                mp: spec_fn(usize, u64, u64) -> Option<u64>,
            | answers_box(*test_box, mb) && answers_prim(*test_prim, mp) implies None::<(usize, u64)>
                == self.spec_hit(mb, mp, lo, hi) by {
                assert(inside == mb(self.bounds, lo, hi));
            }
            return None;
        }
        match &self.contents {
            BvhContents::Leaf => {
                let best = scan_run(test_prim, self.start, self.end, lo, hi);
                assert forall|
                    mb: spec_fn(AxisAlignedBoundingBox, u64, u64) -> bool,
                    mp: spec_fn(usize, u64, u64) -> Option<u64>,
                | answers_box(*test_box, mb) && answers_prim(*test_prim, mp) implies best
                    == self.spec_hit(mb, mp, lo, hi) by {
                    assert(inside == mb(self.bounds, lo, hi));
                }
                best
            },
            BvhContents::Node { left, right } => {
                let first = left.hit_model(test_box, test_prim, lo, hi);
                let r = match first {
                    Some(l) => {
                        let second = right.hit_model(test_box, test_prim, lo, l.1);
                        let r = match second {
                            Some(r) => Some(r),
                            None => Some(l),
                        };
                        assert forall|
                            mb: spec_fn(AxisAlignedBoundingBox, u64, u64) -> bool,
                            mp: spec_fn(usize, u64, u64) -> Option<u64>,
                        | answers_box(*test_box, mb) && answers_prim(*test_prim, mp) implies r
                            == self.spec_hit(mb, mp, lo, hi) by {
                            assert(inside == mb(self.bounds, lo, hi));
                            assert(first == left.spec_hit(mb, mp, lo, hi));
                            assert(second == right.spec_hit(mb, mp, lo, l.1));
                        }
                        r
                    },
                    None => {
                        let r = right.hit_model(test_box, test_prim, lo, hi);
                        assert forall|
                            mb: spec_fn(AxisAlignedBoundingBox, u64, u64) -> bool,
                            mp: spec_fn(usize, u64, u64) -> Option<u64>,
                        | answers_box(*test_box, mb) && answers_prim(*test_prim, mp) implies r
                            == self.spec_hit(mb, mp, lo, hi) by {
                            assert(inside == mb(self.bounds, lo, hi));
                            assert(first == left.spec_hit(mb, mp, lo, hi));
                            assert(r == right.spec_hit(mb, mp, lo, hi));
                        }
                        r
                    },
                };
                r
            },
        }
    }
}

/// The nearest hit among the primitives `start..end`, asked in order, each
/// for a hit nearer than the best so far.
pub fn scan_run<P>(test_prim: &P, start: usize, end: usize, lo: u64, hi: u64) -> (r: Option<(usize, u64)>) where
    P: Fn(usize, u64, u64) -> Option<u64>,

    requires
        forall|i: usize, l: u64, h: u64| test_prim.requires((i, l, h)),
    ensures
        forall|mp: spec_fn(usize, u64, u64) -> Option<u64>|
            answers_prim(*test_prim, mp) ==> r == leaf_hit(mp, start as int, end as int, lo, hi),
{
    let mut best: Option<(usize, u64)> = None;
    let mut i = start;
    while i < end
        invariant
            start <= i,
            i <= end || i == start,
            forall|i: usize, l: u64, h: u64| test_prim.requires((i, l, h)),
            forall|mp: spec_fn(usize, u64, u64) -> Option<u64>|
                answers_prim(*test_prim, mp) ==> best == leaf_hit(mp, start as int, i as int, lo, hi),
        decreases end - i,
    {
        let bound = match best {
            Some(p) => p.1,
            None => hi,
        };
        let found = test_prim(i, lo, bound);
        let ghost before = best;
        if let Some(t) = found {
            best = Some((i, t));
        }
        assert forall|mp: spec_fn(usize, u64, u64) -> Option<u64>|
            answers_prim(*test_prim, mp) implies best == leaf_hit(mp, start as int, i + 1, lo, hi) by {
            assert(before == leaf_hit(mp, start as int, i as int, lo, hi));
            assert(found == mp(i, lo, bound));
        }
        i = i + 1;
    }
    best
}

proof fn lemma_cap_nearer(a: Option<u64>, b: Option<u64>, h: u64)
    ensures
        cap(nearer(a, b), h) == nearer(cap(a, h), cap(b, h)),
{
}

/// Narrowing the range of a scan narrows its answer.
proof fn lemma_scan_cap(
    prim_hit: spec_fn(usize, u64, u64) -> Option<u64>,
    start: int,
    end: int,
    lo: u64,
    hi: u64,
    h: u64,
)
    requires
        nearest_model(prim_hit),
        h <= hi,
        0 <= start,
    ensures
        scan_nearest(prim_hit, start, end, lo, h) == cap(scan_nearest(prim_hit, start, end, lo, hi), h),
        scan_nearest(prim_hit, start, end, lo, hi) == cap(scan_nearest(prim_hit, start, end, lo, hi), hi),
    decreases end - start,
{
    if end > start {
        lemma_scan_cap(prim_hit, start, end - 1, lo, hi, h);
        let i = (end - 1) as usize;
        assert(prim_hit(i, lo, h) == cap(prim_hit(i, lo, hi), h));
        assert(prim_hit(i, lo, hi) == cap(prim_hit(i, lo, hi), hi));
        lemma_cap_nearer(scan_nearest(prim_hit, start, end - 1, lo, hi), prim_hit(i, lo, hi), h);
        lemma_cap_nearer(scan_nearest(prim_hit, start, end - 1, lo, hi), prim_hit(i, lo, hi), hi);
    }
}

/// A scan over `start..end` is the nearer of the scans over `start..mid`
/// and `mid..end`.
proof fn lemma_scan_split(
    prim_hit: spec_fn(usize, u64, u64) -> Option<u64>,
    start: int,
    mid: int,
    end: int,
    lo: u64,
    hi: u64,
)
    requires
        start <= mid <= end,
    ensures
        scan_nearest(prim_hit, start, end, lo, hi) == nearer(
            scan_nearest(prim_hit, start, mid, lo, hi),
            scan_nearest(prim_hit, mid, end, lo, hi),
        ),
    decreases end - mid,
{
    if end > mid {
        lemma_scan_split(prim_hit, start, mid, end - 1, lo, hi);
    }
}

/// A leaf, which narrows as it goes, finds what a plain scan finds.
pub proof fn lemma_leaf_is_scan(
    prim_hit: spec_fn(usize, u64, u64) -> Option<u64>,
    start: int,
    end: int,
    lo: u64,
    hi: u64,
)
    requires
        nearest_model(prim_hit),
        0 <= start,
        end <= usize::MAX,
    ensures
        distance(leaf_hit(prim_hit, start, end, lo, hi)) == scan_nearest(prim_hit, start, end, lo, hi),
        leaf_hit(prim_hit, start, end, lo, hi) matches Some(p) ==> start <= p.0 < end,
    decreases end - start,
{
    if end > start {
        lemma_leaf_is_scan(prim_hit, start, end - 1, lo, hi);
        lemma_scan_cap(prim_hit, start, end - 1, lo, hi, hi);
        let prev = leaf_hit(prim_hit, start, end - 1, lo, hi);
        let bound = match prev {
            Some(p) => p.1,
            None => hi,
        };
        let i = (end - 1) as usize;
        assert(prim_hit(i, lo, bound) == cap(prim_hit(i, lo, hi), bound));
    }
}

/// A primitive enclosed by a box the ray misses has no hit.
proof fn lemma_scan_missed(
    box_hit: spec_fn(AxisAlignedBoundingBox, u64, u64) -> bool,
    prim_hit: spec_fn(usize, u64, u64) -> Option<u64>,
    prims: Seq<Primitive>,
    b: AxisAlignedBoundingBox,
    start: int,
    end: int,
    lo: u64,
    hi: u64,
)
    requires
        conservative(box_hit, prim_hit, prims),
        !box_hit(b, lo, hi),
        0 <= start,
        end <= prims.len(),
        forall|i: int| start <= i < end ==> b.encloses((#[trigger] prims[i]).bounds),
    ensures
        scan_nearest(prim_hit, start, end, lo, hi) == None::<u64>,
    decreases end - start,
{
    if end > start {
        lemma_scan_missed(box_hit, prim_hit, prims, b, start, end - 1, lo, hi);
        assert(b.encloses(prims[end - 1].bounds));
        assert(prim_hit((end - 1) as usize, lo, hi) is None);
    }
}

/// The hierarchy and a scan of every primitive under it find a hit at the
/// same distance: for a box test that never misses a box enclosing a
/// primitive hit, and primitive tests that report each primitive's nearest
/// hit in the range asked.
pub proof fn lemma_hit_matches_scan(
    t: &Bvh,
    prims: Seq<Primitive>,
    box_hit: spec_fn(AxisAlignedBoundingBox, u64, u64) -> bool,
    prim_hit: spec_fn(usize, u64, u64) -> Option<u64>,
    lo: u64,
    hi: u64,
)
    requires
        t.wf(prims),
        nearest_model(prim_hit),
        conservative(box_hit, prim_hit, prims),
    ensures
        distance(t.spec_hit(box_hit, prim_hit, lo, hi)) == scan_nearest(
            prim_hit,
            t.start as int,
            t.end as int,
            lo,
            hi,
        ),
        t.spec_hit(box_hit, prim_hit, lo, hi) matches Some(p) ==> t.start <= p.0 < t.end,
    decreases t,
{
    let s = t.start as int;
    let e = t.end as int;
    if !box_hit(t.bounds, lo, hi) {
        lemma_prims_bounds(prims.subrange(s, e));
        assert forall|i: int| s <= i < e implies t.bounds.encloses((#[trigger] prims[i]).bounds) by {
            assert(prims.subrange(s, e)[i - s] == prims[i]);
        }
        lemma_scan_missed(box_hit, prim_hit, prims, t.bounds, s, e, lo, hi);
    } else {
        match &t.contents {
            BvhContents::Leaf => {
                lemma_leaf_is_scan(prim_hit, s, e, lo, hi);
            },
            BvhContents::Node { left, right } => {
                let m = left.end as int;
                assert(left.wf(prims) && right.wf(prims));
                assert(left.start < left.end && right.start < right.end);
                lemma_hit_matches_scan(left, prims, box_hit, prim_hit, lo, hi);
                lemma_hit_matches_scan(right, prims, box_hit, prim_hit, lo, hi);
                lemma_scan_split(prim_hit, s, m, e, lo, hi);
                lemma_scan_cap(prim_hit, s, m, lo, hi, hi);
                match left.spec_hit(box_hit, prim_hit, lo, hi) {
                    Some(l) => {
                        lemma_hit_matches_scan(right, prims, box_hit, prim_hit, lo, l.1);
                        lemma_scan_cap(prim_hit, m, e, lo, hi, l.1);
                    },
                    None => {},
                }
            },
        }
    }
}

} // verus!
